use agent_core::detect::PixelTest;
use agent_core::region::{find_regions, ShapeRule, Window};
use agent_core::{ElementType, ImageData, ImageEngine, Rect, Rgb};

fn hue(c: Rgb) -> f32 {
    let hsv = c.to_hsv();
    hsv.hue_num as f32 / hsv.hue_den as f32
}

fn blank(width: usize, height: usize, fill: Rgb) -> ImageData {
    ImageData { width, height, pixels: vec![fill; width * height] }
}

fn paint(image: &mut ImageData, x0: usize, y0: usize, w: usize, h: usize, c: Rgb) {
    for y in y0..y0 + h {
        for x in x0..x0 + w {
            image.pixels[y * image.width + x] = c;
        }
    }
}

fn paint_disc(image: &mut ImageData, cx: i64, cy: i64, radius: i64, c: Rgb) {
    for y in 0..image.height as i64 {
        for x in 0..image.width as i64 {
            if (x - cx) * (x - cx) + (y - cy) * (y - cy) <= radius * radius {
                image.pixels[(y as usize) * image.width + x as usize] = c;
            }
        }
    }
}

#[test]
fn test_rgb_to_hsv() {
    let red = Rgb::new(255, 0, 0);
    let hsv = red.to_hsv();
    let h = hsv.hue_num as f32 / hsv.hue_den as f32;
    let s = hsv.sat_num as f32 / hsv.sat_den as f32;
    let v = hsv.val_num as f32 / 255.0;
    assert!((h - 0.0).abs() < 1.0);
    assert!((s - 1.0).abs() < 0.01);
    assert!((v - 1.0).abs() < 0.01);
}

#[test]
fn test_color_distance() {
    let c1 = Rgb::new(100, 100, 100);
    let c2 = Rgb::new(100, 100, 100);
    assert_eq!(c1.distance_sq(&c2), 0);

    let c3 = Rgb::new(110, 100, 100);
    assert_eq!(c1.distance_sq(&c3), 100);
}

#[test]
fn test_rect_operations() {
    let rect = Rect::new(10, 20, 100, 50);
    assert_eq!(rect.center_x(), 60);
    assert_eq!(rect.center_y(), 45);
    assert!(rect.contains(50, 30));
    assert!(!rect.contains(5, 30));
}

#[test]
fn hue_of_saturated_primaries() {
    assert_eq!(hue(Rgb::new(255, 0, 0)), 0.0);
    assert_eq!(hue(Rgb::new(0, 255, 0)), 120.0);
    assert_eq!(hue(Rgb::new(0, 0, 255)), 240.0);
    assert_eq!(hue(Rgb::new(255, 255, 0)), 60.0);
    assert_eq!(hue(Rgb::new(255, 0, 255)), 300.0);
    assert_eq!(hue(Rgb::new(0, 255, 255)), 180.0);
}

#[test]
fn hue_wraps_below_red() {
    let hsv = Rgb::new(255, 0, 51).to_hsv();
    assert_eq!(hsv.hue_num, 360 * 255 - 60 * 51);
    assert_eq!(hsv.hue_den, 255);
    assert_eq!(hue(Rgb::new(255, 0, 51)), 348.0);
}

#[test]
fn black_and_grey_have_hue_zero() {
    let black = Rgb::new(0, 0, 0).to_hsv();
    assert_eq!((black.hue_num, black.hue_den), (0, 1));
    assert_eq!((black.sat_num, black.sat_den), (0, 1));
    assert_eq!(black.val_num, 0);
    let grey = Rgb::new(90, 90, 90).to_hsv();
    assert_eq!((grey.hue_num, grey.hue_den), (0, 1));
    assert_eq!((grey.sat_num, grey.sat_den), (0, 90));
    assert_eq!(grey.val_num, 90);
}

#[test]
fn hsv_components_stay_in_range() {
    for r in (0..=255u32).step_by(17) {
        for g in (0..=255u32).step_by(15) {
            for b in (0..=255u32).step_by(51) {
                let c = Rgb::new(r as u8, g as u8, b as u8);
                let hsv = c.to_hsv();
                assert!(hsv.hue_den >= 1 && hsv.sat_den >= 1);
                assert!(hsv.hue_num < 360 * hsv.hue_den);
                assert!(hsv.sat_num <= hsv.sat_den);
                assert!(hsv.val_num <= 255);
                assert_eq!(c.distance_sq(&c), 0);
            }
        }
    }
}

#[test]
fn colour_predicates() {
    assert!(Rgb::new(255, 0, 0).to_hsv().is_red());
    assert!(Rgb::new(255, 0, 40).to_hsv().is_red());
    assert!(!Rgb::new(255, 128, 0).to_hsv().is_red());
    assert!(!Rgb::new(60, 0, 0).to_hsv().is_red());
    assert!(Rgb::new(0, 0, 255).to_hsv().is_blue());
    assert!(!Rgb::new(0, 255, 255).to_hsv().is_blue());
    assert!(Rgb::new(0, 255, 0).to_hsv().is_green());
    assert!(!Rgb::new(0, 0, 255).to_hsv().is_green());
    assert!(Rgb::new(250, 250, 250).to_hsv().is_bright());
    assert!(!Rgb::new(250, 0, 0).to_hsv().is_bright());
    assert!(!Rgb::new(100, 100, 100).to_hsv().is_bright());
}

#[test]
fn predicate_thresholds_are_strict() {
    let half = Rgb::new(200, 100, 100).to_hsv();
    assert_eq!((half.sat_num, half.sat_den), (100, 200));
    assert!(!half.is_red());
    assert!(Rgb::new(200, 99, 99).to_hsv().is_red());
    let edge = Rgb::new(255, 64, 0).to_hsv();
    assert!(edge.hue_num > 15 * edge.hue_den);
    assert!(!edge.is_red());
    let just = Rgb::new(255, 63, 0).to_hsv();
    assert!(just.hue_num < 15 * just.hue_den);
    assert!(just.is_red());
}

#[test]
fn matches_compares_squared_distance() {
    let a = Rgb::new(10, 10, 10);
    let b = Rgb::new(13, 14, 10);
    assert_eq!(a.distance_sq(&b), 25);
    assert!(a.matches(&b, 5));
    assert!(!a.matches(&b, 4));
    assert!(a.matches(&Rgb::new(255, 255, 255), u32::MAX));
    assert!(!Rgb::new(0, 0, 0).matches(&Rgb::new(255, 255, 255), 441));
    assert!(Rgb::new(0, 0, 0).matches(&Rgb::new(255, 255, 255), 442));
}

#[test]
fn rect_area_and_edges() {
    let rect = Rect::new(-5, -5, 10, 3);
    assert_eq!(rect.area(), 30);
    assert_eq!(rect.center_x(), 0);
    assert_eq!(rect.center_y(), -4);
    assert!(rect.contains(-5, -5));
    assert!(rect.contains(4, -3));
    assert!(!rect.contains(5, -3));
    assert!(!rect.contains(4, -2));
    assert!(!Rect::new(i32::MAX, 0, 1, 1).contains(i32::MIN, 0));
}

#[test]
fn images_from_bytes() {
    let argb = [9u8, 1, 2, 3, 9, 4, 5, 6, 9, 7];
    let image = ImageData::from_argb_bytes(&argb, 2, 1);
    assert_eq!(image.pixels, vec![Rgb::new(1, 2, 3), Rgb::new(4, 5, 6)]);
    assert_eq!((image.width, image.height), (2, 1));
    let rgb = [1u8, 2, 3, 4, 5, 6, 7, 8];
    let image = ImageData::from_rgb_bytes(&rgb, 1, 2);
    assert_eq!(image.pixels, vec![Rgb::new(1, 2, 3), Rgb::new(4, 5, 6)]);
    assert!(ImageData::from_rgb_bytes(&[1, 2], 1, 1).pixels.is_empty());
}

#[test]
fn pixels_outside_the_image_are_absent() {
    let image = ImageData::from_rgb_bytes(&[1, 2, 3, 4, 5, 6, 7, 8, 9, 10, 11, 12], 2, 2);
    assert_eq!(image.get_pixel(1, 1), Some(&Rgb::new(10, 11, 12)));
    assert_eq!(image.get_pixel(0, 1), Some(&Rgb::new(7, 8, 9)));
    assert_eq!(image.get_pixel(2, 0), None);
    assert_eq!(image.get_pixel(0, 2), None);
    assert_eq!(image.get_pixel(usize::MAX, usize::MAX), None);
    assert_eq!(*image.get_pixel_unchecked(1, 0), Rgb::new(4, 5, 6));
    let short = ImageData { width: 2, height: 2, pixels: vec![Rgb::new(1, 1, 1)] };
    assert_eq!(short.get_pixel(1, 1), None);
}

#[test]
fn regions_are_found_in_row_major_order() {
    let mut mask = vec![false; 8 * 4];
    for &(x, y) in &[(5usize, 0usize), (6, 0), (6, 1), (1, 1), (1, 2), (0, 2), (7, 3)] {
        mask[y * 8 + x] = true;
    }
    let window = Window { x_lo: 0, x_hi: 8, y_lo: 0, y_hi: 4 };
    let found = find_regions(&mask, 8, 4, window, ShapeRule::Patch { min_side: 0 });
    assert_eq!(found.len(), 3);
    assert_eq!((found[0].seed_x, found[0].seed_y), (5, 0));
    assert_eq!((found[0].min_x, found[0].max_x, found[0].min_y, found[0].max_y), (5, 6, 0, 1));
    assert_eq!(found[0].pixel_count, 3);
    assert_eq!((found[1].seed_x, found[1].seed_y), (1, 1));
    assert_eq!((found[1].min_x, found[1].max_x, found[1].min_y, found[1].max_y), (0, 1, 1, 2));
    assert_eq!(found[1].pixel_count, 3);
    assert_eq!((found[2].seed_x, found[2].seed_y), (7, 3));
    assert_eq!(found[2].pixel_count, 1);
}

#[test]
fn regions_start_in_the_window_and_may_leave_it() {
    let mut mask = vec![false; 6 * 2];
    for x in 0..6 {
        mask[x] = true;
    }
    mask[6 + 1] = true;
    let window = Window { x_lo: 4, x_hi: 6, y_lo: 0, y_hi: 2 };
    let found = find_regions(&mask, 6, 2, window, ShapeRule::Patch { min_side: 0 });
    assert_eq!(found.len(), 1);
    assert_eq!((found[0].seed_x, found[0].seed_y), (4, 0));
    assert_eq!((found[0].min_x, found[0].max_x), (0, 5));
    assert_eq!((found[0].min_y, found[0].max_y), (0, 1));
    assert_eq!(found[0].pixel_count, 7);
    let empty = Window { x_lo: 3, x_hi: 3, y_lo: 0, y_hi: 2 };
    assert!(find_regions(&mask, 6, 2, empty, ShapeRule::Patch { min_side: 0 }).is_empty());
}

#[test]
fn diagonal_neighbours_are_separate_regions() {
    let mask = vec![true, false, false, true];
    let window = Window { x_lo: 0, x_hi: 2, y_lo: 0, y_hi: 2 };
    let found = find_regions(&mask, 2, 2, window, ShapeRule::Patch { min_side: 0 });
    assert_eq!(found.len(), 2);
}

#[test]
fn shape_rules() {
    let region = |w: usize, h: usize, count: usize| agent_core::Region {
        seed_x: 0,
        seed_y: 0,
        min_x: 0,
        max_x: w - 1,
        min_y: 0,
        max_y: h - 1,
        pixel_count: count,
    };
    let bar = ShapeRule::Bar { min_width: 50, max_height: 25 };
    assert!(bar.accepts(&region(50, 10, 500)));
    assert!(!bar.accepts(&region(49, 10, 490)));
    assert!(bar.accepts(&region(76, 25, 1900)));
    assert!(!bar.accepts(&region(75, 25, 1875)));
    assert!(!bar.accepts(&region(200, 26, 5200)));
    let disc = ShapeRule::Disc { min_diameter: 40, max_diameter: 120, filled: true };
    assert!(disc.accepts(&region(40, 40, 1600)));
    assert!(!disc.accepts(&region(39, 39, 1521)));
    assert!(!disc.accepts(&region(121, 121, 14641)));
    assert!(disc.accepts(&region(40, 40, 629)));
    assert!(!disc.accepts(&region(40, 40, 628)));
    assert!(!disc.accepts(&region(70, 100, 7000)));
    assert!(disc.accepts(&region(71, 100, 7100)));
    assert!(!disc.accepts(&region(70, 50, 3500)));
    assert!(disc.accepts(&region(69, 50, 3450)));
    let ring = ShapeRule::Disc { min_diameter: 80, max_diameter: 200, filled: false };
    assert!(ring.accepts(&region(100, 100, 1)));
    assert!(!ring.accepts(&region(201, 200, 40000)));
    let patch = ShapeRule::Patch { min_side: 10 };
    assert!(patch.accepts(&region(11, 11, 121)));
    assert!(!patch.accepts(&region(10, 11, 110)));
    assert!(!patch.accepts(&region(11, 10, 110)));
}

#[test]
fn health_bars_by_colour() {
    let mut image = blank(200, 100, Rgb::new(0, 0, 0));
    paint(&mut image, 100, 60, 60, 8, Rgb::new(0, 255, 0));
    paint(&mut image, 10, 40, 80, 10, Rgb::new(0, 0, 255));
    paint(&mut image, 20, 5, 70, 10, Rgb::new(255, 0, 0));
    paint(&mut image, 120, 5, 40, 10, Rgb::new(255, 0, 0));
    paint(&mut image, 150, 80, 30, 15, Rgb::new(0, 0, 255));
    let found = ImageEngine::detect_health_bars(&image);
    assert_eq!(found.len(), 3);
    assert_eq!(found[0].element_type, ElementType::HealthBarEnemy);
    assert_eq!(found[0].bounds, Rect::new(20, 5, 70, 10));
    assert_eq!(found[1].element_type, ElementType::HealthBarAlly);
    assert_eq!(found[1].bounds, Rect::new(10, 40, 80, 10));
    assert_eq!(found[2].element_type, ElementType::HealthBarSelf);
    assert_eq!(found[2].bounds, Rect::new(100, 60, 60, 8));
    for e in &found {
        assert_eq!(e.confidence_percent, 85);
        assert!(e.extra_data.is_none());
        assert!(e.bounds.x >= 0 && e.bounds.y >= 0);
        assert!(e.bounds.width > 0 && e.bounds.height > 0);
        assert!(e.bounds.x + e.bounds.width <= 200 && e.bounds.y + e.bounds.height <= 100);
    }
}

#[test]
fn skill_buttons_on_the_right() {
    let mut image = blank(300, 200, Rgb::new(0, 0, 0));
    paint_disc(&mut image, 250, 100, 30, Rgb::new(255, 255, 255));
    paint_disc(&mut image, 60, 100, 30, Rgb::new(255, 255, 255));
    paint(&mut image, 210, 10, 60, 12, Rgb::new(255, 255, 255));
    let found = ImageEngine::detect_skill_buttons(&image);
    assert_eq!(found.len(), 1);
    assert_eq!(found[0].element_type, ElementType::SkillButton);
    assert_eq!(found[0].bounds, Rect::new(220, 70, 61, 61));
    assert_eq!(found[0].confidence_percent, 75);
}

#[test]
fn joystick_is_the_largest_disc() {
    let mut image = blank(600, 500, Rgb::new(0, 0, 0));
    paint_disc(&mut image, 60, 300, 45, Rgb::new(128, 128, 128));
    paint_disc(&mut image, 100, 430, 60, Rgb::new(120, 120, 120));
    let found = ImageEngine::detect_joystick(&image).unwrap();
    assert_eq!(found.element_type, ElementType::Joystick);
    assert_eq!(found.bounds, Rect::new(40, 370, 121, 121));
    assert_eq!(found.confidence_percent, 80);
    let none = blank(300, 300, Rgb::new(255, 255, 255));
    assert!(ImageEngine::detect_joystick(&none).is_none());
}

#[test]
fn differences_between_images() {
    let a = blank(50, 40, Rgb::new(10, 10, 10));
    let mut b = blank(50, 40, Rgb::new(10, 10, 10));
    paint(&mut b, 5, 6, 11, 12, Rgb::new(200, 10, 10));
    paint(&mut b, 30, 20, 10, 15, Rgb::new(200, 10, 10));
    paint(&mut b, 20, 2, 12, 12, Rgb::new(12, 10, 10));
    assert_eq!(ImageEngine::find_differences(&a, &b, 5), vec![Rect::new(5, 6, 11, 12)]);
    assert!(ImageEngine::find_differences(&a, &b, 190).is_empty());
    assert_eq!(ImageEngine::find_differences(&a, &b, 1).len(), 2);
    let other = blank(40, 50, Rgb::new(10, 10, 10));
    assert!(ImageEngine::find_differences(&a, &other, 5).is_empty());
}

#[test]
fn pixel_tests() {
    assert!(PixelTest::Red.check(&Rgb::new(255, 0, 0)));
    assert!(!PixelTest::Red.check(&Rgb::new(0, 255, 0)));
    assert!(PixelTest::Button.check(&Rgb::new(255, 255, 255)));
    assert!(PixelTest::Button.check(&Rgb::new(255, 0, 0)));
    assert!(!PixelTest::Button.check(&Rgb::new(100, 100, 100)));
    assert!(!PixelTest::Button.check(&Rgb::new(100, 30, 30)));
    assert!(PixelTest::Button.check(&Rgb::new(100, 29, 29)));
    assert!(PixelTest::Stick.check(&Rgb::new(128, 128, 128)));
    assert!(!PixelTest::Stick.check(&Rgb::new(51, 51, 51)));
    assert!(PixelTest::Stick.check(&Rgb::new(52, 52, 52)));
    assert!(!PixelTest::Stick.check(&Rgb::new(204, 204, 204)));
    assert!(PixelTest::Stick.check(&Rgb::new(203, 203, 203)));
    assert!(PixelTest::Stick.check(&Rgb::new(100, 70, 70)));
    assert!(!PixelTest::Stick.check(&Rgb::new(100, 69, 69)));
}

#[test]
fn chess_colours() {
    assert_eq!(ImageEngine::classify_chess_color(&Rgb::new(50, 0, 0)), 0);
    assert_eq!(ImageEngine::classify_chess_color(&Rgb::new(51, 0, 0)), 1);
    assert_eq!(ImageEngine::classify_chess_color(&Rgb::new(255, 0, 16)), 1);
    assert_eq!(ImageEngine::classify_chess_color(&Rgb::new(255, 128, 0)), 2);
    assert_eq!(ImageEngine::classify_chess_color(&Rgb::new(255, 255, 0)), 3);
    assert_eq!(ImageEngine::classify_chess_color(&Rgb::new(0, 255, 0)), 4);
    assert_eq!(ImageEngine::classify_chess_color(&Rgb::new(0, 255, 255)), 5);
    assert_eq!(ImageEngine::classify_chess_color(&Rgb::new(0, 0, 255)), 6);
    assert_eq!(ImageEngine::classify_chess_color(&Rgb::new(255, 0, 255)), 7);
    assert_eq!(ImageEngine::classify_chess_color(&Rgb::new(255, 0, 128)), 7);
    assert_eq!(ImageEngine::classify_chess_color(&Rgb::new(255, 0, 127)), 1);
}

#[test]
fn board_read_off_an_image() {
    let mut image = blank(60, 40, Rgb::new(0, 0, 0));
    paint(&mut image, 0, 0, 20, 20, Rgb::new(255, 0, 0));
    paint(&mut image, 20, 0, 20, 20, Rgb::new(0, 255, 0));
    paint(&mut image, 40, 0, 20, 20, Rgb::new(0, 0, 255));
    paint(&mut image, 0, 20, 20, 20, Rgb::new(255, 255, 0));
    paint(&mut image, 20, 20, 20, 20, Rgb::new(255, 0, 255));
    let board = ImageEngine::analyze_eliminate_board(&image, &Rect::new(0, 0, 60, 40), 2, 3);
    assert_eq!(board, vec![vec![1, 4, 6], vec![3, 7, 0]]);
    let off = ImageEngine::analyze_eliminate_board(&image, &Rect::new(1000, 1000, 60, 40), 2, 3);
    assert_eq!(off, vec![vec![0, 0, 0], vec![0, 0, 0]]);
    let mut split = blank(10, 10, Rgb::new(0, 255, 0));
    paint(&mut split, 0, 0, 5, 10, Rgb::new(255, 0, 0));
    let tie = ImageEngine::analyze_eliminate_board(&split, &Rect::new(0, 0, 10, 10), 1, 1);
    assert_eq!(tie, vec![vec![1]]);
}
