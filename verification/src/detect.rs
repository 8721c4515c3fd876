//! Detectors: each classifies the pixels of an image, finds the connected
//! components of the admitted pixels and keeps those of the right shape.

use crate::color::{hsv_of, rgb_distance_sq, Rgb};
use crate::image::{DetectedElement, ElementType, ImageData, Rect};
use crate::parallel::par_map;
use crate::region::{accepted, components, find_regions, Region, ShapeRule, Window};
use vstd::prelude::*;

verus! {

/// Namespace of the detectors.
pub struct ImageEngine;

/// A test that decides which pixels a detector looks at.
#[derive(Debug, Clone, Copy, PartialEq, Eq, Structural)]
pub enum PixelTest {
    /// Red, the colour of an enemy's health bar.
    Red,
    /// Blue, the colour of an ally's health bar.
    Blue,
    /// Green, the colour of one's own health bar.
    Green,
    /// Bright, or with saturation above 0.7: the face of a skill button.
    Button,
    /// Value strictly between 0.2 and 0.8 and saturation at most 0.3: the
    /// pale grey of a joystick base.
    Stick,
}

impl PixelTest {
    /// Whether the test admits the colour.
    pub open spec fn passes(self, c: Rgb) -> bool {
        let v = hsv_of(c);
        match self {
            PixelTest::Red => v.red(),
            PixelTest::Blue => v.blue(),
            PixelTest::Green => v.green(),
            PixelTest::Button => v.bright() || v.sat_above(7),
            PixelTest::Stick => v.val_above(2) && v.val_below(8) && !v.sat_above(3),
        }
    }

    /// Whether the test admits the colour.
    pub fn check(&self, c: &Rgb) -> (b: bool)
        ensures
            b == self.passes(*c),
    {
        let v = c.to_hsv();
        match *self {
            PixelTest::Red => v.is_red(),
            PixelTest::Blue => v.is_blue(),
            PixelTest::Green => v.is_green(),
            PixelTest::Button => v.is_bright() || v.sat_gt(7),
            PixelTest::Stick => v.val_gt(2) && v.val_lt(8) && !v.sat_gt(3),
        }
    }
}

/// The mask that admits the pixels passing `test`.
pub open spec fn mask_of(pixels: Seq<Rgb>, test: PixelTest) -> Seq<bool> {
    Seq::new(pixels.len(), |i: int| test.passes(pixels[i]))
}

/// The mask that admits the positions at which two images differ by more
/// than `tolerance` in colour distance.
pub open spec fn change_mask(a: Seq<Rgb>, b: Seq<Rgb>, tolerance: int) -> Seq<bool> {
    Seq::new(a.len(), |i: int| rgb_distance_sq(a[i], b[i]) > tolerance * tolerance)
}

/// The window that covers a whole `w` by `h` image.
pub open spec fn whole(w: usize, h: usize) -> Window {
    Window { x_lo: 0, x_hi: w, y_lo: 0, y_hi: h }
}

/// The right third of the image: columns from `floor(2 * w / 3)` on.
pub open spec fn right_third(w: usize, h: usize) -> Window {
    Window { x_lo: (2 * w / 3) as usize, x_hi: w, y_lo: 0, y_hi: h }
}

/// The lower left of the image: columns before `floor(w / 3)`, rows from
/// `floor(h / 2)` on.
pub open spec fn lower_left(w: usize, h: usize) -> Window {
    Window { x_lo: 0, x_hi: w / 3, y_lo: h / 2, y_hi: h }
}

/// Shape of a health bar.
pub open spec fn bar_rule() -> ShapeRule {
    ShapeRule::Bar { min_width: 50, max_height: 25 }
}

/// Shape of a skill button.
pub open spec fn button_rule() -> ShapeRule {
    ShapeRule::Disc { min_diameter: 40, max_diameter: 120, filled: true }
}

/// Shape of a joystick base.
pub open spec fn stick_rule() -> ShapeRule {
    ShapeRule::Disc { min_diameter: 80, max_diameter: 200, filled: false }
}

/// Shape of a change worth reporting.
pub open spec fn change_rule() -> ShapeRule {
    ShapeRule::Patch { min_side: 10 }
}

/// The components of the pixels of `image` passing `test` that meet `win`
/// and have the shape `rule`.
pub open spec fn regions_found(
    image: ImageData,
    test: PixelTest,
    win: Window,
    rule: ShapeRule,
) -> Seq<Region> {
    accepted(
        components(mask_of(image.pixels@, test), image.width as int, image.height as int, win),
        rule,
    )
}

/// Bounding box of a region as a rectangle.
pub open spec fn rect_of(r: Region) -> Rect {
    Rect { x: r.min_x as i32, y: r.min_y as i32, width: r.span_x() as i32, height: r.span_y() as i32 }
}

/// The element that reports a region as of the given kind.
pub open spec fn element_of(r: Region, kind: ElementType, confidence: u8) -> DetectedElement {
    DetectedElement {
        element_type: kind,
        bounds: rect_of(r),
        confidence_percent: confidence,
        extra_data: None,
    }
}

/// The elements that report the regions as of the given kind, in order.
pub open spec fn elements_of(rs: Seq<Region>, kind: ElementType, confidence: u8) -> Seq<
    DetectedElement,
> {
    Seq::new(rs.len(), |i: int| element_of(rs[i], kind, confidence))
}

/// The rectangle lies inside a `w` by `h` image and is not empty.
pub open spec fn rect_in_image(r: Rect, w: int, h: int) -> bool {
    &&& 0 <= r.x
    &&& 0 <= r.y
    &&& 1 <= r.width
    &&& 1 <= r.height
    &&& r.x + r.width <= w
    &&& r.y + r.height <= h
}

/// Health bars of an image: the red bars as enemy bars, then the blue ones
/// as ally bars, then the green ones as one's own, each with confidence 0.85.
pub open spec fn health_bars(image: ImageData) -> Seq<DetectedElement> {
    let win = whole(image.width, image.height);
    elements_of(
        regions_found(image, PixelTest::Red, win, bar_rule()),
        ElementType::HealthBarEnemy,
        85,
    ) + elements_of(
        regions_found(image, PixelTest::Blue, win, bar_rule()),
        ElementType::HealthBarAlly,
        85,
    ) + elements_of(
        regions_found(image, PixelTest::Green, win, bar_rule()),
        ElementType::HealthBarSelf,
        85,
    )
}

/// Area of the bounding box of a region.
pub open spec fn box_area(r: Region) -> int {
    r.span_x() * r.span_y()
}

/// `rs[k]` has the largest bounding box of `rs`, and is the first that has.
pub open spec fn is_first_largest(rs: Seq<Region>, k: int) -> bool {
    &&& 0 <= k < rs.len()
    &&& forall|i: int| 0 <= i < rs.len() ==> box_area(#[trigger] rs[i]) <= box_area(rs[k])
    &&& forall|i: int| 0 <= i < k ==> box_area(#[trigger] rs[i]) < box_area(rs[k])
}

fn build_mask(pixels: &Vec<Rgb>, test: PixelTest) -> (mask: Vec<bool>)
    ensures
        mask@ == mask_of(pixels@, test),
{
    let classify = |c: &Rgb| -> (b: bool)
        ensures
            b == test.passes(*c),
        { test.check(c) };
    let mask = par_map(pixels, classify);
    proof {
        assert(mask@ =~= mask_of(pixels@, test));
    }
    mask
}

fn to_rect(r: &Region) -> (b: Rect)
    requires
        r.min_x <= r.max_x < i32::MAX,
        r.min_y <= r.max_y < i32::MAX,
    ensures
        b == rect_of(*r),
{
    Rect {
        x: r.min_x as i32,
        y: r.min_y as i32,
        width: (r.max_x - r.min_x + 1) as i32,
        height: (r.max_y - r.min_y + 1) as i32,
    }
}

/// Appends to `out` one element of kind `kind` for each region.
fn push_elements(
    out: &mut Vec<DetectedElement>,
    regions: &Vec<Region>,
    kind: ElementType,
    confidence: u8,
    Ghost(w): Ghost<int>,
    Ghost(h): Ghost<int>,
)
    requires
        w <= i32::MAX,
        h <= i32::MAX,
        forall|i: int|
            0 <= i < regions@.len() ==> (#[trigger] regions@[i]).min_x <= regions@[i].max_x < w
                && regions@[i].min_y <= regions@[i].max_y < h,
        forall|i: int|
            0 <= i < old(out)@.len() ==> rect_in_image((#[trigger] old(out)@[i]).bounds, w, h),
    ensures
        final(out)@ == old(out)@ + elements_of(regions@, kind, confidence),
        forall|i: int|
            0 <= i < final(out)@.len() ==> rect_in_image((#[trigger] final(out)@[i]).bounds, w, h),
{
    let mut i: usize = 0;
    while i < regions.len()
        invariant
            i <= regions@.len(),
            w <= i32::MAX,
            h <= i32::MAX,
            forall|k: int|
                0 <= k < regions@.len() ==> (#[trigger] regions@[k]).min_x <= regions@[k].max_x < w
                    && regions@[k].min_y <= regions@[k].max_y < h,
            out@.len() == old(out)@.len() + i,
            forall|k: int| 0 <= k < old(out)@.len() ==> out@[k] == old(out)@[k],
            forall|k: int|
                0 <= k < i ==> out@[old(out)@.len() + k] == element_of(
                    regions@[k],
                    kind,
                    confidence,
                ),
            forall|k: int| 0 <= k < out@.len() ==> rect_in_image((#[trigger] out@[k]).bounds, w, h),
        decreases regions@.len() - i,
    {
        let r = regions[i];
        let bounds = to_rect(&r);
        out.push(
            DetectedElement {
                element_type: kind,
                bounds,
                confidence_percent: confidence,
                extra_data: None,
            },
        );
        i = i + 1;
    }
    proof {
        assert(out@ =~= old(out)@ + elements_of(regions@, kind, confidence));
    }
}

impl ImageEngine {
    /// Finds health bars: components of red, blue and green pixels that are
    /// at least 50 wide, at most 25 high and more than three times as wide
    /// as high.
    pub fn detect_health_bars(image: &ImageData) -> (out: Vec<DetectedElement>)
        requires
            image.wf(),
            image.width <= i32::MAX,
            image.height <= i32::MAX,
        ensures
            out@ == health_bars(*image),
            forall|i: int|
                0 <= i < out@.len() ==> rect_in_image(
                    (#[trigger] out@[i]).bounds,
                    image.width as int,
                    image.height as int,
                ),
    {
        let rule = ShapeRule::Bar { min_width: 50, max_height: 25 };
        let win = Window { x_lo: 0, x_hi: image.width, y_lo: 0, y_hi: image.height };
        let mut out: Vec<DetectedElement> = Vec::new();
        let red = build_mask(&image.pixels, PixelTest::Red);
        let reds = find_regions(&red, image.width, image.height, win, rule);
        push_elements(
            &mut out,
            &reds,
            ElementType::HealthBarEnemy,
            85,
            Ghost(image.width as int),
            Ghost(image.height as int),
        );
        let blue = build_mask(&image.pixels, PixelTest::Blue);
        let blues = find_regions(&blue, image.width, image.height, win, rule);
        push_elements(
            &mut out,
            &blues,
            ElementType::HealthBarAlly,
            85,
            Ghost(image.width as int),
            Ghost(image.height as int),
        );
        let green = build_mask(&image.pixels, PixelTest::Green);
        let greens = find_regions(&green, image.width, image.height, win, rule);
        push_elements(
            &mut out,
            &greens,
            ElementType::HealthBarSelf,
            85,
            Ghost(image.width as int),
            Ghost(image.height as int),
        );
        proof {
            assert(out@ =~= health_bars(*image));
        }
        out
    }

    /// Finds skill buttons: components of button-coloured pixels that start
    /// in the right third of the image, have a diameter from 40 to 120, are
    /// roughly as wide as high, and fill at least half of their disc.
    /// Confidence 0.75.
    pub fn detect_skill_buttons(image: &ImageData) -> (out: Vec<DetectedElement>)
        requires
            image.wf(),
            image.width <= i32::MAX,
            image.height <= i32::MAX,
        ensures
            out@ == elements_of(
                regions_found(
                    *image,
                    PixelTest::Button,
                    right_third(image.width, image.height),
                    button_rule(),
                ),
                ElementType::SkillButton,
                75,
            ),
            forall|i: int|
                0 <= i < out@.len() ==> rect_in_image(
                    (#[trigger] out@[i]).bounds,
                    image.width as int,
                    image.height as int,
                ),
    {
        let rule = ShapeRule::Disc { min_diameter: 40, max_diameter: 120, filled: true };
        let start: usize = image.width / 3 * 2 + (image.width % 3) * 2 / 3;
        let win = Window { x_lo: start, x_hi: image.width, y_lo: 0, y_hi: image.height };
        let mut out: Vec<DetectedElement> = Vec::new();
        let mask = build_mask(&image.pixels, PixelTest::Button);
        let found = find_regions(&mask, image.width, image.height, win, rule);
        push_elements(
            &mut out,
            &found,
            ElementType::SkillButton,
            75,
            Ghost(image.width as int),
            Ghost(image.height as int),
        );
        proof {
            assert(win == right_third(image.width, image.height));
            assert(out@ =~= elements_of(found@, ElementType::SkillButton, 75));
        }
        out
    }

    /// Finds the joystick base: among the components of stick-coloured
    /// pixels that start in the lower left of the image, have a diameter
    /// from 80 to 200 and are roughly as wide as high, the first one with
    /// the largest bounding box. Confidence 0.80.
    pub fn detect_joystick(image: &ImageData) -> (out: Option<DetectedElement>)
        requires
            image.wf(),
            image.width <= i32::MAX,
            image.height <= i32::MAX,
        ensures
            ({
                let rs = regions_found(
                    *image,
                    PixelTest::Stick,
                    lower_left(image.width, image.height),
                    stick_rule(),
                );
                match out {
                    None => rs.len() == 0,
                    Some(e) => exists|k: int| #[trigger]
                        is_first_largest(rs, k) && e == element_of(rs[k], ElementType::Joystick, 80),
                }
            }),
            out matches Some(e) ==> rect_in_image(
                e.bounds,
                image.width as int,
                image.height as int,
            ),
    {
        let rule = ShapeRule::Disc { min_diameter: 80, max_diameter: 200, filled: false };
        let win = Window {
            x_lo: 0,
            x_hi: image.width / 3,
            y_lo: image.height / 2,
            y_hi: image.height,
        };
        let mask = build_mask(&image.pixels, PixelTest::Stick);
        let found = find_regions(&mask, image.width, image.height, win, rule);
        proof {
            assert(win == lower_left(image.width, image.height));
        }
        if found.len() == 0 {
            return None;
        }
        let mut best: usize = 0;
        let mut best_area: u128 = Self::area_of(&found[0]);
        let mut i: usize = 1;
        while i < found.len()
            invariant
                1 <= i <= found@.len(),
                best < i,
                best_area == box_area(found@[best as int]),
                forall|k: int| 0 <= k < i ==> box_area(#[trigger] found@[k]) <= best_area,
                forall|k: int| 0 <= k < best ==> box_area(#[trigger] found@[k]) < best_area,
                image.width <= i32::MAX,
                image.height <= i32::MAX,
                forall|k: int|
                    0 <= k < found@.len() ==> (#[trigger] found@[k]).min_x <= found@[k].max_x
                        < image.width && found@[k].min_y <= found@[k].max_y < image.height,
            decreases found@.len() - i,
        {
            let area: u128 = Self::area_of(&found[i]);
            if area > best_area {
                best_area = area;
                best = i;
            }
            i = i + 1;
        }
        let r = found[best];
        let bounds = to_rect(&r);
        let e = DetectedElement {
            element_type: ElementType::Joystick,
            bounds,
            confidence_percent: 80,
            extra_data: None,
        };
        proof {
            let rs = regions_found(
                *image,
                PixelTest::Stick,
                lower_left(image.width, image.height),
                stick_rule(),
            );
            assert(found@ == rs);
            assert(is_first_largest(rs, best as int));
            assert(e == element_of(rs[best as int], ElementType::Joystick, 80));
        }
        Some(e)
    }

    fn area_of(r: &Region) -> (a: u128)
        requires
            r.min_x <= r.max_x < i32::MAX,
            r.min_y <= r.max_y < i32::MAX,
        ensures
            a == box_area(*r),
    {
        let sx: u128 = (r.max_x - r.min_x) as u128 + 1;
        let sy: u128 = (r.max_y - r.min_y) as u128 + 1;
        assert(sx * sy <= 0x8000_0000 * 0x8000_0000) by (nonlinear_arith)
            requires
                0 <= sx <= 0x8000_0000,
                0 <= sy <= 0x8000_0000,
        ;
        sx * sy
    }

    /// Finds what changed between two images of the same size: the bounding
    /// boxes of the components of positions whose colours differ by more
    /// than `threshold`, keeping those more than 10 wide and more than 10
    /// high. Images of different sizes give nothing.
    pub fn find_differences(image1: &ImageData, image2: &ImageData, threshold: u32) -> (out: Vec<
        Rect,
    >)
        requires
            image1.wf(),
            image2.wf(),
            image1.width <= i32::MAX,
            image1.height <= i32::MAX,
        ensures
            image1.width != image2.width || image1.height != image2.height ==> out@.len() == 0,
            image1.width == image2.width && image1.height == image2.height ==> out@ == Seq::new(
                changes(*image1, *image2, threshold).len(),
                |i: int| rect_of(changes(*image1, *image2, threshold)[i]),
            ),
            forall|i: int|
                0 <= i < out@.len() ==> rect_in_image(
                    #[trigger] out@[i],
                    image1.width as int,
                    image1.height as int,
                ),
    {
        if image1.width != image2.width || image1.height != image2.height {
            return Vec::new();
        }
        let count: usize = image1.pixels.len();
        let mut places: Vec<usize> = Vec::new();
        let mut i: usize = 0;
        while i < count
            invariant
                i <= count,
                places@.len() == i,
                forall|j: int| 0 <= j < i ==> places@[j] == j,
            decreases count - i,
        {
            places.push(i);
            i = i + 1;
        }
        let differs = |at: &usize| -> (b: bool)
            requires
                *at < image1.pixels@.len(),
                *at < image2.pixels@.len(),
            ensures
                b == (rgb_distance_sq(image1.pixels@[*at as int], image2.pixels@[*at as int])
                    > threshold * threshold),
            { !image1.pixels[*at].matches(&image2.pixels[*at], threshold) };
        let mask = par_map(&places, differs);
        proof {
            assert(mask@ =~= change_mask(image1.pixels@, image2.pixels@, threshold as int));
        }
        let rule = ShapeRule::Patch { min_side: 10 };
        let win = Window { x_lo: 0, x_hi: image1.width, y_lo: 0, y_hi: image1.height };
        let found = find_regions(&mask, image1.width, image1.height, win, rule);
        let mut out: Vec<Rect> = Vec::new();
        let mut k: usize = 0;
        while k < found.len()
            invariant
                k <= found@.len(),
                out@.len() == k,
                image1.width <= i32::MAX,
                image1.height <= i32::MAX,
                forall|j: int|
                    0 <= j < found@.len() ==> (#[trigger] found@[j]).min_x <= found@[j].max_x
                        < image1.width && found@[j].min_y <= found@[j].max_y < image1.height,
                forall|j: int| 0 <= j < k ==> out@[j] == rect_of(found@[j]),
            decreases found@.len() - k,
        {
            out.push(to_rect(&found[k]));
            k = k + 1;
        }
        proof {
            assert(found@ == changes(*image1, *image2, threshold));
            assert(out@ =~= Seq::new(found@.len(), |i: int| rect_of(found@[i])));
        }
        out
    }
}

/// The components of changed positions between two images of one size that
/// are more than 10 wide and more than 10 high.
pub open spec fn changes(a: ImageData, b: ImageData, threshold: u32) -> Seq<Region> {
    accepted(
        components(
            change_mask(a.pixels@, b.pixels@, threshold as int),
            a.width as int,
            a.height as int,
            whole(a.width, a.height),
        ),
        change_rule(),
    )
}


/// The colour bucket of a board cell's pixel: 0 for a dark pixel (value
/// below 0.2), otherwise 1 to 7 by hue: red (below 30 or from 330 degrees),
/// orange (below 60), yellow (below 90), green (below 150), cyan (below
/// 210), blue (below 270), purple.
pub open spec fn bucket_of(c: Rgb) -> u8 {
    let v = hsv_of(c);
    if v.val_below(2) {
        0
    } else if v.hue_below(30) || !v.hue_below(330) {
        1
    } else if v.hue_below(60) {
        2
    } else if v.hue_below(90) {
        3
    } else if v.hue_below(150) {
        4
    } else if v.hue_below(210) {
        5
    } else if v.hue_below(270) {
        6
    } else {
        7
    }
}

/// The bucket of sample `k` of the ten by ten window centred on `(cx, cy)`,
/// if the sample lies in the image.
pub open spec fn sample_bucket(image: ImageData, cx: int, cy: int, k: int) -> Option<u8> {
    match image.pixel_at(cx + k % 10 - 5, cy + k / 10 - 5) {
        Some(p) => Some(bucket_of(p)),
        None => None,
    }
}

/// How many of the first `n` samples fall into `bucket`.
pub open spec fn tally(image: ImageData, cx: int, cy: int, bucket: u8, n: int) -> int
    decreases n,
{
    if n <= 0 {
        0
    } else {
        tally(image, cx, cy, bucket, n - 1) + if sample_bucket(image, cx, cy, n - 1) == Some(
            bucket,
        ) {
            1int
        } else {
            0int
        }
    }
}

/// `b` is the bucket most of the hundred samples fall into, the lowest such
/// bucket if there are several. Without any sample in the image it is 0.
pub open spec fn is_modal(image: ImageData, cx: int, cy: int, b: u8) -> bool {
    &&& b < 8
    &&& forall|o: u8| o < 8 ==> #[trigger] tally(image, cx, cy, o, 100) <= tally(image, cx, cy, b, 100)
    &&& forall|o: u8| o < b ==> #[trigger] tally(image, cx, cy, o, 100) < tally(image, cx, cy, b, 100)
}

/// Centre of the cell in row `r` and column `c` of a grid that divides
/// `bounds` into `rows` by `cols` cells, cell sizes rounded down.
pub open spec fn cell_centre(bounds: Rect, rows: int, cols: int, r: int, c: int) -> (int, int) {
    let cw = bounds.width as int / cols;
    let ch = bounds.height as int / rows;
    (bounds.x + c * cw + cw / 2, bounds.y + r * ch + ch / 2)
}

proof fn lemma_tally_bound(image: ImageData, cx: int, cy: int, bucket: u8, n: int)
    ensures
        0 <= tally(image, cx, cy, bucket, n),
        n >= 0 ==> tally(image, cx, cy, bucket, n) <= n,
    decreases n,
{
    if n > 0 {
        lemma_tally_bound(image, cx, cy, bucket, n - 1);
    }
}

impl ImageEngine {
    /// Sorts a pixel of a board cell into one of eight colour buckets.
    pub fn classify_chess_color(rgb: &Rgb) -> (b: u8)
        ensures
            b == bucket_of(*rgb),
            b < 8,
    {
        let v = rgb.to_hsv();
        if v.val_lt(2) {
            0
        } else if v.hue_lt(30) || !v.hue_lt(330) {
            1
        } else if v.hue_lt(60) {
            2
        } else if v.hue_lt(90) {
            3
        } else if v.hue_lt(150) {
            4
        } else if v.hue_lt(210) {
            5
        } else if v.hue_lt(270) {
            6
        } else {
            7
        }
    }

    /// The modal bucket of the window centred on `(cx, cy)`.
    fn sample_cell(image: &ImageData, cx: i128, cy: i128) -> (b: u8)
        requires
            -0x10_0000_0000_0000_0000_0000_0000 <= cx <= 0x10_0000_0000_0000_0000_0000_0000,
            -0x10_0000_0000_0000_0000_0000_0000 <= cy <= 0x10_0000_0000_0000_0000_0000_0000,
        ensures
            is_modal(*image, cx as int, cy as int, b),
    {
        let mut counts: Vec<usize> = Vec::new();
        let mut o: usize = 0;
        while o < 8
            invariant
                o <= 8,
                counts@.len() == o,
                forall|j: int| 0 <= j < o ==> counts@[j] == 0,
            decreases 8 - o,
        {
            counts.push(0);
            o = o + 1;
        }
        let mut k: usize = 0;
        while k < 100
            invariant
                k <= 100,
                counts@.len() == 8,
                -0x10_0000_0000_0000_0000_0000_0000 <= cx <= 0x10_0000_0000_0000_0000_0000_0000,
                -0x10_0000_0000_0000_0000_0000_0000 <= cy <= 0x10_0000_0000_0000_0000_0000_0000,
                forall|j: u8|
                    j < 8 ==> counts@[j as int] == #[trigger] tally(
                        *image,
                        cx as int,
                        cy as int,
                        j,
                        k as int,
                    ),
            decreases 100 - k,
        {
            let px: i128 = cx + (k % 10) as i128 - 5;
            let py: i128 = cy + (k / 10) as i128 - 5;
            let mut seen: Option<u8> = None;
            if px >= 0 && px < image.width as i128 && py >= 0 && py < image.height as i128 {
                match image.get_pixel(px as usize, py as usize) {
                    Some(p) => {
                        seen = Some(Self::classify_chess_color(p));
                    },
                    None => {},
                }
            }
            assert(seen == sample_bucket(*image, cx as int, cy as int, k as int));
            let ghost before = counts@;
            match seen {
                Some(b) => {
                    proof {
                        lemma_tally_bound(*image, cx as int, cy as int, b, k as int);
                        assert(before[b as int] == tally(*image, cx as int, cy as int, b, k as int));
                    }
                    let old_count: usize = counts[b as usize];
                    counts.set(b as usize, old_count + 1);
                },
                None => {},
            }
            proof {
                assert forall|j: u8| j < 8 implies counts@[j as int] == #[trigger] tally(
                    *image,
                    cx as int,
                    cy as int,
                    j,
                    k + 1,
                ) by {
                    assert(before[j as int] == tally(*image, cx as int, cy as int, j, k as int));
                }
            }
            k = k + 1;
        }
        let mut best: u8 = 0;
        let mut j: u8 = 1;
        while j < 8
            invariant
                1 <= j <= 8,
                best < j,
                counts@.len() == 8,
                forall|o: u8| o < j ==> counts@[o as int] <= counts@[best as int],
                forall|o: u8| o < best ==> counts@[o as int] < counts@[best as int],
            decreases 8 - j,
        {
            if counts[j as usize] > counts[best as usize] {
                best = j;
            }
            j = j + 1;
        }
        best
    }

    /// Reads a match-3 board off an image: divides `grid_bounds` into `rows`
    /// by `cols` cells and gives each cell the colour bucket that most of
    /// the pixels in a ten by ten window at its centre fall into. Samples
    /// outside the image do not count.
    pub fn analyze_eliminate_board(
        image: &ImageData,
        grid_bounds: &Rect,
        rows: usize,
        cols: usize,
    ) -> (board: Vec<Vec<u8>>)
        requires
            rows > 0,
            cols > 0,
            grid_bounds.wf(),
        ensures
            board@.len() == rows,
            forall|r: int| 0 <= r < rows ==> (#[trigger] board@[r])@.len() == cols,
            forall|r: int, c: int|
                0 <= r < rows && 0 <= c < cols ==> is_modal(
                    *image,
                    cell_centre(*grid_bounds, rows as int, cols as int, r, c).0,
                    cell_centre(*grid_bounds, rows as int, cols as int, r, c).1,
                    #[trigger] board@[r]@[c],
                ),
    {
        let cw: u128 = (grid_bounds.width as u128) / (cols as u128);
        let ch: u128 = (grid_bounds.height as u128) / (rows as u128);
        let mut board: Vec<Vec<u8>> = Vec::new();
        let mut r: usize = 0;
        while r < rows
            invariant
                r <= rows,
                rows > 0,
                cols > 0,
                grid_bounds.wf(),
                cw == grid_bounds.width as int / cols as int,
                ch == grid_bounds.height as int / rows as int,
                board@.len() == r,
                forall|i: int| 0 <= i < r ==> (#[trigger] board@[i])@.len() == cols,
                forall|i: int, c: int|
                    0 <= i < r && 0 <= c < cols ==> is_modal(
                        *image,
                        cell_centre(*grid_bounds, rows as int, cols as int, i, c).0,
                        cell_centre(*grid_bounds, rows as int, cols as int, i, c).1,
                        #[trigger] board@[i]@[c],
                    ),
            decreases rows - r,
        {
            let mut centres: Vec<(i128, i128)> = Vec::new();
            let mut c: usize = 0;
            while c < cols
                invariant
                    c <= cols,
                    r < rows,
                    rows > 0,
                    cols > 0,
                    grid_bounds.wf(),
                    cw == grid_bounds.width as int / cols as int,
                    ch == grid_bounds.height as int / rows as int,
                    centres@.len() == c,
                    forall|j: int|
                        0 <= j < c ==> (#[trigger] centres@[j]).0 == cell_centre(
                            *grid_bounds,
                            rows as int,
                            cols as int,
                            r as int,
                            j,
                        ).0 && centres@[j].1 == cell_centre(
                            *grid_bounds,
                            rows as int,
                            cols as int,
                            r as int,
                            j,
                        ).1 && -0x10_0000_0000_0000_0000_0000_0000 <= centres@[j].0
                            <= 0x10_0000_0000_0000_0000_0000_0000
                            && -0x10_0000_0000_0000_0000_0000_0000 <= centres@[j].1
                            <= 0x10_0000_0000_0000_0000_0000_0000,
                decreases cols - c,
            {
                assert(cw <= 0x7fff_ffff && ch <= 0x7fff_ffff);
                assert(c * cw <= 0xffff_ffff_ffff_ffff * 0x7fff_ffff) by (nonlinear_arith)
                    requires
                        0 <= c <= 0xffff_ffff_ffff_ffff,
                        0 <= cw <= 0x7fff_ffff,
                ;
                assert(r * ch <= 0xffff_ffff_ffff_ffff * 0x7fff_ffff) by (nonlinear_arith)
                    requires
                        0 <= r <= 0xffff_ffff_ffff_ffff,
                        0 <= ch <= 0x7fff_ffff,
                ;
                assert(0 <= c * cw && 0 <= r * ch) by (nonlinear_arith)
                    requires
                        0 <= c,
                        0 <= cw,
                        0 <= r,
                        0 <= ch,
                ;
                let cx: i128 = grid_bounds.x as i128 + ((c as u128) * cw) as i128 + (cw / 2) as i128;
                let cy: i128 = grid_bounds.y as i128 + ((r as u128) * ch) as i128 + (ch / 2) as i128;
                centres.push((cx, cy));
                c = c + 1;
            }
            let sample = |at: &(i128, i128)| -> (b: u8)
                requires
                    -0x10_0000_0000_0000_0000_0000_0000 <= at.0 <= 0x10_0000_0000_0000_0000_0000_0000,
                    -0x10_0000_0000_0000_0000_0000_0000 <= at.1 <= 0x10_0000_0000_0000_0000_0000_0000,
                ensures
                    is_modal(*image, at.0 as int, at.1 as int, b),
                { Self::sample_cell(image, at.0, at.1) };
            let row = par_map(&centres, sample);
            proof {
                assert forall|j: int| 0 <= j < cols implies is_modal(
                    *image,
                    cell_centre(*grid_bounds, rows as int, cols as int, r as int, j).0,
                    cell_centre(*grid_bounds, rows as int, cols as int, r as int, j).1,
                    #[trigger] row@[j],
                ) by {
                    assert(centres@[j].0 == cell_centre(
                        *grid_bounds,
                        rows as int,
                        cols as int,
                        r as int,
                        j,
                    ).0);
                }
            }
            board.push(row);
            r = r + 1;
        }
        board
    }
}

} // verus!
