//! Images, rectangles and the elements detected in an image.

use crate::color::Rgb;
use vstd::prelude::*;

verus! {

/// An axis-aligned rectangle with its origin at the top left.
#[derive(Debug, Clone, Copy, PartialEq, Eq, Hash, Structural)]
pub struct Rect {
    pub x: i32,
    pub y: i32,
    pub width: i32,
    pub height: i32,
}

impl Rect {
    /// Width and height are not negative.
    pub open spec fn wf(self) -> bool {
        self.width >= 0 && self.height >= 0
    }

    /// The point `(px, py)` lies inside: on or after the origin, and before
    /// the far edges.
    pub open spec fn covers(self, px: int, py: int) -> bool {
        self.x <= px < self.x + self.width && self.y <= py < self.y + self.height
    }

    /// The rectangle with the given origin and size.
    pub fn new(x: i32, y: i32, width: i32, height: i32) -> (r: Rect)
        ensures
            r == (Rect { x, y, width, height }),
    {
        Rect { x, y, width, height }
    }

    /// Horizontal centre, rounded down.
    pub fn center_x(&self) -> (c: i32)
        requires
            self.width >= 0,
            self.x + self.width / 2 <= i32::MAX,
        ensures
            c == self.x + self.width / 2,
    {
        self.x + self.width / 2
    }

    /// Vertical centre, rounded down.
    pub fn center_y(&self) -> (c: i32)
        requires
            self.height >= 0,
            self.y + self.height / 2 <= i32::MAX,
        ensures
            c == self.y + self.height / 2,
    {
        self.y + self.height / 2
    }

    /// Whether the point lies inside the rectangle.
    pub fn contains(&self, px: i32, py: i32) -> (b: bool)
        ensures
            b == self.covers(px as int, py as int),
    {
        let x: i64 = self.x as i64;
        let y: i64 = self.y as i64;
        let px: i64 = px as i64;
        let py: i64 = py as i64;
        px >= x && px < x + self.width as i64 && py >= y && py < y + self.height as i64
    }

    /// Width times height.
    pub fn area(&self) -> (a: i32)
        requires
            i32::MIN <= self.width * self.height <= i32::MAX,
        ensures
            a == self.width * self.height,
    {
        self.width * self.height
    }
}

/// Kinds of element a detector can report.
#[derive(Debug, Clone, Copy, PartialEq, Eq, Structural)]
pub enum ElementType {
    HealthBarEnemy,
    HealthBarAlly,
    HealthBarSelf,
    SkillButton,
    Joystick,
    EliminateChess,
    Button,
    TextArea,
    Unknown,
}

/// An element found in an image. The confidence is held in hundredths, so 85
/// stands for 0.85.
#[derive(Debug, Clone)]
pub struct DetectedElement {
    pub element_type: ElementType,
    pub bounds: Rect,
    pub confidence_percent: u8,
    pub extra_data: Option<String>,
}

/// A row-major image: the pixel at column `x` of row `y` is
/// `pixels[y * width + x]`.
pub struct ImageData {
    pub width: usize,
    pub height: usize,
    pub pixels: Vec<Rgb>,
}

impl ImageData {
    /// There is one pixel for each position.
    pub open spec fn wf(self) -> bool {
        self.pixels@.len() == self.width * self.height
    }

    /// The pixel at `(x, y)`, if the position lies in the image and the
    /// pixel sequence reaches that far.
    pub open spec fn pixel_at(self, x: int, y: int) -> Option<Rgb> {
        if 0 <= x < self.width && 0 <= y < self.height && y * self.width + x < self.pixels@.len() {
            Some(self.pixels@[y * self.width + x])
        } else {
            None
        }
    }

    /// Builds an image from groups of four bytes, alpha first; the alpha byte
    /// is dropped and bytes after the last whole group are ignored.
    pub fn from_argb_bytes(data: &[u8], width: usize, height: usize) -> (img: ImageData)
        ensures
            img.width == width,
            img.height == height,
            img.pixels@.len() == data@.len() / 4,
            forall|i: int|
                0 <= i < img.pixels@.len() ==> #[trigger] img.pixels@[i] == (Rgb {
                    r: data@[4 * i + 1],
                    g: data@[4 * i + 2],
                    b: data@[4 * i + 3],
                }),
    {
        let len: usize = data.len();
        let n: usize = len / 4;
        let mut pixels: Vec<Rgb> = Vec::new();
        let mut i: usize = 0;
        while i < n
            invariant
                i <= n,
                len == data@.len(),
                n == len / 4,
                pixels@.len() == i,
                forall|j: int|
                    0 <= j < i ==> #[trigger] pixels@[j] == (Rgb {
                        r: data@[4 * j + 1],
                        g: data@[4 * j + 2],
                        b: data@[4 * j + 3],
                    }),
            decreases n - i,
        {
            pixels.push(Rgb::new(data[4 * i + 1], data[4 * i + 2], data[4 * i + 3]));
            i = i + 1;
        }
        ImageData { width, height, pixels }
    }

    /// Builds an image from groups of three bytes, red first; bytes after the
    /// last whole group are ignored.
    pub fn from_rgb_bytes(data: &[u8], width: usize, height: usize) -> (img: ImageData)
        ensures
            img.width == width,
            img.height == height,
            img.pixels@.len() == data@.len() / 3,
            forall|i: int|
                0 <= i < img.pixels@.len() ==> #[trigger] img.pixels@[i] == (Rgb {
                    r: data@[3 * i],
                    g: data@[3 * i + 1],
                    b: data@[3 * i + 2],
                }),
    {
        let len: usize = data.len();
        let n: usize = len / 3;
        let mut pixels: Vec<Rgb> = Vec::new();
        let mut i: usize = 0;
        while i < n
            invariant
                i <= n,
                len == data@.len(),
                n == len / 3,
                pixels@.len() == i,
                forall|j: int|
                    0 <= j < i ==> #[trigger] pixels@[j] == (Rgb {
                        r: data@[3 * j],
                        g: data@[3 * j + 1],
                        b: data@[3 * j + 2],
                    }),
            decreases n - i,
        {
            pixels.push(Rgb::new(data[3 * i], data[3 * i + 1], data[3 * i + 2]));
            i = i + 1;
        }
        ImageData { width, height, pixels }
    }

    /// The pixel at `(x, y)`, or nothing when the position lies outside the
    /// image.
    pub fn get_pixel(&self, x: usize, y: usize) -> (p: Option<&Rgb>)
        ensures
            match p {
                Some(c) => self.pixel_at(x as int, y as int) == Some(*c),
                None => self.pixel_at(x as int, y as int).is_none(),
            },
    {
        if x < self.width && y < self.height {
            assert(0 <= y * self.width <= 0xffff_ffff_ffff_ffff * 0xffff_ffff_ffff_ffff)
                by (nonlinear_arith)
                requires
                    0 <= y <= 0xffff_ffff_ffff_ffff,
                    0 <= self.width <= 0xffff_ffff_ffff_ffff,
            ;
            let idx: u128 = (y as u128) * (self.width as u128) + (x as u128);
            if idx < self.pixels.len() as u128 {
                Some(&self.pixels[idx as usize])
            } else {
                None
            }
        } else {
            None
        }
    }

    /// The pixel at `(x, y)`, for a position known to lie in the image.
    pub fn get_pixel_unchecked(&self, x: usize, y: usize) -> (p: &Rgb)
        requires
            y * self.width + x < self.pixels@.len(),
        ensures
            *p == self.pixels@[y * self.width + x],
    {
        let len: usize = self.pixels.len();
        assert(0 <= y * self.width) by (nonlinear_arith)
            requires
                0 <= y,
                0 <= self.width,
        ;
        assert(y * self.width + x < len);
        &self.pixels[y * self.width + x]
    }
}

} // verus!
