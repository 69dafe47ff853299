use vstd::prelude::*;

verus! {

/// An RGB color, eight bits per channel.
#[derive(Clone, Copy, Debug, PartialEq, Eq, Structural)]
pub struct Rgb {
    pub r: u8,
    pub g: u8,
    pub b: u8,
}

/// A rectangular pixel buffer, row by row.
#[derive(Clone, Debug)]
pub struct Canvas {
    pub width: u32,
    pub height: u32,
    pub pixels: Vec<Rgb>,
}

impl Canvas {
    /// One pixel per position of the rectangle.
    pub open spec fn wf(&self) -> bool {
        self.pixels@.len() == self.width * self.height
    }

    pub open spec fn pixel(&self, x: int, y: int) -> Rgb {
        self.pixels@[y * self.width + x]
    }

    pub open spec fn in_bounds(&self, x: int, y: int) -> bool {
        0 <= x < self.width && 0 <= y < self.height
    }

    /// A canvas of the given size painted with `fill`.
    pub fn new(width: u32, height: u32, fill: Rgb) -> (r: Canvas)
        requires
            width * height <= usize::MAX,
        ensures
            r.wf(),
            r.width == width,
            r.height == height,
            forall|x: int, y: int| r.in_bounds(x, y) ==> r.pixel(x, y) == fill,
    {
        let n: usize = width as usize * height as usize;
        let mut pixels: Vec<Rgb> = Vec::with_capacity(n);
        let mut i: usize = 0;
        while i < n
            invariant
                i <= n,
                pixels@.len() == i,
                forall|k: int| 0 <= k < i ==> pixels@[k] == fill,
            decreases n - i,
        {
            pixels.push(fill);
            i = i + 1;
        }
        let r = Canvas { width, height, pixels };
        proof {
            assert forall|x: int, y: int| r.in_bounds(x, y) implies r.pixel(x, y) == fill by {
                lemma_index_in_bounds(x, y, width as int, height as int);
            }
        }
        r
    }

    /// The color at column `x`, row `y`.
    pub fn get_pixel(&self, x: u32, y: u32) -> (r: Rgb)
        requires
            self.wf(),
            x < self.width,
            y < self.height,
        ensures
            r == self.pixel(x as int, y as int),
    {
        let _n = self.pixels.len();
        proof {
            lemma_index_in_bounds(x as int, y as int, self.width as int, self.height as int);
        }
        self.pixels[y as usize * self.width as usize + x as usize]
    }

    /// Sets the color at column `x`, row `y`, and nothing else.
    pub fn put_pixel(&mut self, x: u32, y: u32, c: Rgb)
        requires
            old(self).wf(),
            x < old(self).width,
            y < old(self).height,
        ensures
            final(self).wf(),
            final(self).width == old(self).width,
            final(self).height == old(self).height,
            forall|px: int, py: int| #![trigger final(self).pixel(px, py)]
                old(self).in_bounds(px, py) ==> final(self).pixel(px, py) == if px == x && py == y {
                    c
                } else {
                    old(self).pixel(px, py)
                },
    {
        let _n = self.pixels.len();
        proof {
            lemma_index_in_bounds(x as int, y as int, self.width as int, self.height as int);
        }
        let idx = y as usize * self.width as usize + x as usize;
        self.pixels.set(idx, c);
        proof {
            assert forall|px: int, py: int| #![trigger self.pixel(px, py)]
                old(self).in_bounds(px, py) implies self.pixel(px, py) == if px == x && py == y {
                    c
                } else {
                    old(self).pixel(px, py)
                } by {
                lemma_index_in_bounds(px, py, self.width as int, self.height as int);
                lemma_index_unique(px, py, x as int, y as int, self.width as int);
            }
        }
    }
}

proof fn lemma_index_in_bounds(x: int, y: int, w: int, h: int)
    requires
        0 <= x < w,
        0 <= y < h,
    ensures
        0 <= y * w <= y * w + x < w * h,
{
    assert(0 <= y * w <= y * w + x < w * h) by (nonlinear_arith)
        requires 0 <= x < w, 0 <= y < h;
}

proof fn lemma_index_unique(x1: int, y1: int, x2: int, y2: int, w: int)
    requires
        0 <= x1 < w,
        0 <= x2 < w,
        0 <= y1,
        0 <= y2,
    ensures
        y1 * w + x1 == y2 * w + x2 ==> x1 == x2 && y1 == y2,
{
    if y1 * w + x1 == y2 * w + x2 {
        vstd::arithmetic::div_mod::lemma_fundamental_div_mod_converse(y1 * w + x1, w, y1, x1);
        vstd::arithmetic::div_mod::lemma_fundamental_div_mod_converse(y2 * w + x2, w, y2, x2);
    }
}

} // verus!
