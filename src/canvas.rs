//! A rectangular pixel buffer that ignores writes outside its bounds.

use vstd::prelude::*;

verus! {

/// A `width` by `height` grid of pixel values, stored row by row with the
/// origin at the top left.
pub struct Canvas<C> {
    pub width: u32,
    pub height: u32,
    pub pixels: Vec<Vec<C>>,
}

impl<C: Copy> Canvas<C> {
    /// Every row holds `width` pixels and there are `height` rows.
    pub open spec fn wf(&self) -> bool {
        &&& self.pixels@.len() == self.height
        &&& forall|y: int| 0 <= y < self.height ==> (#[trigger] self.pixels@[y])@.len() == self.width
    }

    /// The pixel at column `x` of row `y`.
    pub open spec fn at(&self, x: int, y: int) -> C {
        self.pixels@[y]@[x]
    }

    /// A canvas with every pixel set to `blank`.
    pub fn new(width: u32, height: u32, blank: C) -> (r: Canvas<C>)
        ensures
            r.wf(),
            r.width == width,
            r.height == height,
            forall|x: int, y: int| 0 <= x < width && 0 <= y < height ==> r.at(x, y) == blank,
    {
        let mut pixels: Vec<Vec<C>> = Vec::new();
        let mut y: u32 = 0;
        while y < height
            invariant
                y <= height,
                pixels@.len() == y,
                forall|j: int| 0 <= j < y ==> (#[trigger] pixels@[j])@.len() == width,
                forall|j: int, x: int| 0 <= j < y && 0 <= x < width ==> pixels@[j]@[x] == blank,
            decreases height - y,
        {
            let mut row: Vec<C> = Vec::new();
            let mut x: u32 = 0;
            while x < width
                invariant
                    x <= width,
                    row@.len() == x,
                    forall|i: int| 0 <= i < x ==> row@[i] == blank,
                decreases width - x,
            {
                row.push(blank);
                x = x + 1;
            }
            pixels.push(row);
            y = y + 1;
        }
        Canvas { width, height, pixels }
    }

    /// Sets the pixel at column `x` of row `y`; a position outside the
    /// canvas is ignored.
    pub fn write_pixel(&mut self, x: u32, y: u32, color: &C)
        requires
            old(self).wf(),
        ensures
            final(self).wf(),
            final(self).width == old(self).width,
            final(self).height == old(self).height,
            forall|i: int, j: int| 0 <= i < old(self).width && 0 <= j < old(self).height ==>
                #[trigger] final(self).at(i, j) == if i == x && j == y {
                    *color
                } else {
                    old(self).at(i, j)
                },
    {
        if x >= self.width || y >= self.height {
            return;
        }
        let mut rows: Vec<Vec<C>> = Vec::new();
        std::mem::swap(&mut rows, &mut self.pixels);
        let mut row = rows.remove(y as usize);
        row.set(x as usize, *color);
        rows.insert(y as usize, row);
        self.pixels = rows;
        proof {
            assert forall|j: int| 0 <= j < self.height && j != y implies #[trigger] self.pixels@[j] == old(self).pixels@[j] by {}
        }
    }

    /// The pixel at column `x` of row `y`.
    pub fn pixel_at(&self, x: u32, y: u32) -> (r: C)
        requires
            self.wf(),
            x < self.width,
            y < self.height,
        ensures
            r == self.at(x as int, y as int),
    {
        self.pixels[y as usize][x as usize]
    }
}

} // verus!
