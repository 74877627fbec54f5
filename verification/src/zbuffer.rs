use vstd::prelude::*;

verus! {

/// A depth buffer: one scalar per pixel of a `width` x `height` grid,
/// row-major, created fresh for a rendering pass.  Cells start at the
/// minimum representable depth, so any real depth wins the first test.
#[derive(PartialEq, Eq, Clone, Debug)]
pub struct ZBuffer {
    pub data: Vec<i32>,
    pub width: usize,
    pub height: usize,
}

impl ZBuffer {
    /// Structural invariant: one cell for every pixel of the grid.
    pub open spec fn wf(&self) -> bool {
        self.data@.len() == self.width * self.height
    }

    /// The depth stored at (x, y).
    pub open spec fn at(&self, x: int, y: int) -> i32 {
        self.data@[x + y * self.width]
    }

    /// A fresh buffer with every cell at the minimum depth.
    pub fn new(w: usize, h: usize) -> (z: ZBuffer)
        requires
            w * h <= usize::MAX,
        ensures
            z.wf(),
            z.width == w,
            z.height == h,
            forall|x: int, y: int|
                0 <= x < w && 0 <= y < h ==> #[trigger] z.at(x, y) == i32::MIN,
    {
        let n = w * h;
        let data = vec![i32::MIN; n];
        let z = ZBuffer { data: data, width: w, height: h };
        proof {
            assert forall|x: int, y: int| 0 <= x < w && 0 <= y < h implies #[trigger] z.at(x, y)
                == i32::MIN by {
                z.lemma_cell_in_range(x, y);
            }
        }
        z
    }

    /// Cell (x, y) of an in-range coordinate pair lies inside the array.
    pub proof fn lemma_cell_in_range(&self, x: int, y: int)
        requires
            self.wf(),
            0 <= x < self.width,
            0 <= y < self.height,
        ensures
            0 <= x + y * self.width < self.data@.len(),
    {
        assert(x + y * (self.width as int) < self.width * self.height) by (nonlinear_arith)
            requires
                0 <= x < self.width,
                0 <= y < self.height,
        ;
        assert(0 <= x + y * (self.width as int)) by (nonlinear_arith)
            requires
                0 <= x,
                0 <= y,
        ;
    }

    /// The depth at (x, y); the caller supplies in-range coordinates.
    pub fn val(&self, x: usize, y: usize) -> (d: i32)
        requires
            self.wf(),
            x < self.width,
            y < self.height,
        ensures
            d == self.at(x as int, y as int),
    {
        proof {
            self.lemma_cell_in_range(x as int, y as int);
        }
        // the length, as a machine word, bounds the index arithmetic
        let n = self.data.len();
        self.data[x + y * self.width]
    }

    /// Overwrite the depth at (x, y); no other cell changes.
    pub fn set_val(&mut self, x: usize, y: usize, d: i32)
        requires
            old(self).wf(),
            x < old(self).width,
            y < old(self).height,
        ensures
            final(self).wf(),
            final(self).width == old(self).width,
            final(self).height == old(self).height,
            final(self).at(x as int, y as int) == d,
            forall|i: int, j: int|
                0 <= i < old(self).width && 0 <= j < old(self).height && !(i == x && j == y)
                    ==> #[trigger] final(self).at(i, j) == old(self).at(i, j),
    {
        proof {
            self.lemma_cell_in_range(x as int, y as int);
        }
        // the length, as a machine word, bounds the index arithmetic
        let n = self.data.len();
        let idx = x + y * self.width;
        self.data.set(idx, d);
        proof {
            assert forall|i: int, j: int|
                0 <= i < self.width && 0 <= j < self.height && !(i == x && j == y)
                    implies #[trigger] self.at(i, j) == old(self).at(i, j) by {
                self.lemma_cell_in_range(i, j);
                if i + j * self.width == x + y * self.width {
                    crate::image::lemma_index_decompose(
                        i + j * self.width,
                        self.width as int,
                        self.height as int,
                    );
                    crate::image::lemma_index_decompose(
                        x + y * self.width,
                        self.width as int,
                        self.height as int,
                    );
                    vstd::arithmetic::div_mod::lemma_fundamental_div_mod_converse_div(
                        i + j * self.width,
                        self.width as int,
                        j,
                        i,
                    );
                    vstd::arithmetic::div_mod::lemma_fundamental_div_mod_converse_div(
                        x + y * self.width,
                        self.width as int,
                        y as int,
                        x as int,
                    );
                    vstd::arithmetic::div_mod::lemma_fundamental_div_mod_converse_mod(
                        i + j * self.width,
                        self.width as int,
                        j,
                        i,
                    );
                    vstd::arithmetic::div_mod::lemma_fundamental_div_mod_converse_mod(
                        x + y * self.width,
                        self.width as int,
                        y as int,
                        x as int,
                    );
                }
            }
        }
    }
}

} // verus!
