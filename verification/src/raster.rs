//! The raster of an image and the order in which its pixels are visited:
//! row by row from the top, each row from the left.

use vstd::arithmetic::div_mod::{
    lemma_fundamental_div_mod, lemma_fundamental_div_mod_converse, lemma_mod_bound,
};
use vstd::prelude::*;

verus! {

/// The place of a pixel: its column, counted from the left, and its row,
/// counted from the top.
#[derive(Clone, Copy, Debug, PartialEq, Eq, Structural)]
pub struct Pixel {
    pub col: i32,
    pub row: i32,
}

/// The size of an image in pixels. A raster has at least one row; with a
/// width below one it holds no pixel.
#[derive(Clone, Copy, Debug)]
pub struct Raster {
    width: i32,
    height: i32,
}

impl Raster {
    /// The number of columns.
    pub closed spec fn cols(self) -> int {
        self.width as int
    }

    /// The number of rows.
    pub closed spec fn rows(self) -> int {
        self.height as int
    }

    /// What holds of every raster that `new` makes.
    pub open spec fn wf(self) -> bool {
        self.rows() >= 1
    }

    /// The number of pixels.
    pub open spec fn pixel_count(self) -> nat {
        if self.cols() > 0 && self.rows() > 0 {
            (self.cols() * self.rows()) as nat
        } else {
            0
        }
    }

    /// Whether `p` lies inside the raster.
    pub open spec fn contains(self, p: Pixel) -> bool {
        0 <= p.col < self.cols() && 0 <= p.row < self.rows()
    }

    /// How many pixels are visited before `p`.
    pub open spec fn index_of(self, p: Pixel) -> int {
        p.row * self.cols() + p.col
    }

    /// The pixel visited after `k` others.
    pub open spec fn pixel_at(self, k: int) -> Pixel {
        Pixel { col: (k % self.cols()) as i32, row: (k / self.cols()) as i32 }
    }

    /// A raster `image_width` pixels wide and `rows` pixels high, or one
    /// pixel high where `rows` is below one.
    pub fn new(image_width: i32, rows: i32) -> (raster: Raster)
        ensures
            raster.cols() == image_width,
            raster.rows() == if rows < 1 { 1 } else { rows as int },
            raster.wf(),
    {
        let height: i32 = if rows < 1 { 1 } else { rows };
        Raster { width: image_width, height }
    }

    /// The number of columns.
    pub fn image_width(&self) -> (width: i32)
        ensures
            width == self.cols(),
    {
        self.width
    }

    /// The number of rows.
    pub fn image_height(&self) -> (height: i32)
        ensures
            height == self.rows(),
    {
        self.height
    }

    /// The number of pixels.
    pub fn len(&self) -> (count: u64)
        ensures
            count == self.pixel_count(),
    {
        if self.width > 0 && self.height > 0 {
            let w: u64 = self.width as u64;
            let h: u64 = self.height as u64;
            assert(w * h <= 0x7fff_ffff * 0x7fff_ffff) by (nonlinear_arith)
                requires
                    0 < w <= 0x7fff_ffff,
                    0 < h <= 0x7fff_ffff,
            ;
            w * h
        } else {
            0
        }
    }

    /// The pixel visited first: the top left one, if the raster holds any.
    pub fn first(&self) -> (start: Option<Pixel>)
        ensures
            start == if self.pixel_count() > 0 {
                Some(self.pixel_at(0))
            } else {
                None
            },
    {
        if self.width > 0 && self.height > 0 {
            assert(self.cols() * self.rows() > 0) by (nonlinear_arith)
                requires
                    self.cols() > 0,
                    self.rows() > 0,
            ;
            Some(Pixel { col: 0, row: 0 })
        } else {
            None
        }
    }

    /// The pixel visited after `p`: the one to its right, or the first of
    /// the row below where `p` ends its row. There is none after the last
    /// pixel, nor after a place outside the raster.
    pub fn next(&self, p: Pixel) -> (following: Option<Pixel>)
        ensures
            following == if self.contains(p) && self.index_of(p) + 1 < self.pixel_count() {
                Some(self.pixel_at(self.index_of(p) + 1))
            } else {
                None
            },
    {
        if p.col < 0 || p.col >= self.width || p.row < 0 || p.row >= self.height {
            return None;
        }
        proof {
            self.lemma_index_in_range(p);
        }
        if p.col + 1 < self.width {
            proof {
                lemma_fundamental_div_mod_converse(
                    self.index_of(p) + 1,
                    self.cols(),
                    p.row as int,
                    p.col + 1,
                );
                assert(self.index_of(p) + 1 < self.pixel_count()) by (nonlinear_arith)
                    requires
                        self.index_of(p) == p.row * self.cols() + p.col,
                        p.col + 1 < self.cols(),
                        0 <= p.row < self.rows(),
                        self.pixel_count() == self.cols() * self.rows(),
                ;
            }
            Some(Pixel { col: p.col + 1, row: p.row })
        } else if p.row + 1 < self.height {
            proof {
                assert(self.index_of(p) + 1 == (p.row + 1) * self.cols() + 0) by (nonlinear_arith)
                    requires
                        self.index_of(p) == p.row * self.cols() + p.col,
                        p.col + 1 == self.cols(),
                ;
                lemma_fundamental_div_mod_converse(
                    self.index_of(p) + 1,
                    self.cols(),
                    p.row + 1,
                    0,
                );
                assert(self.index_of(p) + 1 < self.pixel_count()) by (nonlinear_arith)
                    requires
                        self.index_of(p) + 1 == (p.row + 1) * self.cols(),
                        0 < self.cols(),
                        p.row + 1 < self.rows(),
                        self.pixel_count() == self.cols() * self.rows(),
                ;
            }
            Some(Pixel { col: 0, row: p.row + 1 })
        } else {
            proof {
                assert(self.index_of(p) + 1 == self.pixel_count()) by (nonlinear_arith)
                    requires
                        self.index_of(p) == p.row * self.cols() + p.col,
                        p.col + 1 == self.cols(),
                        p.row + 1 == self.rows(),
                        self.pixel_count() == self.cols() * self.rows(),
                ;
            }
            None
        }
    }

    /// A pixel inside the raster is visited before the raster is used up,
    /// and no other pixel is visited at its turn.
    pub proof fn lemma_index_in_range(self, p: Pixel)
        requires
            self.contains(p),
        ensures
            0 <= self.index_of(p) < self.pixel_count(),
            self.pixel_at(self.index_of(p)) == p,
    {
        let cols = self.cols();
        let rows = self.rows();
        assert(0 <= p.row * cols + p.col < cols * rows) by (nonlinear_arith)
            requires
                0 <= p.col < cols,
                0 <= p.row < rows,
        ;
        lemma_fundamental_div_mod_converse(self.index_of(p), cols, p.row as int, p.col as int);
    }

    /// Each turn below the number of pixels belongs to a pixel inside the
    /// raster.
    pub proof fn lemma_pixel_at_in_range(self, k: int)
        requires
            0 <= k < self.pixel_count(),
        ensures
            self.contains(self.pixel_at(k)),
            self.index_of(self.pixel_at(k)) == k,
    {
        let cols = self.cols();
        let rows = self.rows();
        lemma_fundamental_div_mod(k, cols);
        lemma_mod_bound(k, cols);
        let q = k / cols;
        let r = k % cols;
        assert(0 <= q < rows) by (nonlinear_arith)
            requires
                k == cols * q + r,
                0 <= r < cols,
                0 <= k < cols * rows,
        ;
        assert(q * cols + r == k) by (nonlinear_arith)
            requires
                k == cols * q + r,
        ;
    }

    /// The pixels are visited row by row from the top, and each row from
    /// the left.
    pub proof fn lemma_row_major(self, p: Pixel, q: Pixel)
        requires
            self.contains(p),
            self.contains(q),
        ensures
            self.index_of(p) < self.index_of(q) <==> (p.row < q.row || (p.row == q.row && p.col
                < q.col)),
    {
        let cols = self.cols();
        assert(p.row < q.row ==> p.row * cols + p.col < q.row * cols + q.col) by (nonlinear_arith)
            requires
                0 <= p.col < cols,
                0 <= q.col < cols,
        ;
        assert(q.row < p.row ==> q.row * cols + q.col < p.row * cols + p.col) by (nonlinear_arith)
            requires
                0 <= p.col < cols,
                0 <= q.col < cols,
        ;
    }
}

} // verus!
