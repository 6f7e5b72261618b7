//! A generic rectangular grid backed by a flat, row-major vector.

use vstd::prelude::*;

verus! {

/// Cell `(x, y)` of a grid `w` cells wide lies at flat index `y * w + x`,
/// which is within a backing vector of `w * h` elements.
pub proof fn lemma_cell_in_range(w: int, h: int, x: int, y: int)
    requires
        0 <= x < w,
        0 <= y < h,
    ensures
        0 <= y * w + x < w * h,
{
    assert(0 <= y * w + x < w * h) by (nonlinear_arith)
        requires
            0 <= x < w,
            0 <= y < h,
    ;
}

/// The backing vector of any grid fits in the address space.
pub proof fn lemma_vec_len_bounded<T>(v: &Vec<T>)
    ensures
        v@.len() <= usize::MAX,
{
    broadcast use vstd::std_specs::vec::axiom_spec_len;

    assert(vstd::std_specs::vec::spec_vec_len(v) == v@.len());
}

/// A rectangular grid of `width * height` cells stored row-major in a
/// single vector: cell `(x, y)` lives at `data[y * width + x]`.
#[derive(Clone, Debug, PartialEq)]
pub struct Matrix<T> {
    pub data: Vec<T>,
    pub height: usize,
    pub width: usize,
}

impl<T> Matrix<T> {
    /// The backing vector holds exactly one element per cell.
    pub open spec fn wf(&self) -> bool {
        self.data@.len() == self.width * self.height
    }

    pub open spec fn spec_in_bounds(&self, x: int, y: int) -> bool {
        0 <= x < self.width && 0 <= y < self.height
    }

    /// Flat row-major index of cell `(x, y)`.
    pub open spec fn cell(&self, x: int, y: int) -> int {
        y * self.width + x
    }

    /// The value stored at cell `(x, y)`.
    pub open spec fn spec_get(&self, x: int, y: int) -> T {
        self.data@[self.cell(x, y)]
    }

    pub fn in_bounds(&self, x: usize, y: usize) -> (r: bool)
        ensures
            r == self.spec_in_bounds(x as int, y as int),
    {
        x < self.width && y < self.height
    }
}

impl<T: Copy> Matrix<T> {
    /// A `width` by `height` grid with every cell set to `default`.
    pub fn new(width: usize, height: usize, default: T) -> (m: Self)
        requires
            width * height <= usize::MAX,
        ensures
            m.wf(),
            m.width == width,
            m.height == height,
            m.data@.len() == width * height,
            forall|i: int| 0 <= i < m.data@.len() ==> m.data@[i] == default,
    {
        let n: usize = width * height;
        let mut data: Vec<T> = Vec::new();
        while data.len() < n
            invariant
                data@.len() <= n,
                forall|i: int| 0 <= i < data@.len() ==> data@[i] == default,
            decreases n - data@.len(),
        {
            data.push(default);
        }
        Matrix { data, height, width }
    }

    /// The value at `(x, y)`, or `None` outside the grid.
    pub fn get(&self, x: usize, y: usize) -> (r: Option<T>)
        requires
            self.wf(),
        ensures
            r == if self.spec_in_bounds(x as int, y as int) {
                Some(self.spec_get(x as int, y as int))
            } else {
                None::<T>
            },
    {
        if self.in_bounds(x, y) {
            proof {
                lemma_vec_len_bounded(&self.data);
                lemma_cell_in_range(
                    self.width as int,
                    self.height as int,
                    x as int,
                    y as int,
                );
            }
            let i: usize = y * self.width + x;
            Some(self.data[i])
        } else {
            None
        }
    }

    /// A mutable borrow of the cell at `(x, y)`, which must be in bounds.
    pub fn get_mut(&mut self, x: usize, y: usize) -> (r: &mut T)
        requires
            old(self).wf(),
            old(self).spec_in_bounds(x as int, y as int),
        ensures
            *r == old(self).spec_get(x as int, y as int),
            final(self).data@ == old(self).data@.update(
                old(self).cell(x as int, y as int),
                *final(r),
            ),
            final(self).width == old(self).width,
            final(self).height == old(self).height,
    {
        proof {
            lemma_vec_len_bounded(&self.data);
            lemma_cell_in_range(
                self.width as int,
                self.height as int,
                x as int,
                y as int,
            );
        }
        let i: usize = y * self.width + x;
        &mut self.data[i]
    }

    /// Writes `new_val` at `(x, y)`; reports whether the cell exists.
    pub fn set(&mut self, x: usize, y: usize, new_val: T) -> (r: bool)
        requires
            old(self).wf(),
        ensures
            r == old(self).spec_in_bounds(x as int, y as int),
            final(self).wf(),
            final(self).width == old(self).width,
            final(self).height == old(self).height,
            final(self).data@ == if r {
                old(self).data@.update(old(self).cell(x as int, y as int), new_val)
            } else {
                old(self).data@
            },
    {
        if self.in_bounds(x, y) {
            proof {
                lemma_vec_len_bounded(&self.data);
                lemma_cell_in_range(
                    self.width as int,
                    self.height as int,
                    x as int,
                    y as int,
                );
            }
            let i: usize = y * self.width + x;
            self.data.set(i, new_val);
            true
        } else {
            false
        }
    }
}

} // verus!
