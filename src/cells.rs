//! A map: a rectangle of cells, at most 24 by 24.

use vstd::prelude::*;
use crate::cell::CellKind;
use crate::grid::{Grid, MAX_SIDE};

verus! {

/// A rectangular map of cells, stored row by row.
#[derive(PartialEq, Eq, Debug)]
pub struct Cells {
    kinds: Vec<CellKind>,
    width: usize,
    height: usize,
}

impl View for Cells {
    type V = Grid;

    closed spec fn view(&self) -> Grid {
        Grid { height: self.height as nat, width: self.width as nat, kinds: self.kinds@ }
    }
}

impl Cells {
    #[verifier::type_invariant]
    closed spec fn inv(&self) -> bool {
        &&& self.height <= MAX_SIDE
        &&& self.width <= MAX_SIDE
        &&& self.kinds@.len() == self.height * self.width
    }

    /// A map of the given size from its cells in row-major order.
    pub(crate) fn from_kinds(kinds: Vec<CellKind>, height: usize, width: usize) -> (r: Cells)
        requires
            height <= MAX_SIDE,
            width <= MAX_SIDE,
            kinds@.len() == height * width,
        ensures
            r@ == (Grid { height: height as nat, width: width as nat, kinds: kinds@ }),
    {
        Cells { kinds, width, height }
    }

    /// The kind of the cell at `(y, x)`, or `None` outside the map.
    pub fn get(&self, y: usize, x: usize) -> (r: Option<CellKind>)
        ensures
            r == (if self@.in_bounds(y as int, x as int) {
                Some(self@.at(y as int, x as int))
            } else {
                None
            }),
    {
        proof {
            use_type_invariant(self);
        }
        if y < self.height && x < self.width {
            proof {
                assert(0 <= y * self.width + x < self.height * self.width <= 576)
                    by (nonlinear_arith)
                    requires
                        y < self.height,
                        x < self.width,
                        self.height <= 24,
                        self.width <= 24,
                ;
            }
            Some(self.kinds[y * self.width + x])
        } else {
            None
        }
    }

    /// The number of lines and of cells in a line.
    pub fn get_size(&self) -> (r: (usize, usize))
        ensures
            r.0 == self@.height,
            r.1 == self@.width,
            self@.wf(),
    {
        proof {
            use_type_invariant(self);
        }
        (self.height, self.width)
    }

    /// The number of cells.
    pub fn len(&self) -> (r: usize)
        ensures
            r == self@.size(),
            self@.wf(),
    {
        proof {
            use_type_invariant(self);
        }
        self.kinds.len()
    }
}

} // verus!
