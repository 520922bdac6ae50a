//! The kinds of cell a map is made of.

use vstd::prelude::*;

verus! {

/// What occupies one cell of a map.
#[derive(Clone, Copy, PartialEq, Eq, Debug, Structural)]
pub enum CellKind {
    Vacant,
    Wall,
    Pit,
    Water,
    BouncyWall,
}

impl CellKind {
    /// Whether the cell blocks diagonal movement.
    pub open spec fn spec_is_solid(&self) -> bool {
        *self is Wall || *self is BouncyWall
    }

    /// The style class under which a cell of this kind is drawn.
    pub fn get_bg_class_name(&self) -> (r: &'static str)
        ensures
            r@ == bg_class_name(*self)@,
    {
        match self {
            CellKind::Vacant => "vacant_bg",
            CellKind::Wall => "wall_bg",
            CellKind::Pit => "pit_bg",
            CellKind::Water => "water_bg",
            CellKind::BouncyWall => "bouncy_wall_bg",
        }
    }

    /// Walls, bouncy or not, are solid; every other kind can be travelled through.
    #[verifier::when_used_as_spec(spec_is_solid)]
    pub fn is_solid(&self) -> (r: bool)
        ensures
            r == self.spec_is_solid(),
    {
        matches!(*self, CellKind::Wall | CellKind::BouncyWall)
    }
}

/// The style class of each kind.
pub open spec fn bg_class_name(k: CellKind) -> &'static str {
    match k {
        CellKind::Vacant => "vacant_bg",
        CellKind::Wall => "wall_bg",
        CellKind::Pit => "pit_bg",
        CellKind::Water => "water_bg",
        CellKind::BouncyWall => "bouncy_wall_bg",
    }
}

/// Why a text could not be read as a map.
#[derive(Clone, Copy, PartialEq, Eq, Debug, Structural)]
pub enum CellsError {
    /// A character that stands for no kind of cell.
    InvalidChar,
    /// More than 24 lines, or a line longer than 24 characters.
    TooLarge,
}

} // verus!
