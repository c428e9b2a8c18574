//! Sparse tile grids and the two kinds of cell they hold.
pub mod coord;
pub mod generic_tiles;
pub mod liquid;
pub mod sort_dedup;

use vstd::prelude::*;

use generic_tiles::Tile;

verus! {

/// A solid cell: an optional visual index; `None` means no solid here.
#[derive(Clone, Copy, Debug, PartialEq, Eq)]
pub struct OptTileIndex(pub Option<u32>);

impl OptTileIndex {
    /// No solid material.
    pub fn empty() -> (r: Self)
        ensures
            r.0 is None,
    {
        OptTileIndex(None)
    }

    /// Solid material drawn with visual `index`.
    pub fn from_index(index: u32) -> (r: Self)
        ensures
            r.0 == Some(index),
    {
        OptTileIndex(Some(index))
    }

    pub fn get_index(&self) -> (r: Option<u32>)
        ensures
            r == self.0,
    {
        self.0
    }
}

impl Tile for OptTileIndex {
    open spec fn spec_default() -> Self {
        OptTileIndex(None)
    }

    open spec fn spec_needs_sprite(&self) -> bool {
        self.0 is Some
    }

    fn default_tile() -> (r: Self) {
        OptTileIndex(None)
    }

    fn needs_sprite(&self) -> (r: bool) {
        self.0.is_some()
    }
}

} // verus!
