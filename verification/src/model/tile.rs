use vstd::prelude::*;

verus! {

/// Per-cell play state: whether a marker sits on the cell, and the color of
/// the area the cell belongs to.
#[derive(Clone, Debug, Copy, PartialEq, Eq, Structural)]
pub struct Tile {
    pub set: bool,
    pub color: u8,
}

/// The tile as it looks after one click: the marker flipped, the color kept.
pub open spec fn toggled(t: Tile) -> Tile {
    Tile { set: !t.set, color: t.color }
}

impl Tile {
    pub fn new(set: bool, color: u8) -> (t: Self)
        ensures
            t.set == set && t.color == color,
    {
        Self { set, color }
    }

    pub fn on_click(&self) -> (t: Self)
        ensures
            t == toggled(*self),
    {
        Self { set: !self.set, color: self.color }
    }

    pub fn get_raw_color(&self) -> (c: u8)
        ensures
            c == self.color,
    {
        self.color
    }

    pub fn is_set(&self) -> (b: bool)
        ensures
            b == self.set,
    {
        self.set
    }
}

impl Default for Tile {
    /// An unmarked tile of color 0.
    fn default() -> (t: Self)
        ensures
            t.set == false && t.color == 0,
    {
        Self { set: false, color: 0 }
    }
}

/// Clicking a tile twice restores it, and clicking once flips the marker.
pub proof fn lemma_toggle_idempotent(t: Tile)
    ensures
        toggled(toggled(t)) == t,
        toggled(t).set == !t.set,
        toggled(t).color == t.color,
{
}

} // verus!
