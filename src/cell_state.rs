//! Per-cell flags of the map and the operator's button flags.
use vstd::prelude::*;

verus! {

/// The walls known around one cell, and whether the runner has visited it.
#[derive(Clone, Copy, Debug, PartialEq, Eq, Structural)]
pub struct CellState {
    pub north: bool,
    pub east: bool,
    pub south: bool,
    pub west: bool,
    pub visited: bool,
}

impl CellState {
    /// No flag set.
    pub open spec fn empty_spec() -> CellState {
        CellState { north: false, east: false, south: false, west: false, visited: false }
    }

    /// A cell with no known wall that has not been visited.
    pub fn empty() -> (r: CellState)
        ensures
            r == CellState::empty_spec(),
    {
        CellState { north: false, east: false, south: false, west: false, visited: false }
    }

    /// Only the visited flag.
    pub open spec fn visited_spec() -> CellState {
        CellState { north: false, east: false, south: false, west: false, visited: true }
    }

    /// The flag that marks a cell as visited, and nothing else.
    pub fn visited_flag() -> (r: CellState)
        ensures
            r == CellState::visited_spec(),
    {
        CellState { north: false, east: false, south: false, west: false, visited: true }
    }

    /// Flags set in `self` or in `other`.
    pub open spec fn union(self, other: CellState) -> CellState {
        CellState {
            north: self.north || other.north,
            east: self.east || other.east,
            south: self.south || other.south,
            west: self.west || other.west,
            visited: self.visited || other.visited,
        }
    }

    /// Every flag of `other` is set in `self`.
    pub open spec fn spec_contains(self, other: CellState) -> bool {
        (other.north ==> self.north) && (other.east ==> self.east) && (other.south
            ==> self.south) && (other.west ==> self.west) && (other.visited ==> self.visited)
    }

    /// Whether every flag of `other` is set in `self`.
    pub fn contains(&self, other: &CellState) -> (r: bool)
        ensures
            r == self.spec_contains(*other),
    {
        (!other.north || self.north) && (!other.east || self.east) && (!other.south || self.south)
            && (!other.west || self.west) && (!other.visited || self.visited)
    }

    /// Sets every flag of `other` in `self`; flags already set stay set.
    pub fn insert(&mut self, other: &CellState)
        ensures
            *final(self) == old(self).union(*other),
    {
        self.north = self.north || other.north;
        self.east = self.east || other.east;
        self.south = self.south || other.south;
        self.west = self.west || other.west;
        self.visited = self.visited || other.visited;
    }

    /// The bit of each flag: north 1, east 2, south 4, west 8, visited 16.
    pub open spec fn spec_bits(self) -> int {
        (if self.north { 1int } else { 0 }) + (if self.east { 2int } else { 0 }) + (if self.south {
            4int
        } else {
            0
        }) + (if self.west { 8int } else { 0 }) + (if self.visited { 16int } else { 0 })
    }

    /// The flags as one byte, as the device protocol carries them.
    pub fn bits(&self) -> (r: u8)
        ensures
            r as int == self.spec_bits(),
    {
        let mut b: u8 = 0;
        if self.north {
            b = b + 1;
        }
        if self.east {
            b = b + 2;
        }
        if self.south {
            b = b + 4;
        }
        if self.west {
            b = b + 8;
        }
        if self.visited {
            b = b + 16;
        }
        b
    }
}

/// The operator's inputs, as the device reports them.
#[derive(Clone, Copy, Debug, PartialEq, Eq, Structural)]
pub struct ButtonsState {
    pub reset: bool,
    pub button1: bool,
    pub button2: bool,
    pub button3: bool,
    pub button4: bool,
}

} // verus!
