//! Data model: a display's recorded placement and a named arrangement.

use vstd::prelude::*;

verus! {

/// One display's recorded placement: a stable hardware identifier and a
/// signed screen-space origin (pixels; negative means left of or above the
/// primary display).
#[derive(PartialEq, Eq, Structural, Clone, Copy, Debug)]
pub struct DisplayLocation {
    pub id: u32,
    pub x: i32,
    pub y: i32,
}

impl DisplayLocation {
    pub fn new(id: u32, x: i32, y: i32) -> (r: DisplayLocation)
        ensures
            r == (DisplayLocation { id, x, y }),
    {
        DisplayLocation { id, x, y }
    }
}

/// The Display Service's current report of one connected display: its
/// identifier and its current origin.
#[derive(PartialEq, Eq, Structural, Clone, Copy, Debug)]
pub struct LiveDisplay {
    pub id: u32,
    pub x: i32,
    pub y: i32,
}

/// A named snapshot of display placements.
#[derive(Debug)]
pub struct Arrangement {
    pub name: String,
    pub positions: Vec<DisplayLocation>,
}

/// No two recorded placements share an identifier.
pub open spec fn unique_ids(ps: Seq<DisplayLocation>) -> bool {
    forall|i: int, j: int| 0 <= i < j < ps.len() ==> ps[i].id != ps[j].id
}

/// The placements are in strictly increasing identifier order (the
/// deterministic order in which an arrangement is persisted).
pub open spec fn sorted_by_id(ps: Seq<DisplayLocation>) -> bool {
    forall|i: int, j: int| 0 <= i < j < ps.len() ==> ps[i].id < ps[j].id
}

/// A well-formed arrangement: a non-empty name, and no identifier recorded
/// twice.
pub open spec fn wf_arrangement(name: Seq<char>, ps: Seq<DisplayLocation>) -> bool {
    name.len() > 0 && unique_ids(ps)
}

impl Arrangement {
    /// Well-formedness of this arrangement.
    pub open spec fn wf(&self) -> bool {
        wf_arrangement(self.name@, self.positions@)
    }
}

/// No two connected displays share an identifier (the Display Service
/// reports each display once).
pub open spec fn unique_live_ids(ds: Seq<LiveDisplay>) -> bool {
    forall|i: int, j: int| 0 <= i < j < ds.len() ==> ds[i].id != ds[j].id
}

} // verus!
