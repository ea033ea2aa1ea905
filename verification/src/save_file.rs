//! The identity of one known save file in a listing.

use vstd::prelude::*;
use crate::history::ranks_before;
use crate::path_order::{compare_paths, PathOrder};

verus! {

/// What a listing of files holds: each file's path and most recent capture time.
pub open spec fn listing_model(listing: Seq<SaveFile>) -> Seq<(Seq<char>, u128)> {
    listing.map_values(|file: SaveFile| file@)
}

/// A known save file: its path and the capture time of its most recent
/// version, in nanoseconds since the Unix epoch.
#[derive(Clone, Debug, PartialEq, Eq)]
pub struct SaveFile(String, u128);

impl View for SaveFile {
    type V = (Seq<char>, u128);

    closed spec fn view(&self) -> (Seq<char>, u128) {
        (self.0@, self.1)
    }
}

impl SaveFile {
    /// Names the file at `path` whose most recent version was captured at `time`.
    pub fn new(path: String, time: u128) -> (file: Self)
        ensures
            file@ == (path@, time),
    {
        Self(path, time)
    }

    /// The path of the file.
    pub fn path(&self) -> (path: &String)
        ensures
            path@ == self@.0,
    {
        &self.0
    }

    /// The capture time of the file's most recent version.
    pub fn time(&self) -> (time: &u128)
        ensures
            *time == self@.1,
    {
        &self.1
    }

    /// Whether this file stands before `other` in a listing: the more recently
    /// captured file first and, at equal recency, the one whose path comes first.
    pub fn stands_before(&self, other: &SaveFile) -> (before: bool)
        ensures
            before == ranks_before(self@, other@),
    {
        if self.1 != other.1 {
            self.1 > other.1
        } else {
            match compare_paths(self.0.as_str(), other.0.as_str()) {
                PathOrder::Before => true,
                _ => false,
            }
        }
    }
}

} // verus!
