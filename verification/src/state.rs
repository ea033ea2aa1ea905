//! The screens of the menu.

use vstd::prelude::*;

verus! {

/// Where the user is in the menu.
#[derive(Clone, Copy, Debug, PartialEq, Eq, Structural)]
pub enum State {
    /// The list of files: the place of the cursor, and whether leaving the
    /// program waits to be confirmed.
    MainMenu(usize, bool),
    /// The list of versions of one file: the place of the cursor, the place
    /// of the file in the list of files, and whether a revert waits to be
    /// confirmed.
    SaveFileSelected(usize, usize, bool),
    /// The program is to end.
    Exit,
}

} // verus!
