//! Which notifications of the watched directory lead to a capture.

use vstd::prelude::*;

verus! {

/// What kind of creation a notification reports.
#[derive(Clone, Copy, Debug, PartialEq, Eq, Structural)]
pub enum CreateKind {
    Any,
    File,
    Folder,
    Other,
}

/// What kind of modification a notification reports.
#[derive(Clone, Copy, Debug, PartialEq, Eq, Structural)]
pub enum ModifyKind {
    Any,
    /// The content of the file changed.
    Data,
    /// Only metadata of the file changed.
    Metadata,
    /// The file was renamed.
    Name,
    Other,
}

/// What a notification of the watched directory reports.
#[derive(Clone, Copy, Debug, PartialEq, Eq, Structural)]
pub enum EventKind {
    Any,
    Access,
    Create(CreateKind),
    Modify(ModifyKind),
    Remove,
    Other,
}

/// A notification of this kind leads to a capture: a file was created, or
/// the content of a file was modified, or the notifier cannot say more than
/// that something was created or modified.
pub open spec fn is_capture_kind(kind: EventKind) -> bool {
    match kind {
        EventKind::Create(CreateKind::Any) => true,
        EventKind::Create(CreateKind::File) => true,
        EventKind::Modify(ModifyKind::Any) => true,
        EventKind::Modify(ModifyKind::Data) => true,
        _ => false,
    }
}

/// Whether a notification of this kind leads to a capture of the files it names.
pub fn triggers_capture(kind: EventKind) -> (capture: bool)
    ensures
        capture == is_capture_kind(kind),
{
    match kind {
        EventKind::Create(CreateKind::Any | CreateKind::File) => true,
        EventKind::Modify(ModifyKind::Any | ModifyKind::Data) => true,
        _ => false,
    }
}

} // verus!
