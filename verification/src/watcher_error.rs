//! Why the watcher of the save directory could not be started.

use vstd::prelude::*;

verus! {

/// The step at which starting the watcher failed.
#[derive(Clone, Copy, Debug, PartialEq, Eq, Structural)]
pub enum WatcherError {
    /// The notifier of the platform could not be set up.
    UnderlyingImplementationInitialization,
    /// The save directory could not be resolved.
    SaveFileDirectoryNotExists,
    /// The notifier could not be pointed at the save directory.
    WatchInitialization,
}

impl WatcherError {
    /// The diagnostic that goes with the error.
    pub open spec fn message(self) -> Seq<char> {
        match self {
            WatcherError::UnderlyingImplementationInitialization => "'notify' initialization failed"@,
            WatcherError::SaveFileDirectoryNotExists => "Could not obtain save directory path"@,
            WatcherError::WatchInitialization => "'watcher' initialization failed"@,
        }
    }

    /// The diagnostic that goes with the error, as text.
    pub fn to_string(&self) -> (text: String)
        ensures
            text@ == self.message(),
    {
        let message = match self {
            WatcherError::UnderlyingImplementationInitialization => "'notify' initialization failed",
            WatcherError::SaveFileDirectoryNotExists => "Could not obtain save directory path",
            WatcherError::WatchInitialization => "'watcher' initialization failed",
        };
        message.to_owned()
    }
}

} // verus!
