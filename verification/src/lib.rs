//! Versioned snapshot storage for a small set of game save files.
//!
//! Every change to a watched save file is captured as an immutable snapshot
//! keyed by the file's path and its modification time. The engine queues the
//! captures, discards the ones its own revert writes produced, keeps the
//! full history of every file and turns that history into bytes and back.

pub mod codec;
pub mod context;
pub mod history;
pub mod ingestion;
pub mod path_order;
pub mod save_file;
pub mod save_file_event_handler;
pub mod save_storage;
pub mod save_version;
pub mod state;
pub mod storage;
pub mod time_budget;
pub mod watcher_error;
