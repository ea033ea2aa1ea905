//! The ingestion engine: the store, the queue of captures that wait to be
//! stored, and the one-shot ignore set that keeps the engine's own revert
//! writes out of the store.

use std::collections::VecDeque;
use vstd::hash_set::StringHashSet;
use vstd::prelude::*;
use vstd::slice::slice_to_vec;
use crate::codec::postcard_encoding;
use crate::history::{
    file_listing, files_canonical, history_at, inserted, lists_files, lists_versions, store_of,
    version_times, FileList,
};
use crate::ingestion::{
    drained_store, drains, is_suppressed, lemma_drain_step, remaining_ignored,
    stops_at_first_stored, stores_any, Engine,
};
use crate::save_file::{listing_model, SaveFile};
use crate::save_version::{times_model, SaveVersion};
use crate::storage::{snapshot_store, updates_model, SaveFileUpdate, SnapshotError, Storage};
use crate::time_budget::TimeBudget;

verus! {

/// The time that one drain may take before it leaves the rest of the queue
/// to the next one, in nanoseconds: one millisecond.
pub const DRAIN_BUDGET: u128 = 1_000_000;

/// The ingestion engine.
pub struct SaveStorage {
    storage: Storage,
    pending: VecDeque<SaveFileUpdate>,
    ignore_list: StringHashSet,
}

impl View for SaveStorage {
    type V = Engine;

    closed spec fn view(&self) -> Engine {
        Engine {
            store: self.storage@,
            ignored: self.ignore_list@,
            pending: updates_model(self.pending@),
        }
    }
}

impl SaveStorage {
    /// The files of the store as they are listed in memory and in the persisted snapshot.
    pub closed spec fn files(&self) -> FileList {
        self.storage.files()
    }

    /// An engine that starts with `storage`, an empty queue and nothing to ignore.
    pub fn new(storage: Storage) -> (engine: Self)
        ensures
            engine@.store == storage@,
            engine@.ignored == Set::<Seq<char>>::empty(),
            engine@.pending == Seq::<(Seq<char>, u128, Seq<u8>)>::empty(),
    {
        let engine = Self { storage, pending: VecDeque::new(), ignore_list: StringHashSet::new() };
        assert(engine@.pending =~= Seq::empty());
        engine
    }

    /// Puts a capture at the end of the queue.
    pub fn enqueue(&mut self, save_file_update: SaveFileUpdate)
        ensures
            final(self)@.store == old(self)@.store,
            final(self)@.ignored == old(self)@.ignored,
            final(self)@.pending == old(self)@.pending.push(
                (save_file_update.0@, save_file_update.1, save_file_update.2@),
            ),
    {
        self.pending.push_back(save_file_update);
        assert(updates_model(self.pending@) =~= updates_model(old(self).pending@).push(
            (save_file_update.0@, save_file_update.1, save_file_update.2@),
        ));
    }

    /// The number of captures that wait in the queue.
    pub fn pending_count(&self) -> (count: usize)
        ensures
            count == self@.pending.len(),
    {
        self.pending.len()
    }

    /// Records that the next capture for `path` is the engine's own write and
    /// is to be discarded.
    pub fn add_ignore_record(&mut self, path: String)
        ensures
            final(self)@.store == old(self)@.store,
            final(self)@.pending == old(self)@.pending,
            final(self)@.ignored == old(self)@.ignored.insert(path@),
    {
        self.ignore_list.insert(path);
    }

    /// Handles one capture: where its path is in the ignore set the capture
    /// is discarded and the path leaves the set, else the capture is stored.
    /// Returns whether it was stored.
    pub fn ingest(&mut self, save_file_update: SaveFileUpdate) -> (stored: bool)
        ensures
            final(self)@.pending == old(self)@.pending,
            stored == !old(self)@.ignored.contains(save_file_update.0@),
            final(self)@.ignored == old(self)@.ignored.remove(save_file_update.0@),
            final(self)@.store == if stored {
                inserted(
                    old(self)@.store,
                    save_file_update.0@,
                    save_file_update.1,
                    save_file_update.2@,
                )
            } else {
                old(self)@.store
            },
    {
        if self.ignore_list.remove(save_file_update.0.as_str()) {
            return false;
        }
        self.storage.apply_update(save_file_update);
        true
    }

    /// Drains the queue within `time_budget`: handles the captures in turn
    /// until the queue is empty or, after a capture was stored, the budget
    /// is used up. A capture whose path is in the ignore set is discarded,
    /// and the path leaves the set; every other capture is stored. Returns
    /// whether a capture was stored, that is whether the store is to be
    /// persisted. With a budget of no time the drain stops at the first
    /// capture that it stores.
    pub fn update_within(&mut self, time_budget: &TimeBudget) -> (stored: bool)
        ensures
            exists|count: int|
                {
                    &&& #[trigger] drains(old(self)@, final(self)@, count, stored)
                    &&& time_budget.budget() == 0 ==> stops_at_first_stored(old(self)@, count)
                },
    {
        let ghost before = self@;
        let ghost mut count: int = 0;
        let mut stored = false;
        let mut expired = false;
        proof {
            assert(before.pending.skip(0) =~= before.pending);
            assert(before.pending.take(0) =~= Seq::empty());
            assert(remaining_ignored(before.ignored, before.pending.take(0)) =~= before.ignored);
        }
        while !expired && self.pending.len() > 0
            invariant
                0 <= count <= before.pending.len(),
                self@.pending == before.pending.skip(count),
                self@.store == drained_store(
                    before.store,
                    before.ignored,
                    before.pending.take(count),
                ),
                self@.ignored == remaining_ignored(before.ignored, before.pending.take(count)),
                stored == stores_any(before.ignored, before.pending.take(count)),
                expired ==> count > 0 && !is_suppressed(
                    before.ignored,
                    before.pending,
                    count - 1,
                ),
                time_budget.budget() == 0 ==> forall|j: int|
                    0 <= j < (if expired {
                        count - 1
                    } else {
                        count
                    }) ==> #[trigger] is_suppressed(before.ignored, before.pending, j),
            decreases self.pending@.len(),
        {
            let ghost queue = self.pending@;
            let update = self.pending.pop_front().unwrap();
            proof {
                assert(updates_model(queue).len() == queue.len());
                assert(before.pending.skip(count).len() == before.pending.len() - count);
                assert(updates_model(self.pending@) =~= updates_model(queue).skip(1));
                assert(before.pending.skip(count).skip(1) =~= before.pending.skip(count + 1));
                assert(before.pending[count] == (update.0@, update.1, update.2@)) by {
                    assert(before.pending.skip(count)[0] == updates_model(queue)[0]);
                }
                lemma_drain_step(before.store, before.ignored, before.pending, count);
            }
            if self.ingest(update) {
                stored = true;
                expired = time_budget.is_expired();
            }
            proof {
                count = count + 1;
            }
        }
        proof {
            assert(!expired ==> count == before.pending.len()) by {
                if !expired {
                    assert(before.pending.skip(count).len() == 0);
                }
            }
            assert(drains(before, self@, count, stored));
        }
        stored
    }

    /// Drains the queue within the budget of one refresh cycle, as
    /// `update_within` does. Returns whether a capture was stored, that is
    /// whether the store is to be persisted.
    pub fn update(&mut self) -> (stored: bool)
        ensures
            exists|count: int| #[trigger] drains(old(self)@, final(self)@, count, stored),
    {
        let time_budget = TimeBudget::new(DRAIN_BUDGET);
        self.update_within(&time_budget)
    }

    /// Lists the known files, each with the capture time of its most recent
    /// version, the most recently captured file first. Files of equal recency
    /// are listed in the order of their paths.
    pub fn save_files(&self) -> (listing: Vec<SaveFile>)
        ensures
            lists_files(self@.store, listing_model(listing@)),
            listing_model(listing@) == file_listing(self@.store),
    {
        self.storage.save_files()
    }

    /// Lists the versions of the file at `file_path`, the most recent first.
    /// An unknown path has no versions.
    pub fn save_versions(&self, file_path: &str) -> (versions: Vec<SaveVersion>)
        ensures
            lists_versions(history_at(self@.store, file_path@), times_model(versions@)),
            times_model(versions@) == version_times(history_at(self@.store, file_path@)),
    {
        self.storage.save_versions(file_path)
    }

    /// The bytes captured for `path` at `time`, if the store holds that version.
    pub fn data_of(&self, path: &str, time: &u128) -> (data: Option<&[u8]>)
        ensures
            match data {
                Some(bytes) => history_at(self@.store, path@).contains_key(*time) && bytes@
                    == history_at(self@.store, path@)[*time],
                None => !history_at(self@.store, path@).contains_key(*time),
            },
    {
        self.storage.data_of(path, *time)
    }

    /// Prepares the revert of the file at `path` to its version of `time`:
    /// where the store holds that version, the path is marked in the ignore
    /// set, so that the capture of the write to come is discarded, and the
    /// bytes to write back are returned. Where it does not, nothing changes.
    pub fn revert(&mut self, path: &str, time: u128) -> (data: Option<Vec<u8>>)
        ensures
            final(self)@.store == old(self)@.store,
            final(self)@.pending == old(self)@.pending,
            match data {
                Some(bytes) => {
                    &&& history_at(old(self)@.store, path@).contains_key(time)
                    &&& bytes@ == history_at(old(self)@.store, path@)[time]
                    &&& final(self)@.ignored == old(self)@.ignored.insert(path@)
                },
                None => {
                    &&& !history_at(old(self)@.store, path@).contains_key(time)
                    &&& final(self)@.ignored == old(self)@.ignored
                },
            },
    {
        let bytes = match self.storage.data_of(path, time) {
            Some(stored) => slice_to_vec(stored),
            None => {
                return None;
            },
        };
        self.ignore_list.insert(path.to_owned());
        Some(bytes)
    }

    /// Turns the store into the bytes of a persisted snapshot: the bytes
    /// that the byte format gives for the store's list of files, which hold
    /// the store again. The queue and the ignore set are not persisted.
    pub fn serialize(&self) -> (result: Result<Vec<u8>, SnapshotError>)
        ensures
            self@.store == store_of(self.files()),
            files_canonical(self.files()),
            match result {
                Ok(bytes) => postcard_encoding(self.files()) == Some(bytes@) && snapshot_store(
                    bytes@,
                ) == Some(self@.store),
                Err(error) => error == SnapshotError::Codec && postcard_encoding(self.files())
                    is None,
            },
    {
        self.storage.serialize()
    }
}

} // verus!
