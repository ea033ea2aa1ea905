//! The versioned store: every known save file with its full history.

use vstd::prelude::*;
use crate::codec::{decode_files, encode_files, postcard_decoding, postcard_encoding};
use crate::history::{
    applied, file_listing, files_canonical, history_at, history_of, inserted, is_latest,
    lemma_append_file, lemma_file_listing_unique, lemma_first_is_latest, lemma_history_entry,
    lemma_insert_version, lemma_ranks_total, lemma_ranks_transitive, lemma_replace_file,
    lemma_replace_version, lemma_store_entry, lemma_version_times_unique, listing_ranked,
    lists_files, lists_versions, ranks_before, same_items, store_of, version_times,
    versions_descend, FileList, Store, VersionList,
};
use crate::path_order::{compare_paths, PathOrder};
use crate::save_file::{listing_model, SaveFile};
use crate::save_version::{times_model, SaveVersion};

verus! {

/// One capture of a save file: its path, its modification time in nanoseconds
/// since the Unix epoch, and its full content at that time.
pub type SaveFileUpdate = (String, u128, Vec<u8>);

/// The list of versions that `versions` holds.
pub open spec fn versions_model(versions: Seq<(u128, Vec<u8>)>) -> VersionList {
    versions.map_values(|version: (u128, Vec<u8>)| (version.0, version.1@))
}

/// The list of files that `files` holds.
pub open spec fn files_model(files: Seq<(String, Vec<(u128, Vec<u8>)>)>) -> FileList {
    files.map_values(|file: (String, Vec<(u128, Vec<u8>)>)| (file.0@, versions_model(file.1@)))
}

/// What a list of captures holds.
pub open spec fn updates_model(updates: Seq<SaveFileUpdate>) -> Seq<(Seq<char>, u128, Seq<u8>)> {
    updates.map_values(|update: SaveFileUpdate| (update.0@, update.1, update.2@))
}

/// The store that a persisted snapshot holds: the one that its list of files
/// stands for, if the bytes can be read as a list of files and the list is canonical.
pub open spec fn snapshot_store(bytes: Seq<u8>) -> Option<Store> {
    match postcard_decoding(bytes) {
        Some(files) => if files_canonical(files) {
            Some(store_of(files))
        } else {
            None
        },
        None => None,
    }
}

/// The store that the engine starts with: the one of the persisted snapshot
/// where that was read and holds a store; else the one that the captures of
/// the directory scan give, where the directory was scanned; else the empty one.
pub open spec fn initial_store(
    serialized: Option<Seq<u8>>,
    scanned: Option<Seq<(Seq<char>, u128, Seq<u8>)>>,
) -> Store {
    if serialized is Some && snapshot_store(serialized->0) is Some {
        snapshot_store(serialized->0)->0
    } else if scanned is Some {
        applied(Map::empty(), scanned->0)
    } else {
        Map::empty()
    }
}

/// Why a persisted snapshot, or the store to persist, was not converted.
#[derive(Clone, Copy, Debug, PartialEq, Eq, Structural)]
pub enum SnapshotError {
    /// The byte format does not hold the list of files, or cannot hold it.
    Codec,
    /// The bytes hold a list of files that is not canonical.
    NotCanonical,
}

/// What is stored in memory is what the byte format is given.
proof fn lemma_files_deep_view(files: Vec<(String, Vec<(u128, Vec<u8>)>)>)
    ensures
        files.deep_view() == files_model(files@),
{
    let deep = files.deep_view();
    let model = files_model(files@);
    assert(deep.len() == model.len());
    assert forall|i: int| 0 <= i < deep.len() implies deep[i] == model[i] by {
        let versions = files@[i].1;
        let deep_versions = versions.deep_view();
        let model_versions = versions_model(versions@);
        assert(deep_versions.len() == model_versions.len());
        assert forall|j: int| 0 <= j < deep_versions.len() implies deep_versions[j]
            == model_versions[j] by {
            let data = versions@[j].1;
            assert(data.deep_view() =~= data@);
        }
        assert(deep_versions =~= model_versions);
    }
    assert(deep =~= model);
}

/// Whether a list of versions is not empty and runs from the most recent to the oldest.
fn versions_are_canonical(versions: &Vec<(u128, Vec<u8>)>) -> (canonical: bool)
    ensures
        canonical == (versions@.len() > 0 && versions_descend(versions_model(versions@))),
{
    if versions.len() == 0 {
        return false;
    }
    let ghost model = versions_model(versions@);
    let mut k: usize = 1;
    while k < versions.len()
        invariant
            1 <= k <= versions@.len(),
            model == versions_model(versions@),
            forall|i: int, j: int|
                0 <= i < j < k ==> (#[trigger] model[i]).0 > (#[trigger] model[j]).0,
        decreases versions@.len() - k,
    {
        if versions[k - 1].0 <= versions[k].0 {
            assert(!(model[k - 1].0 > model[k as int].0));
            return false;
        }
        proof {
            assert forall|i: int, j: int| 0 <= i < j < k + 1 implies (#[trigger] model[i]).0 > (
            #[trigger] model[j]).0 by {
                if j == k && i < k - 1 {
                    assert(model[i].0 > model[k - 1].0);
                }
            }
        }
        k += 1;
    }
    true
}

/// Whether a list of files is canonical.
fn files_are_canonical(files: &Vec<(String, Vec<(u128, Vec<u8>)>)>) -> (canonical: bool)
    ensures
        canonical == files_canonical(files_model(files@)),
{
    let ghost model = files_model(files@);
    let mut k: usize = 0;
    while k < files.len()
        invariant
            k <= files@.len(),
            model == files_model(files@),
            forall|i: int, j: int|
                0 <= i < j < k ==> (#[trigger] model[i]).0 != (#[trigger] model[j]).0,
            forall|i: int|
                0 <= i < k ==> (#[trigger] model[i]).1.len() > 0 && versions_descend(model[i].1),
        decreases files@.len() - k,
    {
        if !versions_are_canonical(&files[k].1) {
            assert(!(model[k as int].1.len() > 0 && versions_descend(model[k as int].1)));
            return false;
        }
        let mut j: usize = 0;
        while j < k
            invariant
                j <= k < files@.len(),
                model == files_model(files@),
                forall|i: int| 0 <= i < j ==> (#[trigger] model[i]).0 != model[k as int].0,
            decreases k - j,
        {
            if let PathOrder::Same = compare_paths(files[j].0.as_str(), files[k].0.as_str()) {
                assert(!(model[j as int].0 != model[k as int].0));
                return false;
            }
            j += 1;
        }
        k += 1;
    }
    true
}

/// Puts the capture of `data` at `time` into a descending list of versions,
/// in place of an earlier capture at the same time if there is one.
fn insert_version(versions: &mut Vec<(u128, Vec<u8>)>, time: u128, data: Vec<u8>)
    requires
        versions_descend(versions_model(old(versions)@)),
    ensures
        versions_descend(versions_model(final(versions)@)),
        final(versions)@.len() > 0,
        history_of(versions_model(final(versions)@)) == history_of(
            versions_model(old(versions)@),
        ).insert(time, data@),
{
    let ghost before = versions_model(versions@);
    let mut pos: usize = 0;
    while pos < versions.len() && versions[pos].0 > time
        invariant
            pos <= versions.len(),
            forall|i: int| 0 <= i < pos ==> (#[trigger] versions@[i]).0 > time,
        decreases versions.len() - pos,
    {
        pos += 1;
    }
    if pos < versions.len() && versions[pos].0 == time {
        proof {
            lemma_replace_version(before, pos as int, data@);
        }
        versions[pos] = (time, data);
        assert(versions_model(versions@) =~= before.update(pos as int, (time, data@)));
    } else {
        proof {
            assert forall|i: int| pos <= i < before.len() implies (#[trigger] before[i]).0
                < time by {
                if i > pos {
                    assert(before[pos as int].0 > before[i].0);
                }
            }
            assert forall|i: int| 0 <= i < pos implies (#[trigger] before[i]).0 > time by {
                assert(versions@[i].0 > time);
            }
            lemma_insert_version(before, pos as int, time, data@);
        }
        versions.insert(pos, (time, data));
        assert(versions_model(versions@) =~= before.insert(pos as int, (time, data@)));
    }
}

/// The place of `path` in a list of files, if it is there.
fn find_file(files: &Vec<(String, Vec<(u128, Vec<u8>)>)>, path: &str) -> (found: Option<usize>)
    ensures
        match found {
            Some(i) => i < files@.len() && files@[i as int].0@ == path@,
            None => forall|i: int| 0 <= i < files@.len() ==> (#[trigger] files@[i]).0@ != path@,
        },
{
    let mut i: usize = 0;
    while i < files.len()
        invariant
            i <= files.len(),
            forall|j: int| 0 <= j < i ==> (#[trigger] files@[j]).0@ != path@,
        decreases files.len() - i,
    {
        if let PathOrder::Same = compare_paths(files[i].0.as_str(), path) {
            return Some(i);
        }
        i += 1;
    }
    None
}

/// Records the capture of `data` for `path` at `time` in a canonical list of files.
fn insert_capture(
    files: &mut Vec<(String, Vec<(u128, Vec<u8>)>)>,
    path: String,
    time: u128,
    data: Vec<u8>,
)
    requires
        files_canonical(files_model(old(files)@)),
    ensures
        files_canonical(files_model(final(files)@)),
        store_of(files_model(final(files)@)) == inserted(
            store_of(files_model(old(files)@)),
            path@,
            time,
            data@,
        ),
{
    let ghost before = files_model(files@);
    match find_file(files, path.as_str()) {
        Some(i) => {
            let ghost old_versions = versions_model(files@[i as int].1@);
            assert(before[i as int].1 == old_versions);
            insert_version(&mut files[i].1, time, data);
            proof {
                let new_versions = versions_model(files@[i as int].1@);
                assert(files_model(files@) =~= before.update(i as int, (path@, new_versions)));
                lemma_replace_file(before, i as int, new_versions);
                lemma_store_entry(before, i as int);
                assert forall|j: int| 0 <= j < files_model(files@).len() implies (
                #[trigger] files_model(files@)[j]).1.len() > 0 && versions_descend(
                    files_model(files@)[j].1,
                ) by {
                    if j != i {
                        assert(files_model(files@)[j] == before[j]);
                    }
                }
            }
        },
        None => {
            let ghost data_view = data@;
            let mut versions: Vec<(u128, Vec<u8>)> = Vec::new();
            versions.push((time, data));
            proof {
                let empty: VersionList = Seq::empty();
                let single = versions_model(versions@);
                assert(single =~= empty.insert(0, (time, data_view)));
                lemma_insert_version(empty, 0, time, data_view);
                assert(history_of(empty) =~= Map::empty());
                assert forall|j: int| 0 <= j < before.len() implies (#[trigger] before[j]).0
                    != path@ by {
                    assert(files@[j].0@ != path@);
                }
                lemma_append_file(before, path@, single);
            }
            let ghost single = versions_model(versions@);
            files.push((path, versions));
            proof {
                assert(files_model(files@) =~= before.push((path@, single)));
                assert forall|j: int| 0 <= j < files_model(files@).len() implies (
                #[trigger] files_model(files@)[j]).1.len() > 0 && versions_descend(
                    files_model(files@)[j].1,
                ) by {
                    if j < before.len() {
                        assert(files_model(files@)[j] == before[j]);
                    }
                }
            }
        },
    }
}

/// The path and most recent capture time of each of the first `count` files of a canonical list.
spec fn heads(files: FileList, count: int) -> Seq<(Seq<char>, u128)> {
    Seq::new(count as nat, |f: int| (files[f].0, files[f].1[0].0))
}

/// A file put anywhere into one listing and at the end of another keeps the two alike.
proof fn lemma_same_items_insert(
    a: Seq<(Seq<char>, u128)>,
    pos: int,
    item: (Seq<char>, u128),
    b: Seq<(Seq<char>, u128)>,
)
    requires
        same_items(a, b),
        0 <= pos <= a.len(),
    ensures
        same_items(a.insert(pos, item), b.push(item)),
{
    let a2 = a.insert(pos, item);
    let b2 = b.push(item);
    assert forall|i: int| 0 <= i < a2.len() implies b2.contains(#[trigger] a2[i]) by {
        if i == pos {
            assert(b2[b.len() as int] == item);
        } else {
            let oi = if i < pos { i } else { i - 1 };
            assert(a2[i] == a[oi]);
            assert(b.contains(a[oi]));
            let w = choose|w: int| 0 <= w < b.len() && b[w] == a[oi];
            assert(b2[w] == a2[i]);
        }
    }
    assert forall|i: int| 0 <= i < b2.len() implies a2.contains(#[trigger] b2[i]) by {
        if i == b.len() {
            assert(a2[pos] == item);
        } else {
            assert(b2[i] == b[i]);
            assert(a.contains(b[i]));
            let w = choose|w: int| 0 <= w < a.len() && a[w] == b[i];
            let nw = if w < pos { w } else { w + 1 };
            assert(a2[nw] == b2[i]);
        }
    }
}

/// A file put where all before it stand before it, and it before all after, keeps a listing ranked.
proof fn lemma_ranked_insert(a: Seq<(Seq<char>, u128)>, pos: int, item: (Seq<char>, u128))
    requires
        listing_ranked(a),
        0 <= pos <= a.len(),
        forall|i: int| 0 <= i < pos ==> ranks_before(#[trigger] a[i], item),
        forall|i: int| pos <= i < a.len() ==> ranks_before(item, #[trigger] a[i]),
    ensures
        listing_ranked(a.insert(pos, item)),
{
    let a2 = a.insert(pos, item);
    assert forall|i: int, j: int| 0 <= i < j < a2.len() implies ranks_before(
        #[trigger] a2[i],
        #[trigger] a2[j],
    ) by {
        let oi = if i < pos { i } else { i - 1 };
        let oj = if j < pos { j } else { j - 1 };
        if i != pos && j != pos {
            assert(ranks_before(a[oi], a[oj]));
        } else if i == pos {
            assert(ranks_before(item, a[oj]));
        } else {
            assert(ranks_before(a[oi], item));
        }
    }
}

/// A ranked listing of the heads of all files of a canonical list lists the files of its store.
proof fn lemma_listing_complete(files: FileList, listing: Seq<(Seq<char>, u128)>)
    requires
        files_canonical(files),
        listing_ranked(listing),
        same_items(listing, heads(files, files.len() as int)),
    ensures
        lists_files(store_of(files), listing),
{
    let store = store_of(files);
    let all = heads(files, files.len() as int);
    assert forall|i: int| 0 <= i < listing.len() implies store.contains_key(
        (#[trigger] listing[i]).0,
    ) && is_latest(store[listing[i].0], listing[i].1) by {
        assert(all.contains(listing[i]));
        let f = choose|f: int| 0 <= f < all.len() && all[f] == listing[i];
        lemma_store_entry(files, f);
        lemma_first_is_latest(files[f].1);
    }
    assert forall|path: Seq<char>| #[trigger] store.contains_key(path) implies exists|i: int|
        0 <= i < listing.len() && (#[trigger] listing[i]).0 == path by {
        let f = choose|f: int| 0 <= f < files.len() && (#[trigger] files[f]).0 == path;
        assert(listing.contains(all[f]));
        let i = choose|i: int| 0 <= i < listing.len() && listing[i] == all[f];
        assert(listing[i].0 == path);
    }
}

/// Puts `entry` into its place in a ranked listing that does not hold its path.
fn insert_ranked(listing: &mut Vec<SaveFile>, entry: SaveFile)
    requires
        listing_ranked(listing_model(old(listing)@)),
        forall|i: int|
            0 <= i < old(listing)@.len() ==> (#[trigger] listing_model(old(listing)@)[i]).0
                != entry@.0,
    ensures
        listing_ranked(listing_model(final(listing)@)),
        exists|pos: int|
            0 <= pos <= old(listing)@.len() && listing_model(final(listing)@) == listing_model(
                old(listing)@,
            ).insert(pos, entry@),
{
    let ghost before = listing_model(listing@);
    let ghost item = entry@;
    let mut pos: usize = 0;
    while pos < listing.len() && listing[pos].stands_before(&entry)
        invariant
            pos <= listing@.len(),
            before == listing_model(listing@),
            item == entry@,
            forall|i: int| 0 <= i < pos ==> ranks_before(#[trigger] before[i], item),
        decreases listing@.len() - pos,
    {
        pos += 1;
    }
    proof {
        assert forall|j: int| pos <= j < before.len() implies ranks_before(
            item,
            #[trigger] before[j],
        ) by {
            assert(before[pos as int].0 != item.0);
            lemma_ranks_total(before[pos as int], item);
            if j > pos {
                assert(ranks_before(before[pos as int], before[j]));
                lemma_ranks_transitive(item, before[pos as int], before[j]);
            }
        }
        lemma_ranked_insert(before, pos as int, item);
    }
    listing.insert(pos, entry);
    assert(listing_model(listing@) =~= before.insert(pos as int, item));
}

/// The versioned store: for every known save file the bytes of each of its
/// versions. A file enters the store with its first version, and no version
/// ever leaves it.
pub struct Storage {
    files: Vec<(String, Vec<(u128, Vec<u8>)>)>,
}

impl View for Storage {
    type V = Store;

    closed spec fn view(&self) -> Store {
        store_of(files_model(self.files@))
    }
}

impl Storage {
    #[verifier::type_invariant]
    closed spec fn canonical(&self) -> bool {
        files_canonical(files_model(self.files@))
    }

    /// The files of the store as they are listed in memory and in the persisted snapshot.
    pub closed spec fn files(&self) -> FileList {
        files_model(self.files@)
    }

    /// A store that knows no file.
    pub fn empty() -> (storage: Self)
        ensures
            storage@ == Map::<Seq<char>, Map<u128, Seq<u8>>>::empty(),
            storage.files() == Seq::<(Seq<char>, Seq<(u128, Seq<u8>)>)>::empty(),
    {
        let storage = Self { files: Vec::new() };
        assert(storage@ =~= Map::empty());
        assert(storage.files() =~= Seq::empty());
        storage
    }

    /// Stores the captured bytes under the capture's path and time. A capture
    /// for a path and time that the store already holds replaces the bytes.
    pub fn apply_update(&mut self, save_file_update: SaveFileUpdate)
        ensures
            final(self)@ == inserted(
                old(self)@,
                save_file_update.0@,
                save_file_update.1,
                save_file_update.2@,
            ),
    {
        proof {
            use_type_invariant(&*self);
        }
        let (path, time, data) = save_file_update;
        let mut files: Vec<(String, Vec<(u128, Vec<u8>)>)> = Vec::new();
        std::mem::swap(&mut files, &mut self.files);
        insert_capture(&mut files, path, time, data);
        self.files = files;
    }

    /// Lists the known files, each with the capture time of its most recent
    /// version, the most recently captured file first. Files of equal recency
    /// are listed in the order of their paths.
    pub fn save_files(&self) -> (listing: Vec<SaveFile>)
        ensures
            lists_files(self@, listing_model(listing@)),
            listing_model(listing@) == file_listing(self@),
    {
        proof {
            use_type_invariant(self);
        }
        let ghost files = files_model(self.files@);
        let mut listing: Vec<SaveFile> = Vec::new();
        let mut k: usize = 0;
        assert(listing_model(listing@) =~= heads(files, 0));
        while k < self.files.len()
            invariant
                k <= self.files@.len(),
                files == files_model(self.files@),
                files_canonical(files),
                listing_ranked(listing_model(listing@)),
                same_items(listing_model(listing@), heads(files, k as int)),
            decreases self.files@.len() - k,
        {
            let ghost before = listing_model(listing@);
            assert(files[k as int].1.len() > 0);
            let path = self.files[k].0.clone();
            let time = self.files[k].1[0].0;
            let entry = SaveFile::new(path, time);
            let ghost item = entry@;
            proof {
                assert forall|i: int| 0 <= i < before.len() implies (#[trigger] before[i]).0
                    != item.0 by {
                    assert(heads(files, k as int).contains(before[i]));
                    let f = choose|f: int| 0 <= f < k && heads(files, k as int)[f] == before[i];
                    assert(files[f].0 != files[k as int].0);
                }
            }
            insert_ranked(&mut listing, entry);
            proof {
                let pos = choose|pos: int|
                    0 <= pos <= before.len() && listing_model(listing@) == before.insert(
                        pos,
                        item,
                    );
                lemma_same_items_insert(before, pos, item, heads(files, k as int));
                assert(heads(files, k as int).push(item) =~= heads(files, k + 1));
            }
            k += 1;
        }
        proof {
            lemma_listing_complete(files, listing_model(listing@));
            lemma_file_listing_unique(self@, listing_model(listing@));
        }
        listing
    }

    /// Lists the versions of the file at `path`, the most recent first. An
    /// unknown path has no versions.
    pub fn save_versions(&self, path: &str) -> (versions: Vec<SaveVersion>)
        ensures
            lists_versions(history_at(self@, path@), times_model(versions@)),
            times_model(versions@) == version_times(history_at(self@, path@)),
    {
        proof {
            use_type_invariant(self);
        }
        let ghost files = files_model(self.files@);
        let mut versions: Vec<SaveVersion> = Vec::new();
        match find_file(&self.files, path) {
            Some(f) => {
                let stored = &self.files[f].1;
                let ghost list = files[f as int].1;
                proof {
                    lemma_store_entry(files, f as int);
                }
                let mut k: usize = 0;
                while k < stored.len()
                    invariant
                        k <= stored@.len(),
                        list == versions_model(stored@),
                        versions@.len() == k,
                        forall|i: int|
                            0 <= i < k ==> (#[trigger] versions@[i])@ == stored@[i].0,
                    decreases stored@.len() - k,
                {
                    versions.push(SaveVersion::new(stored[k].0));
                    k += 1;
                }
                proof {
                    let times = times_model(versions@);
                    let history = history_at(self@, path@);
                    assert(history == history_of(list));
                    assert forall|i: int, j: int| 0 <= i < j < times.len() implies times[i]
                        > times[j] by {
                        assert(list[i].0 > list[j].0);
                    }
                    assert forall|i: int| 0 <= i < times.len() implies history.contains_key(
                        #[trigger] times[i],
                    ) by {
                        lemma_history_entry(list, i);
                    }
                    assert forall|time: u128| #[trigger] history.contains_key(time) implies exists|
                        i: int,
                    |
                        0 <= i < times.len() && times[i] == time by {
                        let i = choose|i: int|
                            0 <= i < list.len() && (#[trigger] list[i]).0 == time;
                        assert(times[i] == time);
                    }
                }
            },
            None => {
                proof {
                    assert(!self@.contains_key(path@)) by {
                        if self@.contains_key(path@) {
                            let f = choose|f: int|
                                0 <= f < files.len() && (#[trigger] files[f]).0 == path@;
                            assert(self.files@[f].0@ != path@);
                        }
                    }
                }
            },
        }
        proof {
            lemma_version_times_unique(history_at(self@, path@), times_model(versions@));
        }
        versions
    }

    /// The bytes captured for `path` at `time`, if the store holds that version.
    pub fn data_of(&self, path: &str, time: u128) -> (data: Option<&[u8]>)
        ensures
            match data {
                Some(bytes) => history_at(self@, path@).contains_key(time) && bytes@ == history_at(
                    self@,
                    path@,
                )[time],
                None => !history_at(self@, path@).contains_key(time),
            },
    {
        proof {
            use_type_invariant(self);
        }
        let ghost files = files_model(self.files@);
        match find_file(&self.files, path) {
            Some(f) => {
                let stored = &self.files[f].1;
                let ghost list = files[f as int].1;
                proof {
                    lemma_store_entry(files, f as int);
                }
                let mut k: usize = 0;
                while k < stored.len()
                    invariant
                        k <= stored@.len(),
                        list == versions_model(stored@),
                        versions_descend(list),
                        history_at(self@, path@) == history_of(list),
                        forall|i: int| 0 <= i < k ==> (#[trigger] list[i]).0 != time,
                    decreases stored@.len() - k,
                {
                    if stored[k].0 == time {
                        proof {
                            lemma_history_entry(list, k as int);
                        }
                        return Some(stored[k].1.as_slice());
                    }
                    k += 1;
                }
                None
            },
            None => {
                proof {
                    assert(!self@.contains_key(path@)) by {
                        if self@.contains_key(path@) {
                            let f = choose|f: int|
                                0 <= f < files.len() && (#[trigger] files[f]).0 == path@;
                            assert(self.files@[f].0@ != path@);
                        }
                    }
                }
                None
            },
        }
    }

    /// Turns the store into the bytes of a persisted snapshot. The bytes are
    /// those that the byte format gives for the store's list of files, and
    /// they hold this store again.
    pub fn serialize(&self) -> (result: Result<Vec<u8>, SnapshotError>)
        ensures
            self@ == store_of(self.files()),
            files_canonical(self.files()),
            match result {
                Ok(bytes) => postcard_encoding(self.files()) == Some(bytes@) && snapshot_store(
                    bytes@,
                ) == Some(self@),
                Err(error) => error == SnapshotError::Codec && postcard_encoding(self.files())
                    is None,
            },
    {
        proof {
            use_type_invariant(self);
            lemma_files_deep_view(self.files);
        }
        match encode_files(&self.files) {
            Ok(bytes) => Ok(bytes),
            Err(_) => Err(SnapshotError::Codec),
        }
    }

    /// Reads a store from the bytes of a persisted snapshot: the store that
    /// the list of files in the bytes stands for. Bytes that the byte format
    /// does not read as a list of files, and a list that is not canonical,
    /// are refused.
    pub fn read_saves_from_serialized(bytes: &[u8]) -> (result: Result<Self, SnapshotError>)
        ensures
            match result {
                Ok(storage) => snapshot_store(bytes@) == Some(storage@) && postcard_decoding(
                    bytes@,
                ) == Some(storage.files()),
                Err(SnapshotError::Codec) => postcard_decoding(bytes@) is None,
                Err(SnapshotError::NotCanonical) => postcard_decoding(bytes@) is Some
                    && !files_canonical(postcard_decoding(bytes@)->0),
            },
    {
        match decode_files(bytes) {
            Ok(files) => {
                proof {
                    lemma_files_deep_view(files);
                }
                if files_are_canonical(&files) {
                    Ok(Self { files })
                } else {
                    Err(SnapshotError::NotCanonical)
                }
            },
            Err(_) => Err(SnapshotError::Codec),
        }
    }

    /// Builds a store from the captures of a directory scan, stored in turn.
    pub fn read_saves_from_files(updates: Vec<SaveFileUpdate>) -> (storage: Self)
        ensures
            storage@ == applied(Map::empty(), updates_model(updates@)),
    {
        let ghost model = updates_model(updates@);
        let mut storage = Self::empty();
        for update in it: updates
            invariant
                model == updates_model(it.seq()),
                storage@ == applied(Map::empty(), model.take(it.index() as int)),
        {
            proof {
                let i = it.index() as int;
                assert(model.take(i + 1).drop_last() =~= model.take(i));
                assert(model.take(i + 1).last() == model[i]);
            }
            storage.apply_update(update);
        }
        proof {
            assert(model.take(model.len() as int) =~= model);
        }
        storage
    }

    /// Builds the store that the engine starts with, from the bytes of the
    /// persisted snapshot, where it was read, and the captures of a scan of
    /// the watched directory, where it was scanned. The snapshot comes first;
    /// where it is missing or refused the scan is taken, and without a scan
    /// the store starts empty.
    pub fn read_saves(serialized: Option<Vec<u8>>, scanned: Option<Vec<SaveFileUpdate>>) -> (storage:
        Self)
        ensures
            storage@ == initial_store(
                match serialized {
                    Some(bytes) => Some(bytes@),
                    None => None,
                },
                match scanned {
                    Some(updates) => Some(updates_model(updates@)),
                    None => None,
                },
            ),
    {
        if let Some(bytes) = serialized {
            if let Ok(storage) = Self::read_saves_from_serialized(bytes.as_slice()) {
                return storage;
            }
        }
        match scanned {
            Some(updates) => Self::read_saves_from_files(updates),
            None => Self::empty(),
        }
    }
}

} // verus!
