//! The model of the store and of the lists it is kept in.
//!
//! A store maps each known path to the history of that file, and a history
//! maps each capture time to the bytes captured then. In memory and in the
//! persisted snapshot a store is a list of files, each with the list of its
//! versions; the list is canonical when no path occurs twice, every file has
//! at least one version, and the versions of a file run from the most recent
//! to the oldest.

use vstd::prelude::*;
use crate::path_order::{
    lemma_path_order_strict, lemma_path_order_total, lemma_path_order_transitive, path_precedes,
};

verus! {

/// The bytes of one file by capture time, in nanoseconds since the Unix epoch.
pub type History = Map<u128, Seq<u8>>;

/// The history of every known file by path.
pub type Store = Map<Seq<char>, Map<u128, Seq<u8>>>;

/// The versions of one file as a list of capture time and bytes.
pub type VersionList = Seq<(u128, Seq<u8>)>;

/// The files of a store as a list of path and versions.
pub type FileList = Seq<(Seq<char>, Seq<(u128, Seq<u8>)>)>;

/// The history that `store` holds for `path`: empty for an unknown path.
pub open spec fn history_at(store: Store, path: Seq<char>) -> History {
    if store.contains_key(path) {
        store[path]
    } else {
        Map::empty()
    }
}

/// The store after the bytes `data` were captured for `path` at `time`.
/// A capture at a time that the history already holds replaces the earlier bytes.
pub open spec fn inserted(store: Store, path: Seq<char>, time: u128, data: Seq<u8>) -> Store {
    store.insert(path, history_at(store, path).insert(time, data))
}

/// The store after each capture of `updates` was stored in turn.
pub open spec fn applied(store: Store, updates: Seq<(Seq<char>, u128, Seq<u8>)>) -> Store
    decreases updates.len(),
{
    if updates.len() == 0 {
        store
    } else {
        let last = updates.last();
        inserted(applied(store, updates.drop_last()), last.0, last.1, last.2)
    }
}

/// `time` is the most recent capture time of `history`.
pub open spec fn is_latest(history: History, time: u128) -> bool {
    &&& history.contains_key(time)
    &&& forall|other: u128| history.contains_key(other) ==> other <= time
}

/// Every path that `store` knows has at least one version.
pub open spec fn histories_nonempty(store: Store) -> bool {
    forall|path: Seq<char>| #[trigger]
        store.contains_key(path) ==> exists|time: u128| store[path].contains_key(time)
}

/// The capture times of `versions` fall strictly from each entry to the next.
pub open spec fn versions_descend(versions: VersionList) -> bool {
    forall|i: int, j: int|
        0 <= i < j < versions.len() ==> (#[trigger] versions[i]).0 > (#[trigger] versions[j]).0
}

/// No path occurs twice in `files`.
pub open spec fn paths_distinct(files: FileList) -> bool {
    forall|i: int, j: int|
        0 <= i < j < files.len() ==> (#[trigger] files[i]).0 != (#[trigger] files[j]).0
}

/// `files` is the canonical list of a store.
pub open spec fn files_canonical(files: FileList) -> bool {
    &&& paths_distinct(files)
    &&& forall|i: int|
        0 <= i < files.len() ==> (#[trigger] files[i]).1.len() > 0 && versions_descend(files[i].1)
}

/// The history that a list of versions stands for.
pub open spec fn history_of(versions: VersionList) -> History {
    Map::new(
        |time: u128| exists|i: int| 0 <= i < versions.len() && (#[trigger] versions[i]).0 == time,
        |time: u128|
            versions[choose|i: int| 0 <= i < versions.len() && (#[trigger] versions[i]).0 == time].1,
    )
}

/// The store that a list of files stands for.
pub open spec fn store_of(files: FileList) -> Store {
    Map::new(
        |path: Seq<char>| exists|i: int| 0 <= i < files.len() && (#[trigger] files[i]).0 == path,
        |path: Seq<char>|
            history_of(
                files[choose|i: int| 0 <= i < files.len() && (#[trigger] files[i]).0 == path].1,
            ),
    )
}

/// A listed file `a` stands before a listed file `b`: its most recent version
/// is the later one or, where both are of the same time, its path comes first.
pub open spec fn ranks_before(a: (Seq<char>, u128), b: (Seq<char>, u128)) -> bool {
    a.1 > b.1 || (a.1 == b.1 && path_precedes(a.0, b.0))
}

/// No two files of `store` have their most recent version from the same time.
pub open spec fn recencies_differ(store: Store) -> bool {
    forall|p: Seq<char>, q: Seq<char>, time: u128|
        #![trigger is_latest(store[p], time), is_latest(store[q], time)]
        store.contains_key(p) && store.contains_key(q) && p != q ==> !(is_latest(store[p], time)
            && is_latest(store[q], time))
}

/// Every file of `listing` stands before all that follow it.
pub open spec fn listing_ranked(listing: Seq<(Seq<char>, u128)>) -> bool {
    forall|i: int, j: int|
        0 <= i < j < listing.len() ==> ranks_before(#[trigger] listing[i], #[trigger] listing[j])
}

/// `times` lists the capture times of `history`, each once, the most recent first.
pub open spec fn lists_versions(history: History, times: Seq<u128>) -> bool {
    &&& forall|i: int, j: int| 0 <= i < j < times.len() ==> times[i] > times[j]
    &&& forall|i: int| 0 <= i < times.len() ==> history.contains_key(#[trigger] times[i])
    &&& forall|time: u128| #[trigger]
        history.contains_key(time) ==> exists|i: int| 0 <= i < times.len() && times[i] == time
}

/// `listing` lists the files of `store`, each once with the capture time of
/// its most recent version, the most recently captured file first; files of
/// equal recency stand in the order of their paths.
pub open spec fn lists_files(store: Store, listing: Seq<(Seq<char>, u128)>) -> bool {
    &&& listing_ranked(listing)
    &&& forall|i: int|
        0 <= i < listing.len() ==> store.contains_key((#[trigger] listing[i]).0) && is_latest(
            store[listing[i].0],
            listing[i].1,
        )
    &&& forall|path: Seq<char>| #[trigger]
        store.contains_key(path) ==> exists|i: int|
            0 <= i < listing.len() && (#[trigger] listing[i]).0 == path
}

/// Two lists hold the same items.
pub open spec fn same_items<T>(a: Seq<T>, b: Seq<T>) -> bool {
    &&& forall|i: int| 0 <= i < a.len() ==> b.contains(#[trigger] a[i])
    &&& forall|i: int| 0 <= i < b.len() ==> a.contains(#[trigger] b[i])
}

/// Each item of `list` comes before all that follow it in the order `before`.
pub open spec fn ordered_by<T>(list: Seq<T>, before: spec_fn(T, T) -> bool) -> bool {
    forall|i: int, j: int| 0 <= i < j < list.len() ==> before(#[trigger] list[i], #[trigger] list[j])
}

/// The listing of the files of `store`, where it has one.
pub open spec fn file_listing(store: Store) -> Seq<(Seq<char>, u128)> {
    choose|listing: Seq<(Seq<char>, u128)>| lists_files(store, listing)
}

/// The listing of the capture times of `history`, where it has one.
pub open spec fn version_times(history: History) -> Seq<u128> {
    choose|times: Seq<u128>| lists_versions(history, times)
}

/// Two lists that hold the same items, each in the same strict order, are the same list.
pub proof fn lemma_ordered_unique<T>(a: Seq<T>, b: Seq<T>, before: spec_fn(T, T) -> bool)
    requires
        ordered_by(a, before),
        ordered_by(b, before),
        same_items(a, b),
        forall|x: T, y: T| !(#[trigger] before(x, y) && before(y, x)),
    ensures
        a == b,
    decreases a.len(),
{
    if a.len() == 0 {
        if b.len() > 0 {
            assert(a.contains(b[0]));
        }
        assert(a =~= b);
    } else {
        assert(b.contains(a[0]));
        let k = choose|k: int| 0 <= k < b.len() && b[k] == a[0];
        assert(a.contains(b[0]));
        let m = choose|m: int| 0 <= m < a.len() && a[m] == b[0];
        if k > 0 {
            assert(before(b[0], b[k]));
            if m > 0 {
                assert(before(a[0], a[m]));
            }
            assert(false);
        }
        let a_rest = a.drop_first();
        let b_rest = b.drop_first();
        assert forall|i: int, j: int| 0 <= i < j < a_rest.len() implies before(
            #[trigger] a_rest[i],
            #[trigger] a_rest[j],
        ) by {
            assert(before(a[i + 1], a[j + 1]));
        }
        assert forall|i: int, j: int| 0 <= i < j < b_rest.len() implies before(
            #[trigger] b_rest[i],
            #[trigger] b_rest[j],
        ) by {
            assert(before(b[i + 1], b[j + 1]));
        }
        assert forall|i: int| 0 <= i < a_rest.len() implies b_rest.contains(#[trigger] a_rest[i]) by {
            assert(b.contains(a[i + 1]));
            let w = choose|w: int| 0 <= w < b.len() && b[w] == a[i + 1];
            assert(before(a[0], a[i + 1]));
            assert(w != 0);
            assert(b_rest[w - 1] == a_rest[i]);
        }
        assert forall|i: int| 0 <= i < b_rest.len() implies a_rest.contains(#[trigger] b_rest[i]) by {
            assert(a.contains(b[i + 1]));
            let w = choose|w: int| 0 <= w < a.len() && a[w] == b[i + 1];
            assert(before(b[0], b[i + 1]));
            assert(w != 0);
            assert(a_rest[w - 1] == b_rest[i]);
        }
        lemma_ordered_unique(a_rest, b_rest, before);
        assert(a =~= seq![a[0]] + a_rest);
        assert(b =~= seq![b[0]] + b_rest);
    }
}

/// A store has one listing of its files at most.
pub proof fn lemma_file_listing_unique(store: Store, listing: Seq<(Seq<char>, u128)>)
    requires
        lists_files(store, listing),
    ensures
        listing == file_listing(store),
{
    let other = file_listing(store);
    let before = |x: (Seq<char>, u128), y: (Seq<char>, u128)| ranks_before(x, y);
    assert forall|x: (Seq<char>, u128), y: (Seq<char>, u128)| !(#[trigger] before(x, y) && before(
        y,
        x,
    )) by {
        lemma_ranks_strict(x, y);
    }
    assert forall|i: int| 0 <= i < listing.len() implies other.contains(#[trigger] listing[i]) by {
        let path = listing[i].0;
        assert(store.contains_key(path));
        let j = choose|j: int| 0 <= j < other.len() && (#[trigger] other[j]).0 == path;
        assert(is_latest(store[path], other[j].1));
        assert(other[j] == listing[i]);
    }
    assert forall|i: int| 0 <= i < other.len() implies listing.contains(#[trigger] other[i]) by {
        let path = other[i].0;
        assert(store.contains_key(path));
        let j = choose|j: int| 0 <= j < listing.len() && (#[trigger] listing[j]).0 == path;
        assert(is_latest(store[path], listing[j].1));
        assert(listing[j] == other[i]);
    }
    assert(ordered_by(listing, before)) by {
        assert forall|i: int, j: int| 0 <= i < j < listing.len() implies before(
            #[trigger] listing[i],
            #[trigger] listing[j],
        ) by {
            assert(ranks_before(listing[i], listing[j]));
        }
    }
    assert(ordered_by(other, before)) by {
        assert forall|i: int, j: int| 0 <= i < j < other.len() implies before(
            #[trigger] other[i],
            #[trigger] other[j],
        ) by {
            assert(ranks_before(other[i], other[j]));
        }
    }
    lemma_ordered_unique(listing, other, before);
}

/// A history has one listing of its capture times at most.
pub proof fn lemma_version_times_unique(history: History, times: Seq<u128>)
    requires
        lists_versions(history, times),
    ensures
        times == version_times(history),
{
    let other = version_times(history);
    let before = |x: u128, y: u128| x > y;
    assert forall|i: int| 0 <= i < times.len() implies other.contains(#[trigger] times[i]) by {
        assert(history.contains_key(times[i]));
    }
    assert forall|i: int| 0 <= i < other.len() implies times.contains(#[trigger] other[i]) by {
        assert(history.contains_key(other[i]));
    }
    assert(ordered_by(times, before));
    assert(ordered_by(other, before));
    lemma_ordered_unique(times, other, before);
}

/// Of two listed files with different paths one stands before the other.
pub proof fn lemma_ranks_total(a: (Seq<char>, u128), b: (Seq<char>, u128))
    requires
        a.0 != b.0,
    ensures
        ranks_before(a, b) || ranks_before(b, a),
{
    lemma_path_order_total(a.0, b.0);
}

/// The order of listed files is transitive.
pub proof fn lemma_ranks_transitive(
    a: (Seq<char>, u128),
    b: (Seq<char>, u128),
    c: (Seq<char>, u128),
)
    requires
        ranks_before(a, b),
        ranks_before(b, c),
    ensures
        ranks_before(a, c),
{
    if a.1 == b.1 && b.1 == c.1 {
        lemma_path_order_transitive(a.0, b.0, c.0);
    }
}

/// No listed file stands before itself, and of two at most one stands before the other.
pub proof fn lemma_ranks_strict(a: (Seq<char>, u128), b: (Seq<char>, u128))
    ensures
        !ranks_before(a, a),
        !(ranks_before(a, b) && ranks_before(b, a)),
{
    lemma_path_order_strict(a.0, b.0);
    lemma_path_order_strict(a.0, a.0);
}

/// In a descending list each entry is the version of its own time.
pub proof fn lemma_history_entry(versions: VersionList, i: int)
    requires
        versions_descend(versions),
        0 <= i < versions.len(),
    ensures
        history_of(versions).contains_key(versions[i].0),
        history_of(versions)[versions[i].0] == versions[i].1,
{
    let time = versions[i].0;
    let j = choose|j: int| 0 <= j < versions.len() && (#[trigger] versions[j]).0 == time;
    assert(j == i) by {
        if j < i {
            assert(versions[j].0 > versions[i].0);
        } else if i < j {
            assert(versions[i].0 > versions[j].0);
        }
    }
}

/// The first entry of a descending list is the most recent version.
pub proof fn lemma_first_is_latest(versions: VersionList)
    requires
        versions_descend(versions),
        versions.len() > 0,
    ensures
        is_latest(history_of(versions), versions[0].0),
{
    lemma_history_entry(versions, 0);
    assert forall|other: u128| history_of(versions).contains_key(other) implies other
        <= versions[0].0 by {
        let j = choose|j: int| 0 <= j < versions.len() && (#[trigger] versions[j]).0 == other;
        if 0 < j {
            assert(versions[0].0 > versions[j].0);
        }
    }
}

/// In a canonical list each file stands for its own history.
pub proof fn lemma_store_entry(files: FileList, i: int)
    requires
        paths_distinct(files),
        0 <= i < files.len(),
    ensures
        store_of(files).contains_key(files[i].0),
        store_of(files)[files[i].0] == history_of(files[i].1),
{
    let path = files[i].0;
    let j = choose|j: int| 0 <= j < files.len() && (#[trigger] files[j]).0 == path;
    assert(j == i) by {
        if j < i {
            assert(files[j].0 != files[i].0);
        } else if i < j {
            assert(files[i].0 != files[j].0);
        }
    }
}

/// Putting a version into its place in a descending list captures it in the history.
pub proof fn lemma_insert_version(versions: VersionList, pos: int, time: u128, data: Seq<u8>)
    requires
        versions_descend(versions),
        0 <= pos <= versions.len(),
        forall|i: int| 0 <= i < pos ==> (#[trigger] versions[i]).0 > time,
        forall|i: int| pos <= i < versions.len() ==> (#[trigger] versions[i]).0 < time,
    ensures
        versions_descend(versions.insert(pos, (time, data))),
        history_of(versions.insert(pos, (time, data))) == history_of(versions).insert(time, data),
{
    let after = versions.insert(pos, (time, data));
    assert(versions_descend(after)) by {
        assert forall|i: int, j: int| 0 <= i < j < after.len() implies (#[trigger] after[i]).0 > (
        #[trigger] after[j]).0 by {
            let oi = if i < pos { i } else { i - 1 };
            let oj = if j < pos { j } else { j - 1 };
            if i != pos && j != pos {
                assert(versions[oi].0 > versions[oj].0);
            } else if i == pos {
                assert(versions[oj].0 < time);
            } else {
                assert(versions[oi].0 > time);
            }
        }
    }
    let left = history_of(after);
    let right = history_of(versions).insert(time, data);
    assert forall|key: u128| left.contains_key(key) == right.contains_key(key) by {
        if left.contains_key(key) {
            let j = choose|j: int| 0 <= j < after.len() && (#[trigger] after[j]).0 == key;
            if j != pos {
                let oj = if j < pos { j } else { j - 1 };
                assert(versions[oj].0 == key);
            }
        }
        if right.contains_key(key) {
            if key == time {
                assert(after[pos].0 == key);
            } else {
                let j = choose|j: int| 0 <= j < versions.len() && (#[trigger] versions[j]).0 == key;
                let nj = if j < pos { j } else { j + 1 };
                assert(after[nj].0 == key);
            }
        }
    }
    assert forall|key: u128| left.contains_key(key) implies left[key] == right[key] by {
        let j = choose|j: int| 0 <= j < after.len() && (#[trigger] after[j]).0 == key;
        lemma_history_entry(after, j);
        if j != pos {
            let oj = if j < pos { j } else { j - 1 };
            assert(versions[oj] == after[j]);
            lemma_history_entry(versions, oj);
        }
    }
    assert(left =~= right);
}

/// Replacing the bytes of a version in a descending list replaces them in the history.
pub proof fn lemma_replace_version(versions: VersionList, pos: int, data: Seq<u8>)
    requires
        versions_descend(versions),
        0 <= pos < versions.len(),
    ensures
        versions_descend(versions.update(pos, (versions[pos].0, data))),
        history_of(versions.update(pos, (versions[pos].0, data))) == history_of(versions).insert(
            versions[pos].0,
            data,
        ),
{
    let time = versions[pos].0;
    let after = versions.update(pos, (time, data));
    assert(versions_descend(after)) by {
        assert forall|i: int, j: int| 0 <= i < j < after.len() implies (#[trigger] after[i]).0 > (
        #[trigger] after[j]).0 by {
            assert(versions[i].0 > versions[j].0);
        }
    }
    let left = history_of(after);
    let right = history_of(versions).insert(time, data);
    assert forall|key: u128| left.contains_key(key) == right.contains_key(key) by {
        if left.contains_key(key) {
            let j = choose|j: int| 0 <= j < after.len() && (#[trigger] after[j]).0 == key;
            assert(versions[j].0 == key);
        }
        if right.contains_key(key) {
            if key == time {
                assert(after[pos].0 == key);
            } else {
                let j = choose|j: int| 0 <= j < versions.len() && (#[trigger] versions[j]).0 == key;
                assert(after[j].0 == key);
            }
        }
    }
    assert forall|key: u128| left.contains_key(key) implies left[key] == right[key] by {
        let j = choose|j: int| 0 <= j < after.len() && (#[trigger] after[j]).0 == key;
        lemma_history_entry(after, j);
        if j != pos {
            assert(versions[j] == after[j]);
            lemma_history_entry(versions, j);
        }
    }
    assert(left =~= right);
}

/// Giving the file at `pos` a new list of versions gives its path the history of that list.
pub proof fn lemma_replace_file(files: FileList, pos: int, versions: VersionList)
    requires
        paths_distinct(files),
        0 <= pos < files.len(),
    ensures
        paths_distinct(files.update(pos, (files[pos].0, versions))),
        store_of(files.update(pos, (files[pos].0, versions))) == store_of(files).insert(
            files[pos].0,
            history_of(versions),
        ),
{
    let path = files[pos].0;
    let after = files.update(pos, (path, versions));
    assert(paths_distinct(after)) by {
        assert forall|i: int, j: int| 0 <= i < j < after.len() implies (#[trigger] after[i]).0 != (
        #[trigger] after[j]).0 by {
            assert(files[i].0 != files[j].0);
        }
    }
    let left = store_of(after);
    let right = store_of(files).insert(path, history_of(versions));
    assert forall|key: Seq<char>| left.contains_key(key) == right.contains_key(key) by {
        if left.contains_key(key) {
            let j = choose|j: int| 0 <= j < after.len() && (#[trigger] after[j]).0 == key;
            assert(files[j].0 == key);
        }
        if right.contains_key(key) {
            if key == path {
                assert(after[pos].0 == key);
            } else {
                let j = choose|j: int| 0 <= j < files.len() && (#[trigger] files[j]).0 == key;
                assert(after[j].0 == key);
            }
        }
    }
    assert forall|key: Seq<char>| left.contains_key(key) implies left[key] == right[key] by {
        let j = choose|j: int| 0 <= j < after.len() && (#[trigger] after[j]).0 == key;
        lemma_store_entry(after, j);
        if j != pos {
            assert(files[j] == after[j]);
            lemma_store_entry(files, j);
        }
    }
    assert(left =~= right);
}

/// Appending a file with a new path adds its history to the store.
pub proof fn lemma_append_file(files: FileList, path: Seq<char>, versions: VersionList)
    requires
        paths_distinct(files),
        forall|i: int| 0 <= i < files.len() ==> (#[trigger] files[i]).0 != path,
    ensures
        paths_distinct(files.push((path, versions))),
        store_of(files.push((path, versions))) == store_of(files).insert(
            path,
            history_of(versions),
        ),
        !store_of(files).contains_key(path),
{
    let after = files.push((path, versions));
    assert(paths_distinct(after)) by {
        assert forall|i: int, j: int| 0 <= i < j < after.len() implies (#[trigger] after[i]).0 != (
        #[trigger] after[j]).0 by {
            if j < files.len() {
                assert(files[i].0 != files[j].0);
            } else {
                assert(files[i].0 != path);
            }
        }
    }
    let left = store_of(after);
    let right = store_of(files).insert(path, history_of(versions));
    assert forall|key: Seq<char>| left.contains_key(key) == right.contains_key(key) by {
        if left.contains_key(key) {
            let j = choose|j: int| 0 <= j < after.len() && (#[trigger] after[j]).0 == key;
            if j < files.len() {
                assert(files[j].0 == key);
            }
        }
        if right.contains_key(key) {
            if key == path {
                assert(after[files.len() as int].0 == key);
            } else {
                let j = choose|j: int| 0 <= j < files.len() && (#[trigger] files[j]).0 == key;
                assert(after[j].0 == key);
            }
        }
    }
    assert forall|key: Seq<char>| left.contains_key(key) implies left[key] == right[key] by {
        let j = choose|j: int| 0 <= j < after.len() && (#[trigger] after[j]).0 == key;
        lemma_store_entry(after, j);
        if j < files.len() {
            assert(files[j] == after[j]);
            lemma_store_entry(files, j);
        }
    }
    assert(left =~= right);
}

/// Capturing a path at the same time twice leaves its history with one
/// version at that time, which holds the bytes captured later; the first
/// capture leaves no other trace.
pub proof fn lemma_capture_twice(
    store: Store,
    path: Seq<char>,
    time: u128,
    first: Seq<u8>,
    second: Seq<u8>,
)
    ensures
        inserted(inserted(store, path, time, first), path, time, second) == inserted(
            store,
            path,
            time,
            second,
        ),
        history_at(inserted(inserted(store, path, time, first), path, time, second), path)[time]
            == second,
        history_at(inserted(inserted(store, path, time, first), path, time, second), path).dom()
            == history_at(inserted(store, path, time, first), path).dom(),
        first == second ==> inserted(inserted(store, path, time, first), path, time, second)
            == inserted(store, path, time, first),
{
    let once = inserted(store, path, time, first);
    let twice = inserted(once, path, time, second);
    assert(history_at(once, path).insert(time, second) =~= history_at(store, path).insert(
        time,
        second,
    ));
    assert(twice =~= inserted(store, path, time, second));
    assert(history_at(twice, path).dom() =~= history_at(once, path).dom());
}

/// A listing of files never rises in recency, and it falls strictly from each
/// file to the next where no two files of the store are equally recent.
pub proof fn lemma_listing_descends(store: Store, listing: Seq<(Seq<char>, u128)>)
    requires
        lists_files(store, listing),
    ensures
        forall|i: int, j: int|
            0 <= i < j < listing.len() ==> (#[trigger] listing[i]).1 >= (#[trigger] listing[j]).1,
        recencies_differ(store) ==> forall|i: int, j: int|
            0 <= i < j < listing.len() ==> (#[trigger] listing[i]).1 > (#[trigger] listing[j]).1,
{
    assert forall|i: int, j: int| 0 <= i < j < listing.len() implies (#[trigger] listing[i]).1 >= (
    #[trigger] listing[j]).1 by {
        assert(ranks_before(listing[i], listing[j]));
    }
    if recencies_differ(store) {
        assert forall|i: int, j: int| 0 <= i < j < listing.len() implies (#[trigger] listing[i]).1
            > (#[trigger] listing[j]).1 by {
            assert(ranks_before(listing[i], listing[j]));
            lemma_ranks_strict(listing[i], listing[j]);
            if listing[i].1 == listing[j].1 {
                assert(listing[i].0 != listing[j].0);
                assert(is_latest(store[listing[i].0], listing[i].1));
                assert(is_latest(store[listing[j].0], listing[j].1));
            }
        }
    }
}

/// A store whose files are listed holds at least one version of every file it knows.
pub proof fn lemma_listed_files_have_versions(store: Store, listing: Seq<(Seq<char>, u128)>)
    requires
        lists_files(store, listing),
    ensures
        histories_nonempty(store),
{
    assert forall|path: Seq<char>| #[trigger] store.contains_key(path) implies exists|time: u128|
        store[path].contains_key(time) by {
        let i = choose|i: int| 0 <= i < listing.len() && (#[trigger] listing[i]).0 == path;
        assert(is_latest(store[path], listing[i].1));
    }
}

} // verus!
