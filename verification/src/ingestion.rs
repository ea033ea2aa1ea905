//! The model of ingestion: what a drain of the queue of captures does to the
//! store and to the ignore set.
//!
//! A capture whose path is in the ignore set is discarded and takes the path
//! out of the set; every other capture is stored. So of the captures that a
//! drain handles, the first for each ignored path is suppressed and all the
//! others are stored, in the order of the queue.

use vstd::prelude::*;
use crate::history::{history_at, inserted, Store};

verus! {

/// A capture in the queue: path, modification time and content.
pub type Capture = (Seq<char>, u128, Seq<u8>);

/// The state of the engine: the store, the paths whose next capture is to be
/// discarded, and the queue of captures that wait to be handled.
pub struct Engine {
    pub store: Store,
    pub ignored: Set<Seq<char>>,
    pub pending: Seq<(Seq<char>, u128, Seq<u8>)>,
}

/// The capture at `index` of `captures` is discarded when the captures are
/// handled in turn with `ignored` as the ignore set at the start: its path is
/// ignored and no capture before it has the same path.
pub open spec fn is_suppressed(ignored: Set<Seq<char>>, captures: Seq<Capture>, index: int) -> bool {
    &&& ignored.contains(captures[index].0)
    &&& forall|j: int| 0 <= j < index ==> (#[trigger] captures[j]).0 != captures[index].0
}

/// The store after `captures` were handled in turn: each capture that is not
/// suppressed is stored.
pub open spec fn drained_store(store: Store, ignored: Set<Seq<char>>, captures: Seq<Capture>) -> Store
    decreases captures.len(),
{
    if captures.len() == 0 {
        store
    } else {
        let before = drained_store(store, ignored, captures.drop_last());
        let last = captures.last();
        if is_suppressed(ignored, captures, captures.len() - 1) {
            before
        } else {
            inserted(before, last.0, last.1, last.2)
        }
    }
}

/// The ignore set after `captures` were handled: the paths of `ignored` for
/// which no capture came.
pub open spec fn remaining_ignored(ignored: Set<Seq<char>>, captures: Seq<Capture>) -> Set<
    Seq<char>,
> {
    Set::new(
        |path: Seq<char>|
            ignored.contains(path) && forall|j: int|
                0 <= j < captures.len() ==> (#[trigger] captures[j]).0 != path,
    )
}

/// At least one of `captures` is stored when they are handled in turn.
pub open spec fn stores_any(ignored: Set<Seq<char>>, captures: Seq<Capture>) -> bool {
    exists|i: int| 0 <= i < captures.len() && !#[trigger] is_suppressed(ignored, captures, i)
}

/// One drain took the engine from `before` to `after`: it handled the first
/// `count` captures of the queue in turn, left the others in the queue in
/// their order, and reports in `stored` whether it stored any. A drain that
/// leaves captures in the queue has handled at least one, and stored the last
/// one it handled.
pub open spec fn drains(before: Engine, after: Engine, count: int, stored: bool) -> bool {
    let handled = before.pending.take(count);
    &&& 0 <= count <= before.pending.len()
    &&& after.pending == before.pending.skip(count)
    &&& after.store == drained_store(before.store, before.ignored, handled)
    &&& after.ignored == remaining_ignored(before.ignored, handled)
    &&& stored == stores_any(before.ignored, handled)
    &&& count < before.pending.len() ==> count > 0 && !is_suppressed(
        before.ignored,
        before.pending,
        count - 1,
    )
}

/// The drain stopped at the first capture that it stored: every capture
/// handled before the last one was suppressed.
pub open spec fn stops_at_first_stored(before: Engine, count: int) -> bool {
    forall|j: int| 0 <= j < count - 1 ==> #[trigger] is_suppressed(before.ignored, before.pending, j)
}

/// Whether a capture is suppressed depends only on the captures up to it.
pub proof fn lemma_suppressed_in_prefix(
    ignored: Set<Seq<char>>,
    captures: Seq<Capture>,
    count: int,
    index: int,
)
    requires
        0 <= index < count <= captures.len(),
    ensures
        is_suppressed(ignored, captures.take(count), index) == is_suppressed(
            ignored,
            captures,
            index,
        ),
{
    let prefix = captures.take(count);
    assert(prefix[index] == captures[index]);
    if is_suppressed(ignored, captures, index) {
        assert forall|j: int| 0 <= j < index implies (#[trigger] prefix[j]).0
            != prefix[index].0 by {
            assert(captures[j].0 != captures[index].0);
        }
    }
    if is_suppressed(ignored, prefix, index) {
        assert forall|j: int| 0 <= j < index implies (#[trigger] captures[j]).0
            != captures[index].0 by {
            assert(prefix[j].0 != prefix[index].0);
        }
    }
}

/// What handling one more capture does: the capture at `count` is discarded
/// exactly if the ignore set holds its path by then; its path leaves the
/// ignore set; it is stored unless it is discarded.
pub proof fn lemma_drain_step(
    store: Store,
    ignored: Set<Seq<char>>,
    captures: Seq<Capture>,
    count: int,
)
    requires
        0 <= count < captures.len(),
    ensures
        remaining_ignored(ignored, captures.take(count)).contains(captures[count].0)
            == is_suppressed(ignored, captures, count),
        remaining_ignored(ignored, captures.take(count + 1)) == remaining_ignored(
            ignored,
            captures.take(count),
        ).remove(captures[count].0),
        drained_store(store, ignored, captures.take(count + 1)) == if is_suppressed(
            ignored,
            captures,
            count,
        ) {
            drained_store(store, ignored, captures.take(count))
        } else {
            inserted(
                drained_store(store, ignored, captures.take(count)),
                captures[count].0,
                captures[count].1,
                captures[count].2,
            )
        },
        stores_any(ignored, captures.take(count + 1)) == (stores_any(
            ignored,
            captures.take(count),
        ) || !is_suppressed(ignored, captures, count)),
{
    let shorter = captures.take(count);
    let longer = captures.take(count + 1);
    let path = captures[count].0;
    assert(longer.drop_last() =~= shorter);
    assert(longer.last() == captures[count]);
    lemma_suppressed_in_prefix(ignored, captures, count + 1, count);
    // the ignore set holds the path exactly if the capture is suppressed
    if is_suppressed(ignored, captures, count) {
        assert forall|j: int| 0 <= j < shorter.len() implies (#[trigger] shorter[j]).0 != path by {
            assert(captures[j].0 != path);
        }
    }
    if remaining_ignored(ignored, shorter).contains(path) {
        assert forall|j: int| 0 <= j < count implies (#[trigger] captures[j]).0 != path by {
            assert(shorter[j].0 != path);
        }
    }
    // the path leaves the ignore set
    let left = remaining_ignored(ignored, longer);
    let right = remaining_ignored(ignored, shorter).remove(path);
    assert forall|p: Seq<char>| left.contains(p) == right.contains(p) by {
        if left.contains(p) {
            assert(longer[count].0 != p);
            assert forall|j: int| 0 <= j < shorter.len() implies (#[trigger] shorter[j]).0
                != p by {
                assert(longer[j].0 != p);
            }
        }
        if right.contains(p) {
            assert forall|j: int| 0 <= j < longer.len() implies (#[trigger] longer[j]).0 != p by {
                if j < count {
                    assert(shorter[j].0 != p);
                }
            }
        }
    }
    assert(left =~= right);
    // whether anything was stored
    if stores_any(ignored, shorter) {
        let i = choose|i: int| 0 <= i < shorter.len() && !#[trigger] is_suppressed(ignored, shorter, i);
        lemma_suppressed_in_prefix(ignored, captures, count, i);
        lemma_suppressed_in_prefix(ignored, captures, count + 1, i);
        assert(!is_suppressed(ignored, longer, i));
    }
    if !is_suppressed(ignored, captures, count) {
        assert(!is_suppressed(ignored, longer, count));
    }
    if stores_any(ignored, longer) {
        let i = choose|i: int| 0 <= i < longer.len() && !#[trigger] is_suppressed(ignored, longer, i);
        lemma_suppressed_in_prefix(ignored, captures, count + 1, i);
        if i < count {
            lemma_suppressed_in_prefix(ignored, captures, count, i);
            assert(!is_suppressed(ignored, shorter, i));
        }
    }
}

/// Handling `later` after `earlier` is handling the two in one go: a capture
/// of `later` is discarded in the one case exactly if it is in the other, and
/// the store, the ignore set and whether anything was stored come out the same.
pub proof fn lemma_drain_continues(
    store: Store,
    ignored: Set<Seq<char>>,
    earlier: Seq<Capture>,
    later: Seq<Capture>,
)
    ensures
        forall|i: int|
            0 <= i < later.len() ==> #[trigger] is_suppressed(
                remaining_ignored(ignored, earlier),
                later,
                i,
            ) == is_suppressed(ignored, earlier + later, earlier.len() + i),
        remaining_ignored(remaining_ignored(ignored, earlier), later) == remaining_ignored(
            ignored,
            earlier + later,
        ),
        drained_store(
            drained_store(store, ignored, earlier),
            remaining_ignored(ignored, earlier),
            later,
        ) == drained_store(store, ignored, earlier + later),
        stores_any(ignored, earlier + later) == (stores_any(ignored, earlier) || stores_any(
            remaining_ignored(ignored, earlier),
            later,
        )),
    decreases later.len(),
{
    let all = earlier + later;
    let rest = remaining_ignored(ignored, earlier);
    assert forall|i: int| 0 <= i < later.len() implies #[trigger] is_suppressed(rest, later, i)
        == is_suppressed(ignored, all, earlier.len() + i) by {
        let path = later[i].0;
        assert(all[earlier.len() + i] == later[i]);
        if is_suppressed(rest, later, i) {
            assert forall|j: int| 0 <= j < earlier.len() + i implies (#[trigger] all[j]).0
                != path by {
                if j < earlier.len() {
                    assert(earlier[j].0 != path);
                } else {
                    assert(later[j - earlier.len()].0 != path);
                }
            }
        }
        if is_suppressed(ignored, all, earlier.len() + i) {
            assert forall|j: int| 0 <= j < earlier.len() implies (#[trigger] earlier[j]).0
                != path by {
                assert(all[j].0 != path);
            }
            assert forall|j: int| 0 <= j < i implies (#[trigger] later[j]).0 != path by {
                assert(all[earlier.len() + j].0 != path);
            }
        }
    }
    let left = remaining_ignored(rest, later);
    let right = remaining_ignored(ignored, all);
    assert forall|p: Seq<char>| left.contains(p) == right.contains(p) by {
        if left.contains(p) {
            assert forall|j: int| 0 <= j < all.len() implies (#[trigger] all[j]).0 != p by {
                if j < earlier.len() {
                    assert(earlier[j].0 != p);
                } else {
                    assert(later[j - earlier.len()].0 != p);
                }
            }
        }
        if right.contains(p) {
            assert forall|j: int| 0 <= j < earlier.len() implies (#[trigger] earlier[j]).0
                != p by {
                assert(all[j].0 != p);
            }
            assert forall|j: int| 0 <= j < later.len() implies (#[trigger] later[j]).0 != p by {
                assert(all[earlier.len() + j].0 != p);
            }
        }
    }
    assert(left =~= right);
    if later.len() == 0 {
        assert(all =~= earlier);
    } else {
        lemma_drain_continues(store, ignored, earlier, later.drop_last());
        assert(all.drop_last() =~= earlier + later.drop_last());
        assert(all.last() == later.last());
        assert(is_suppressed(rest, later, later.len() - 1) == is_suppressed(
            ignored,
            all,
            all.len() - 1,
        ));
    }
    if stores_any(ignored, all) {
        let i = choose|i: int| 0 <= i < all.len() && !#[trigger] is_suppressed(ignored, all, i);
        if i < earlier.len() {
            assert(all.take(earlier.len() as int) =~= earlier);
            lemma_suppressed_in_prefix(ignored, all, earlier.len() as int, i);
            assert(!is_suppressed(ignored, earlier, i));
        } else {
            assert(!is_suppressed(rest, later, i - earlier.len()));
        }
    }
    if stores_any(ignored, earlier) {
        let i = choose|i: int|
            0 <= i < earlier.len() && !#[trigger] is_suppressed(ignored, earlier, i);
        assert(all.take(earlier.len() as int) =~= earlier);
        lemma_suppressed_in_prefix(ignored, all, earlier.len() as int, i);
        assert(!is_suppressed(ignored, all, i));
    }
    if stores_any(rest, later) {
        let i = choose|i: int| 0 <= i < later.len() && !#[trigger] is_suppressed(rest, later, i);
        assert(!is_suppressed(ignored, all, earlier.len() + i));
    }
}

/// A path is marked in the ignore set, and then a capture for it comes
/// before any other capture for it: that capture leaves the store as it was.
/// A second capture for the path, whatever was handled between the two, is
/// stored.
pub proof fn lemma_suppressed_once(
    store: Store,
    ignored: Set<Seq<char>>,
    earlier: Seq<Capture>,
    first: Capture,
    between: Seq<Capture>,
    second: Capture,
)
    requires
        ignored.contains(first.0),
        forall|j: int| 0 <= j < earlier.len() ==> (#[trigger] earlier[j]).0 != first.0,
        second.0 == first.0,
    ensures
        drained_store(store, ignored, earlier.push(first)) == drained_store(
            store,
            ignored,
            earlier,
        ),
        !remaining_ignored(ignored, earlier.push(first)).contains(first.0),
        drained_store(store, ignored, (earlier.push(first) + between).push(second)) == inserted(
            drained_store(store, ignored, earlier.push(first) + between),
            second.0,
            second.1,
            second.2,
        ),
{
    let one = earlier.push(first);
    assert(one.drop_last() =~= earlier);
    assert(is_suppressed(ignored, one, one.len() - 1)) by {
        assert forall|j: int| 0 <= j < one.len() - 1 implies (#[trigger] one[j]).0
            != one[one.len() - 1].0 by {
            assert(earlier[j].0 != first.0);
        }
    }
    assert(one[earlier.len() as int].0 == first.0);
    let two = (one + between).push(second);
    assert(two.drop_last() =~= one + between);
    assert(!is_suppressed(ignored, two, two.len() - 1)) by {
        assert(two[earlier.len() as int].0 == two[two.len() - 1].0);
    }
}

/// Two drains in a row are one drain: the captures that the first left in
/// the queue are those that the second handles, in their order, and nothing
/// is handled twice or lost between them.
pub proof fn lemma_drains_in_turn(
    start: Engine,
    middle: Engine,
    end: Engine,
    first_count: int,
    first_stored: bool,
    second_count: int,
    second_stored: bool,
)
    requires
        drains(start, middle, first_count, first_stored),
        drains(middle, end, second_count, second_stored),
    ensures
        drains(start, end, first_count + second_count, first_stored || second_stored),
{
    let earlier = start.pending.take(first_count);
    let later = middle.pending.take(second_count);
    let total = first_count + second_count;
    assert(earlier + later =~= start.pending.take(total));
    assert(end.pending =~= start.pending.skip(total));
    lemma_drain_continues(start.store, start.ignored, earlier, later);
    if total < start.pending.len() {
        assert(second_count < middle.pending.len());
        assert(is_suppressed(middle.ignored, later, second_count - 1) == is_suppressed(
            start.ignored,
            earlier + later,
            total - 1,
        ));
        lemma_suppressed_in_prefix(middle.ignored, middle.pending, second_count, second_count - 1);
        lemma_suppressed_in_prefix(start.ignored, start.pending, total, total - 1);
    }
}

/// A drain loses no capture: the captures it handled followed by those it
/// left in the queue are the queue as it was.
pub proof fn lemma_drain_loses_nothing(before: Engine, after: Engine, count: int, stored: bool)
    requires
        drains(before, after, count, stored),
    ensures
        before.pending == before.pending.take(count) + after.pending,
{
    assert(before.pending =~= before.pending.take(count) + before.pending.skip(count));
}

/// A drain of a queue that is not empty handles at least one capture, so
/// that drains in a row empty the queue.
pub proof fn lemma_drain_makes_progress(before: Engine, after: Engine, count: int, stored: bool)
    requires
        drains(before, after, count, stored),
        before.pending.len() > 0,
    ensures
        count > 0,
        after.pending.len() < before.pending.len(),
{
}

/// Handling captures stores nothing but captures: a version that the store
/// holds afterwards was in the store before or is the path and time of one
/// of the captures.
pub proof fn lemma_stores_only_captures(
    store: Store,
    ignored: Set<Seq<char>>,
    captures: Seq<Capture>,
    path: Seq<char>,
    time: u128,
)
    requires
        history_at(drained_store(store, ignored, captures), path).contains_key(time),
    ensures
        history_at(store, path).contains_key(time) || exists|i: int|
            0 <= i < captures.len() && (#[trigger] captures[i]).0 == path && captures[i].1
                == time,
    decreases captures.len(),
{
    if captures.len() > 0 {
        let shorter = captures.drop_last();
        let last = captures.last();
        if history_at(drained_store(store, ignored, shorter), path).contains_key(time) {
            lemma_stores_only_captures(store, ignored, shorter, path, time);
            if !history_at(store, path).contains_key(time) {
                let i = choose|i: int|
                    0 <= i < shorter.len() && (#[trigger] shorter[i]).0 == path && shorter[i].1
                        == time;
                assert(captures[i].0 == path && captures[i].1 == time);
            }
        } else {
            assert(captures[captures.len() - 1].0 == path && captures[captures.len() - 1].1
                == time);
        }
    }
}

} // verus!
