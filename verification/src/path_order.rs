//! A total order on save paths.
//!
//! Paths are ordered as their UTF-8 bytes are, byte by byte, a proper prefix
//! coming first. The order only serves to list files with equal recency in a
//! fixed sequence.

use vstd::prelude::*;
use vstd::utf8::*;

verus! {

/// How one path stands to another in the order of paths.
#[derive(Clone, Copy, Debug, PartialEq, Eq, Structural)]
pub enum PathOrder {
    /// The first path comes strictly before the second.
    Before,
    /// The two paths are the same.
    Same,
    /// The first path comes strictly after the second.
    After,
}

/// `a` comes strictly before `b` in the lexicographic order of bytes.
pub open spec fn bytes_precede(a: Seq<u8>, b: Seq<u8>) -> bool
    decreases a.len(),
{
    if b.len() == 0 {
        false
    } else if a.len() == 0 {
        true
    } else if a[0] != b[0] {
        a[0] < b[0]
    } else {
        bytes_precede(a.drop_first(), b.drop_first())
    }
}

/// Path `p` comes strictly before path `q`.
pub open spec fn path_precedes(p: Seq<char>, q: Seq<char>) -> bool {
    bytes_precede(encode_utf8(p), encode_utf8(q))
}

/// No byte string precedes itself.
pub proof fn lemma_bytes_irreflexive(a: Seq<u8>)
    ensures
        !bytes_precede(a, a),
    decreases a.len(),
{
    if a.len() > 0 {
        lemma_bytes_irreflexive(a.drop_first());
    }
}

/// Of two byte strings at most one precedes the other.
pub proof fn lemma_bytes_asymmetric(a: Seq<u8>, b: Seq<u8>)
    ensures
        !(bytes_precede(a, b) && bytes_precede(b, a)),
    decreases a.len(),
{
    if a.len() > 0 && b.len() > 0 && a[0] == b[0] {
        lemma_bytes_asymmetric(a.drop_first(), b.drop_first());
    }
}

/// Two different byte strings are ordered one way or the other.
pub proof fn lemma_bytes_total(a: Seq<u8>, b: Seq<u8>)
    requires
        a != b,
    ensures
        bytes_precede(a, b) || bytes_precede(b, a),
    decreases a.len(),
{
    if a.len() > 0 && b.len() > 0 && a[0] == b[0] {
        if a.drop_first() == b.drop_first() {
            assert(a =~= seq![a[0]] + a.drop_first());
            assert(b =~= seq![b[0]] + b.drop_first());
        }
        lemma_bytes_total(a.drop_first(), b.drop_first());
    } else if a.len() == 0 && b.len() == 0 {
        assert(a =~= b);
    }
}

/// The order of byte strings is transitive.
pub proof fn lemma_bytes_transitive(a: Seq<u8>, b: Seq<u8>, c: Seq<u8>)
    requires
        bytes_precede(a, b),
        bytes_precede(b, c),
    ensures
        bytes_precede(a, c),
    decreases a.len(),
{
    if a.len() > 0 && a[0] == b[0] && b[0] == c[0] {
        lemma_bytes_transitive(a.drop_first(), b.drop_first(), c.drop_first());
    }
}

/// No path precedes itself, and of two paths at most one precedes the other.
pub proof fn lemma_path_order_strict(p: Seq<char>, q: Seq<char>)
    ensures
        !path_precedes(p, p),
        !(path_precedes(p, q) && path_precedes(q, p)),
{
    lemma_bytes_irreflexive(encode_utf8(p));
    lemma_bytes_asymmetric(encode_utf8(p), encode_utf8(q));
}

/// Two different paths are ordered one way or the other.
pub proof fn lemma_path_order_total(p: Seq<char>, q: Seq<char>)
    requires
        p != q,
    ensures
        path_precedes(p, q) || path_precedes(q, p),
{
    encode_utf8_decode_utf8(p);
    encode_utf8_decode_utf8(q);
    lemma_bytes_total(encode_utf8(p), encode_utf8(q));
}

/// The order of paths is transitive.
pub proof fn lemma_path_order_transitive(p: Seq<char>, q: Seq<char>, r: Seq<char>)
    requires
        path_precedes(p, q),
        path_precedes(q, r),
    ensures
        path_precedes(p, r),
{
    lemma_bytes_transitive(encode_utf8(p), encode_utf8(q), encode_utf8(r));
}

/// Dropping a common first byte does not change how two byte strings compare.
proof fn lemma_skip_common_byte(a: Seq<u8>, b: Seq<u8>, i: int)
    requires
        0 <= i < a.len(),
        i < b.len(),
        a[i] == b[i],
    ensures
        bytes_precede(a.skip(i), b.skip(i)) == bytes_precede(a.skip(i + 1), b.skip(i + 1)),
        (a.skip(i) == b.skip(i)) == (a.skip(i + 1) == b.skip(i + 1)),
{
    assert(a.skip(i).drop_first() =~= a.skip(i + 1));
    assert(b.skip(i).drop_first() =~= b.skip(i + 1));
    assert(a.skip(i)[0] == a[i]);
    assert(b.skip(i)[0] == b[i]);
    if a.skip(i + 1) == b.skip(i + 1) {
        assert(a.skip(i) =~= seq![a[i]] + a.skip(i + 1));
        assert(b.skip(i) =~= seq![b[i]] + b.skip(i + 1));
    }
}

/// Compares two paths in the order of paths.
pub fn compare_paths(a: &str, b: &str) -> (order: PathOrder)
    ensures
        order is Same <==> a@ == b@,
        order is Before <==> path_precedes(a@, b@),
        order is After <==> path_precedes(b@, a@),
{
    let x = a.as_bytes();
    let y = b.as_bytes();
    proof {
        encode_utf8_decode_utf8(a@);
        encode_utf8_decode_utf8(b@);
        lemma_bytes_asymmetric(x@, y@);
        lemma_bytes_irreflexive(x@);
        assert(x@.skip(0) =~= x@);
        assert(y@.skip(0) =~= y@);
    }
    let mut i: usize = 0;
    while i < x.len() && i < y.len()
        invariant
            i <= x.len(),
            i <= y.len(),
            bytes_precede(x@, y@) == bytes_precede(x@.skip(i as int), y@.skip(i as int)),
            bytes_precede(y@, x@) == bytes_precede(y@.skip(i as int), x@.skip(i as int)),
            (x@ == y@) == (x@.skip(i as int) == y@.skip(i as int)),
            x@ == encode_utf8(a@),
            y@ == encode_utf8(b@),
        decreases x.len() - i,
    {
        if x[i] != y[i] {
            proof {
                assert(x@.skip(i as int)[0] == x@[i as int]);
                assert(y@.skip(i as int)[0] == y@[i as int]);
                lemma_bytes_asymmetric(x@, y@);
            }
            if x[i] < y[i] {
                return PathOrder::Before;
            } else {
                return PathOrder::After;
            }
        }
        proof {
            lemma_skip_common_byte(x@, y@, i as int);
            lemma_skip_common_byte(y@, x@, i as int);
        }
        i += 1;
    }
    proof {
        assert(x@.skip(i as int).len() == x.len() - i);
        assert(y@.skip(i as int).len() == y.len() - i);
        if x.len() == y.len() {
            assert(x@.skip(i as int) =~= y@.skip(i as int));
        }
    }
    if x.len() == y.len() {
        PathOrder::Same
    } else if x.len() < y.len() {
        PathOrder::Before
    } else {
        PathOrder::After
    }
}

} // verus!
