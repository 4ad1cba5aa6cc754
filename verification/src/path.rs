//! The order in which paths are kept and listed: byte-wise lexicographic
//! order of their UTF-8 encoding.

use vstd::prelude::*;
use vstd::string::*;
use vstd::utf8::*;

verus! {

/// Strict lexicographic order on byte strings.
pub open spec fn bytes_lt(a: Seq<u8>, b: Seq<u8>) -> bool
    decreases a.len(),
{
    if b.len() == 0 {
        false
    } else if a.len() == 0 {
        true
    } else if a[0] != b[0] {
        a[0] < b[0]
    } else {
        bytes_lt(a.drop_first(), b.drop_first())
    }
}

/// The bytes by which a path is ordered.
pub open spec fn path_key(p: Seq<char>) -> Seq<u8> {
    encode_utf8(p)
}

/// `a` comes strictly before `b`.
pub open spec fn path_lt(a: Seq<char>, b: Seq<char>) -> bool {
    bytes_lt(path_key(a), path_key(b))
}

/// A sequence of paths in strictly ascending order.
pub open spec fn ascending(paths: Seq<Seq<char>>) -> bool {
    forall|i: int, j: int| 0 <= i < j < paths.len() ==> path_lt(#[trigger] paths[i], #[trigger] paths[j])
}

pub proof fn lemma_bytes_lt_irreflexive(a: Seq<u8>)
    ensures
        !bytes_lt(a, a),
    decreases a.len(),
{
    if a.len() > 0 {
        lemma_bytes_lt_irreflexive(a.drop_first());
    }
}

pub proof fn lemma_bytes_lt_transitive(a: Seq<u8>, b: Seq<u8>, c: Seq<u8>)
    requires
        bytes_lt(a, b),
        bytes_lt(b, c),
    ensures
        bytes_lt(a, c),
    decreases a.len(),
{
    if a.len() > 0 && b.len() > 0 && c.len() > 0 {
        if a[0] == b[0] && b[0] == c[0] {
            lemma_bytes_lt_transitive(a.drop_first(), b.drop_first(), c.drop_first());
        }
    }
}

pub proof fn lemma_bytes_lt_total(a: Seq<u8>, b: Seq<u8>)
    ensures
        bytes_lt(a, b) || bytes_lt(b, a) || a == b,
    decreases a.len(),
{
    if a.len() > 0 && b.len() > 0 {
        if a[0] == b[0] {
            lemma_bytes_lt_total(a.drop_first(), b.drop_first());
            if a.drop_first() == b.drop_first() {
                assert(a =~= seq![a[0]] + a.drop_first());
                assert(b =~= seq![b[0]] + b.drop_first());
            }
        }
    } else if a.len() == 0 && b.len() == 0 {
        assert(a =~= b);
    }
}

/// Two paths with the same key are the same path.
pub proof fn lemma_path_key_injective(a: Seq<char>, b: Seq<char>)
    requires
        path_key(a) == path_key(b),
    ensures
        a == b,
{
    encode_utf8_decode_utf8(a);
    encode_utf8_decode_utf8(b);
}

/// No path comes before itself.
pub proof fn lemma_path_lt_irreflexive(a: Seq<char>)
    ensures
        !path_lt(a, a),
{
    lemma_bytes_lt_irreflexive(path_key(a));
}

/// The order is transitive.
pub proof fn lemma_path_lt_transitive(a: Seq<char>, b: Seq<char>, c: Seq<char>)
    requires
        path_lt(a, b),
        path_lt(b, c),
    ensures
        path_lt(a, c),
{
    lemma_bytes_lt_transitive(path_key(a), path_key(b), path_key(c));
}

/// No two paths come before each other.
pub proof fn lemma_path_lt_asymmetric(a: Seq<char>, b: Seq<char>)
    requires
        path_lt(a, b),
    ensures
        !path_lt(b, a),
        a != b,
{
    lemma_path_lt_irreflexive(a);
    if path_lt(b, a) {
        lemma_path_lt_transitive(a, b, a);
    }
}

/// Any two distinct paths are ordered.
pub proof fn lemma_path_lt_total(a: Seq<char>, b: Seq<char>)
    ensures
        path_lt(a, b) || path_lt(b, a) || a == b,
{
    lemma_bytes_lt_total(path_key(a), path_key(b));
    if path_key(a) == path_key(b) {
        lemma_path_key_injective(a, b);
    }
}

/// How one path stands to another in the order.
#[derive(Clone, Copy, Debug, PartialEq, Eq, Structural)]
pub enum PathOrder {
    Before,
    Same,
    After,
}

/// Compares two paths.
pub fn path_order(a: &str, b: &str) -> (r: PathOrder)
    ensures
        r == PathOrder::Before <==> path_lt(a@, b@),
        r == PathOrder::Same <==> a@ == b@,
        r == PathOrder::After <==> path_lt(b@, a@),
{
    let x = a.as_bytes();
    let y = b.as_bytes();
    let n: usize = x.len();
    let m: usize = y.len();
    let mut i: usize = 0;
    assert(x@.skip(0) =~= x@);
    assert(y@.skip(0) =~= y@);
    while i < n && i < m
        invariant
            n == x@.len(),
            m == y@.len(),
            i <= n,
            i <= m,
            x@ == path_key(a@),
            y@ == path_key(b@),
            x@.take(i as int) =~= y@.take(i as int),
            bytes_lt(x@, y@) == bytes_lt(x@.skip(i as int), y@.skip(i as int)),
            bytes_lt(y@, x@) == bytes_lt(y@.skip(i as int), x@.skip(i as int)),
        decreases n - i,
    {
        let p: u8 = x[i];
        let q: u8 = y[i];
        proof {
            assert(x@.skip(i as int)[0] == p);
            assert(y@.skip(i as int)[0] == q);
            assert(x@.skip(i as int).drop_first() =~= x@.skip(i + 1));
            assert(y@.skip(i as int).drop_first() =~= y@.skip(i + 1));
        }
        if p < q {
            proof {
                lemma_path_lt_asymmetric(a@, b@);
            }
            return PathOrder::Before;
        }
        if q < p {
            proof {
                lemma_path_lt_asymmetric(b@, a@);
            }
            return PathOrder::After;
        }
        proof {
            assert(x@.take(i + 1) =~= x@.take(i as int).push(p));
            assert(y@.take(i + 1) =~= y@.take(i as int).push(q));
        }
        i = i + 1;
    }
    if n == m {
        proof {
            assert(x@ =~= x@.take(i as int));
            assert(y@ =~= y@.take(i as int));
            lemma_path_key_injective(a@, b@);
            lemma_path_lt_irreflexive(a@);
        }
        PathOrder::Same
    } else if n < m {
        proof {
            assert(x@.skip(i as int).len() == 0);
            lemma_path_lt_asymmetric(a@, b@);
        }
        PathOrder::Before
    } else {
        proof {
            assert(y@.skip(i as int).len() == 0);
            lemma_path_lt_asymmetric(b@, a@);
        }
        PathOrder::After
    }
}

/// Whether two texts are the same.
pub fn same_text(a: &str, b: &str) -> (r: bool)
    ensures
        r == (a@ == b@),
{
    match path_order(a, b) {
        PathOrder::Same => true,
        _ => false,
    }
}

/// An owned copy of a path.
pub fn owned_path(path: &str) -> (r: String)
    ensures
        r@ == path@,
{
    path.to_owned()
}

/// An ascending sequence is determined by the set of its paths.
pub proof fn lemma_ascending_unique(a: Seq<Seq<char>>, b: Seq<Seq<char>>)
    requires
        ascending(a),
        ascending(b),
        a.to_set() =~= b.to_set(),
    ensures
        a == b,
    decreases a.len(),
{
    if a.len() == 0 {
        if b.len() > 0 {
            assert(b.to_set().contains(b[0]));
            assert(a.to_set().contains(b[0]));
        }
        assert(a =~= b);
    } else {
        assert(a.to_set().contains(a[0]));
        assert(b.to_set().contains(a[0]));
        let j = choose|j: int| 0 <= j < b.len() && b[j] == a[0];
        assert(b.to_set().contains(b[0]));
        assert(a.to_set().contains(b[0]));
        let i = choose|i: int| 0 <= i < a.len() && a[i] == b[0];
        if i > 0 && j > 0 {
            lemma_path_lt_asymmetric(a[0], a[i]);
            assert(path_lt(b[0], b[j]));
        }
        if i > 0 && j == 0 {
            lemma_path_lt_irreflexive(a[0]);
        }
        assert(a[0] == b[0]);
        let ta = a.drop_first();
        let tb = b.drop_first();
        assert(ascending(ta)) by {
            assert forall|x: int, y: int| 0 <= x < y < ta.len() implies path_lt(
                #[trigger] ta[x],
                #[trigger] ta[y],
            ) by {
                assert(ta[x] == a[x + 1] && ta[y] == a[y + 1]);
            }
        }
        assert(ascending(tb)) by {
            assert forall|x: int, y: int| 0 <= x < y < tb.len() implies path_lt(
                #[trigger] tb[x],
                #[trigger] tb[y],
            ) by {
                assert(tb[x] == b[x + 1] && tb[y] == b[y + 1]);
            }
        }
        assert forall|p: Seq<char>| ta.to_set().contains(p) <==> tb.to_set().contains(p) by {
            if ta.to_set().contains(p) {
                let x = choose|x: int| 0 <= x < ta.len() && ta[x] == p;
                assert(a[x + 1] == p);
                lemma_path_lt_asymmetric(a[0], a[x + 1]);
                assert(a.to_set().contains(p));
                assert(b.to_set().contains(p));
                let y = choose|y: int| 0 <= y < b.len() && b[y] == p;
                assert(tb[y - 1] == p);
            }
            if tb.to_set().contains(p) {
                let x = choose|x: int| 0 <= x < tb.len() && tb[x] == p;
                assert(b[x + 1] == p);
                lemma_path_lt_asymmetric(b[0], b[x + 1]);
                assert(b.to_set().contains(p));
                assert(a.to_set().contains(p));
                let y = choose|y: int| 0 <= y < a.len() && a[y] == p;
                assert(ta[y - 1] == p);
            }
        }
        lemma_ascending_unique(ta, tb);
        assert(a =~= seq![a[0]] + ta);
        assert(b =~= seq![b[0]] + tb);
    }
}

} // verus!
