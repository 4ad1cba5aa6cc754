//! File contents: byte strings, compared and copied by value.

use vstd::prelude::*;

verus! {

/// The content that an optional byte string stands for.
pub open spec fn content_view(c: Option<Vec<u8>>) -> Option<Seq<u8>> {
    match c {
        Some(v) => Some(v@),
        None => None,
    }
}

/// The content behind an optional reference.
pub open spec fn content_ref_view(c: Option<&Vec<u8>>) -> Option<Seq<u8>> {
    match c {
        Some(v) => Some(v@),
        None => None,
    }
}

/// Whether two byte strings hold the same bytes.
pub fn bytes_equal(a: &Vec<u8>, b: &Vec<u8>) -> (r: bool)
    ensures
        r == (a@ == b@),
{
    if a.len() != b.len() {
        return false;
    }
    let n: usize = a.len();
    let mut i: usize = 0;
    while i < n
        invariant
            n == a@.len(),
            n == b@.len(),
            i <= n,
            a@.take(i as int) =~= b@.take(i as int),
        decreases n - i,
    {
        if a[i] != b[i] {
            return false;
        }
        proof {
            assert(a@.take(i + 1) =~= a@.take(i as int).push(a@[i as int]));
            assert(b@.take(i + 1) =~= b@.take(i as int).push(b@[i as int]));
        }
        i = i + 1;
    }
    proof {
        assert(a@ =~= a@.take(n as int));
        assert(b@ =~= b@.take(n as int));
    }
    true
}

/// Whether two optional contents are the same: both absent, or both present
/// with the same bytes.
pub fn same_content(a: Option<&Vec<u8>>, b: Option<&Vec<u8>>) -> (r: bool)
    ensures
        r == (content_ref_view(a) == content_ref_view(b)),
{
    match (a, b) {
        (None, None) => true,
        (Some(x), Some(y)) => bytes_equal(x, y),
        _ => false,
    }
}

/// A copy of a byte string.
pub fn copy_bytes(a: &Vec<u8>) -> (r: Vec<u8>)
    ensures
        r@ == a@,
{
    let mut r: Vec<u8> = Vec::new();
    let n: usize = a.len();
    let mut i: usize = 0;
    while i < n
        invariant
            n == a@.len(),
            i <= n,
            r@ =~= a@.take(i as int),
        decreases n - i,
    {
        r.push(a[i]);
        i = i + 1;
    }
    proof {
        assert(a@ =~= a@.take(n as int));
    }
    r
}

/// A copy of an optional content.
pub fn copy_content(a: Option<&Vec<u8>>) -> (r: Option<Vec<u8>>)
    ensures
        content_view(r) == content_ref_view(a),
{
    match a {
        Some(v) => Some(copy_bytes(v)),
        None => None,
    }
}

} // verus!
