//! The bytes that name a revision determine its content: two revisions
//! with the same bytes have the same tree, parents, author, time and
//! message. Only a collision of object names can make two contents bear one
//! name.

use vstd::prelude::*;
use vstd::bytes::{lemma_auto_spec_u64_to_from_le_bytes, spec_u64_to_le_bytes};
use vstd::utf8::encode_utf8;
use crate::naming::{
    content_bytes, framed, framed_files, framed_text, framed_texts, length_bytes, sorted_paths,
};
use crate::path::lemma_path_key_injective;
use crate::revision::RevisionView;

verus! {

/// A length that eight bytes can hold.
pub open spec fn fits(n: nat) -> bool {
    n <= u64::MAX
}

/// Every text of the sequence has an encoding of a length that fits.
pub open spec fn texts_fit(ts: Seq<Seq<char>>) -> bool {
    forall|i: int| 0 <= i < ts.len() ==> fits(encode_utf8(#[trigger] ts[i]).len())
}

/// Every length that the encoding of the revision writes down fits, and the
/// files of its tree can be listed in path order.
pub open spec fn encodable(rv: RevisionView) -> bool {
    let paths = sorted_paths(rv.tree);
    &&& paths.to_set() == rv.tree.dom()
    &&& fits(paths.len())
    &&& texts_fit(paths)
    &&& forall|i: int| 0 <= i < paths.len() ==> fits(rv.tree[#[trigger] paths[i]].len())
    &&& fits(rv.parents.len())
    &&& texts_fit(rv.parents)
    &&& fits(encode_utf8(rv.author_name).len())
    &&& fits(encode_utf8(rv.author_email).len())
    &&& fits(encode_utf8(rv.message).len())
}

/// Eight bytes in front of two byte strings that are equal as a whole are
/// the same number, and what follows them is the same.
proof fn lemma_number_cancels(a: u64, r1: Seq<u8>, b: u64, r2: Seq<u8>)
    requires
        spec_u64_to_le_bytes(a) + r1 == spec_u64_to_le_bytes(b) + r2,
    ensures
        a == b,
        r1 == r2,
{
    lemma_auto_spec_u64_to_from_le_bytes();
    let x = spec_u64_to_le_bytes(a);
    let y = spec_u64_to_le_bytes(b);
    assert((x + r1).subrange(0, 8) =~= x);
    assert((y + r2).subrange(0, 8) =~= y);
    assert((x + r1).subrange(8, (x + r1).len() as int) =~= r1);
    assert((y + r2).subrange(8, (y + r2).len() as int) =~= r2);
}

/// A length in front cancels like a number.
proof fn lemma_length_cancels(n: nat, r1: Seq<u8>, m: nat, r2: Seq<u8>)
    requires
        fits(n),
        fits(m),
        length_bytes(n) + r1 == length_bytes(m) + r2,
    ensures
        n == m,
        r1 == r2,
{
    lemma_number_cancels(n as u64, r1, m as u64, r2);
}

/// A framed byte string in front of two byte strings that are equal as a
/// whole is the same on both sides, and so is what follows it.
proof fn lemma_frame_cancels(x: Seq<u8>, r1: Seq<u8>, y: Seq<u8>, r2: Seq<u8>)
    requires
        fits(x.len()),
        fits(y.len()),
        framed(x) + r1 == framed(y) + r2,
    ensures
        x == y,
        r1 == r2,
{
    assert(framed(x) + r1 =~= length_bytes(x.len()) + (x + r1));
    assert(framed(y) + r2 =~= length_bytes(y.len()) + (y + r2));
    lemma_length_cancels(x.len(), x + r1, y.len(), y + r2);
    assert((x + r1).subrange(0, x.len() as int) =~= x);
    assert((y + r2).subrange(0, y.len() as int) =~= y);
    assert((x + r1).subrange(x.len() as int, (x + r1).len() as int) =~= r1);
    assert((y + r2).subrange(y.len() as int, (y + r2).len() as int) =~= r2);
}

/// The same for a framed text.
proof fn lemma_text_cancels(s: Seq<char>, r1: Seq<u8>, t: Seq<char>, r2: Seq<u8>)
    requires
        fits(encode_utf8(s).len()),
        fits(encode_utf8(t).len()),
        framed_text(s) + r1 == framed_text(t) + r2,
    ensures
        s == t,
        r1 == r2,
{
    lemma_frame_cancels(encode_utf8(s), r1, encode_utf8(t), r2);
    lemma_path_key_injective(s, t);
}

/// A list of framed texts begins with its first text.
proof fn lemma_texts_front(ts: Seq<Seq<char>>)
    requires
        ts.len() > 0,
    ensures
        framed_texts(ts) == framed_text(ts[0]) + framed_texts(ts.drop_first()),
    decreases ts.len(),
{
    if ts.len() == 1 {
        assert(framed_texts(ts.drop_last()) =~= Seq::<u8>::empty());
        assert(framed_texts(ts.drop_first()) =~= Seq::<u8>::empty());
        assert(framed_texts(ts) =~= framed_text(ts[0]) + framed_texts(ts.drop_first()));
    } else {
        let init = ts.drop_last();
        lemma_texts_front(init);
        assert(init[0] == ts[0]);
        assert(init.drop_first() =~= ts.drop_first().drop_last());
        assert(ts.drop_first().last() == ts.last());
        assert(framed_texts(ts) =~= framed_text(ts[0]) + framed_texts(ts.drop_first()));
    }
}

/// Two lists of as many framed texts, in front of byte strings that are
/// equal as a whole, are the same list, and what follows is the same.
proof fn lemma_texts_cancel(ts: Seq<Seq<char>>, r1: Seq<u8>, us: Seq<Seq<char>>, r2: Seq<u8>)
    requires
        ts.len() == us.len(),
        texts_fit(ts),
        texts_fit(us),
        framed_texts(ts) + r1 == framed_texts(us) + r2,
    ensures
        ts == us,
        r1 == r2,
    decreases ts.len(),
{
    if ts.len() == 0 {
        assert(framed_texts(ts) + r1 =~= r1);
        assert(framed_texts(us) + r2 =~= r2);
        assert(ts =~= us);
    } else {
        lemma_texts_front(ts);
        lemma_texts_front(us);
        let tt = ts.drop_first();
        let ut = us.drop_first();
        assert(framed_texts(ts) + r1 =~= framed_text(ts[0]) + (framed_texts(tt) + r1));
        assert(framed_texts(us) + r2 =~= framed_text(us[0]) + (framed_texts(ut) + r2));
        assert(fits(encode_utf8(ts[0]).len()));
        assert(fits(encode_utf8(us[0]).len()));
        lemma_text_cancels(ts[0], framed_texts(tt) + r1, us[0], framed_texts(ut) + r2);
        assert(texts_fit(tt)) by {
            assert forall|i: int| 0 <= i < tt.len() implies fits(
                encode_utf8(#[trigger] tt[i]).len(),
            ) by {
                assert(tt[i] == ts[i + 1]);
            }
        }
        assert(texts_fit(ut)) by {
            assert forall|i: int| 0 <= i < ut.len() implies fits(
                encode_utf8(#[trigger] ut[i]).len(),
            ) by {
                assert(ut[i] == us[i + 1]);
            }
        }
        lemma_texts_cancel(tt, r1, ut, r2);
        assert(ts =~= seq![ts[0]] + tt);
        assert(us =~= seq![us[0]] + ut);
    }
}

/// A list of framed files begins with its first file.
proof fn lemma_files_front(paths: Seq<Seq<char>>, files: Map<Seq<char>, Seq<u8>>)
    requires
        paths.len() > 0,
    ensures
        framed_files(paths, files) == framed_text(paths[0]) + framed(files[paths[0]])
            + framed_files(paths.drop_first(), files),
    decreases paths.len(),
{
    if paths.len() == 1 {
        assert(framed_files(paths.drop_last(), files) =~= Seq::<u8>::empty());
        assert(framed_files(paths.drop_first(), files) =~= Seq::<u8>::empty());
        assert(framed_files(paths, files) =~= framed_text(paths[0]) + framed(files[paths[0]])
            + framed_files(paths.drop_first(), files));
    } else {
        let init = paths.drop_last();
        lemma_files_front(init, files);
        assert(init[0] == paths[0]);
        assert(init.drop_first() =~= paths.drop_first().drop_last());
        assert(paths.drop_first().last() == paths.last());
        assert(framed_files(paths, files) =~= framed_text(paths[0]) + framed(files[paths[0]])
            + framed_files(paths.drop_first(), files));
    }
}

/// Two lists of as many framed files, in front of byte strings that are
/// equal as a whole, list the same paths with the same contents, and what
/// follows is the same.
proof fn lemma_files_cancel(
    ps: Seq<Seq<char>>,
    f: Map<Seq<char>, Seq<u8>>,
    r1: Seq<u8>,
    qs: Seq<Seq<char>>,
    g: Map<Seq<char>, Seq<u8>>,
    r2: Seq<u8>,
)
    requires
        ps.len() == qs.len(),
        texts_fit(ps),
        texts_fit(qs),
        forall|i: int| 0 <= i < ps.len() ==> fits(f[#[trigger] ps[i]].len()),
        forall|i: int| 0 <= i < qs.len() ==> fits(g[#[trigger] qs[i]].len()),
        framed_files(ps, f) + r1 == framed_files(qs, g) + r2,
    ensures
        ps == qs,
        forall|i: int| 0 <= i < ps.len() ==> f[#[trigger] ps[i]] == g[ps[i]],
        r1 == r2,
    decreases ps.len(),
{
    if ps.len() == 0 {
        assert(framed_files(ps, f) + r1 =~= r1);
        assert(framed_files(qs, g) + r2 =~= r2);
        assert(ps =~= qs);
    } else {
        lemma_files_front(ps, f);
        lemma_files_front(qs, g);
        let pt = ps.drop_first();
        let qt = qs.drop_first();
        let rest1 = framed(f[ps[0]]) + (framed_files(pt, f) + r1);
        let rest2 = framed(g[qs[0]]) + (framed_files(qt, g) + r2);
        assert(framed_files(ps, f) + r1 =~= framed_text(ps[0]) + rest1);
        assert(framed_files(qs, g) + r2 =~= framed_text(qs[0]) + rest2);
        assert(fits(encode_utf8(ps[0]).len()));
        assert(fits(encode_utf8(qs[0]).len()));
        lemma_text_cancels(ps[0], rest1, qs[0], rest2);
        assert(fits(f[ps[0]].len()));
        assert(fits(g[qs[0]].len()));
        lemma_frame_cancels(f[ps[0]], framed_files(pt, f) + r1, g[qs[0]], framed_files(qt, g) + r2);
        assert(texts_fit(pt)) by {
            assert forall|i: int| 0 <= i < pt.len() implies fits(
                encode_utf8(#[trigger] pt[i]).len(),
            ) by {
                assert(pt[i] == ps[i + 1]);
            }
        }
        assert(texts_fit(qt)) by {
            assert forall|i: int| 0 <= i < qt.len() implies fits(
                encode_utf8(#[trigger] qt[i]).len(),
            ) by {
                assert(qt[i] == qs[i + 1]);
            }
        }
        assert forall|i: int| 0 <= i < pt.len() implies fits(f[#[trigger] pt[i]].len()) by {
            assert(pt[i] == ps[i + 1]);
        }
        assert forall|i: int| 0 <= i < qt.len() implies fits(g[#[trigger] qt[i]].len()) by {
            assert(qt[i] == qs[i + 1]);
        }
        lemma_files_cancel(pt, f, r1, qt, g, r2);
        assert(ps =~= seq![ps[0]] + pt);
        assert(qs =~= seq![qs[0]] + qt);
        assert forall|i: int| 0 <= i < ps.len() implies f[#[trigger] ps[i]] == g[ps[i]] by {
            if i > 0 {
                assert(ps[i] == pt[i - 1]);
            }
        }
    }
}

/// What follows the files in the content bytes of a revision.
pub open spec fn after_files(rv: RevisionView) -> Seq<u8> {
    length_bytes(rv.parents.len()) + (framed_texts(rv.parents) + after_parents(rv))
}

/// What follows the parents in the content bytes of a revision.
pub open spec fn after_parents(rv: RevisionView) -> Seq<u8> {
    framed_text(rv.author_name) + (framed_text(rv.author_email) + (spec_u64_to_le_bytes(
        rv.timestamp,
    ) + framed_text(rv.message)))
}

/// The content bytes of a revision, part after part.
proof fn lemma_content_bytes_parts(rv: RevisionView)
    ensures
        content_bytes(rv) == length_bytes(sorted_paths(rv.tree).len()) + (framed_files(
            sorted_paths(rv.tree),
            rv.tree,
        ) + after_files(rv)),
{
    let paths = sorted_paths(rv.tree);
    let part0 = length_bytes(paths.len());
    let part1 = framed_files(paths, rv.tree);
    let part2 = length_bytes(rv.parents.len());
    let part3 = framed_texts(rv.parents);
    let part4 = framed_text(rv.author_name);
    let part5 = framed_text(rv.author_email);
    let part6 = spec_u64_to_le_bytes(rv.timestamp);
    let part7 = framed_text(rv.message);
    assert(content_bytes(rv) == part0 + part1 + part2 + part3 + part4 + part5 + part6 + part7);
    assert(part0 + part1 + part2 + part3 + part4 + part5 + part6 + part7 =~= (part0 + part1 + part2 + part3 + part4 + part5) + (part6 + part7));
    assert((part0 + part1 + part2 + part3 + part4 + part5) + (part6 + part7) =~= (part0 + part1 + part2 + part3) + (part4 + (part5 + (part6
        + part7))));
    assert((part0 + part1 + part2 + part3) + (part4 + (part5 + (part6 + part7))) =~= part0 + (part1 + (part2 + (part3 + (part4 + (part5 + (part6
        + part7)))))));
}

/// Revisions with the same content bytes have the same content.
pub proof fn lemma_content_bytes_injective(a: RevisionView, b: RevisionView)
    requires
        encodable(a),
        encodable(b),
        content_bytes(a) == content_bytes(b),
    ensures
        a.tree == b.tree,
        a.parents == b.parents,
        a.author_name == b.author_name,
        a.author_email == b.author_email,
        a.timestamp == b.timestamp,
        a.message == b.message,
{
    let pa = sorted_paths(a.tree);
    let pb = sorted_paths(b.tree);
    lemma_content_bytes_parts(a);
    lemma_content_bytes_parts(b);
    lemma_length_cancels(
        pa.len(),
        framed_files(pa, a.tree) + after_files(a),
        pb.len(),
        framed_files(pb, b.tree) + after_files(b),
    );
    lemma_files_cancel(pa, a.tree, after_files(a), pb, b.tree, after_files(b));
    assert(a.tree =~= b.tree) by {
        assert forall|p: Seq<char>| a.tree.dom().contains(p) implies a.tree[p] == b.tree[p] by {
            assert(pa.to_set().contains(p));
            let i = choose|i: int| 0 <= i < pa.len() && pa[i] == p;
            assert(a.tree[pa[i]] == b.tree[pa[i]]);
        }
    }
    lemma_after_files_injective(a, b);
}

/// Revisions with the same bytes after their files have the same parents,
/// author, time and message.
proof fn lemma_after_files_injective(a: RevisionView, b: RevisionView)
    requires
        fits(a.parents.len()),
        fits(b.parents.len()),
        texts_fit(a.parents),
        texts_fit(b.parents),
        fits(encode_utf8(a.author_name).len()),
        fits(encode_utf8(b.author_name).len()),
        fits(encode_utf8(a.author_email).len()),
        fits(encode_utf8(b.author_email).len()),
        fits(encode_utf8(a.message).len()),
        fits(encode_utf8(b.message).len()),
        after_files(a) == after_files(b),
    ensures
        a.parents == b.parents,
        a.author_name == b.author_name,
        a.author_email == b.author_email,
        a.timestamp == b.timestamp,
        a.message == b.message,
{
    lemma_length_cancels(
        a.parents.len(),
        framed_texts(a.parents) + after_parents(a),
        b.parents.len(),
        framed_texts(b.parents) + after_parents(b),
    );
    lemma_texts_cancel(a.parents, after_parents(a), b.parents, after_parents(b));
    let a3 = spec_u64_to_le_bytes(a.timestamp) + framed_text(a.message);
    let b3 = spec_u64_to_le_bytes(b.timestamp) + framed_text(b.message);
    lemma_text_cancels(
        a.author_name,
        framed_text(a.author_email) + a3,
        b.author_name,
        framed_text(b.author_email) + b3,
    );
    lemma_text_cancels(a.author_email, a3, b.author_email, b3);
    lemma_number_cancels(a.timestamp, framed_text(a.message), b.timestamp, framed_text(b.message));
    assert(framed_text(a.message) =~= framed_text(a.message) + Seq::<u8>::empty());
    assert(framed_text(b.message) =~= framed_text(b.message) + Seq::<u8>::empty());
    lemma_text_cancels(a.message, Seq::<u8>::empty(), b.message, Seq::<u8>::empty());
}

} // verus!
