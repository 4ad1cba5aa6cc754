//! Revision names: a revision is named by the object name of its content,
//! so that the same content always bears the same name.

use vstd::prelude::*;
use vstd::bytes::{spec_u64_to_le_bytes, u64_to_le_bytes};
use vstd::utf8::encode_utf8;
use crate::path::{ascending, lemma_ascending_unique};
use crate::revision::{texts, Identity, RevisionId, RevisionView};
use crate::tree::Tree;

verus! {

/// A length, as eight bytes.
pub open spec fn length_bytes(n: nat) -> Seq<u8> {
    spec_u64_to_le_bytes(n as u64)
}

/// A byte string, preceded by its length.
pub open spec fn framed(b: Seq<u8>) -> Seq<u8> {
    length_bytes(b.len()) + b
}

/// A text: its UTF-8 bytes, preceded by their length.
pub open spec fn framed_text(t: Seq<char>) -> Seq<u8> {
    framed(encode_utf8(t))
}

/// A list of texts, one after the other.
pub open spec fn framed_texts(ts: Seq<Seq<char>>) -> Seq<u8>
    decreases ts.len(),
{
    if ts.len() == 0 {
        Seq::empty()
    } else {
        framed_texts(ts.drop_last()) + framed_text(ts.last())
    }
}

/// The files of a tree under the paths listed: each path, then its content.
pub open spec fn framed_files(paths: Seq<Seq<char>>, files: Map<Seq<char>, Seq<u8>>) -> Seq<u8>
    decreases paths.len(),
{
    if paths.len() == 0 {
        Seq::empty()
    } else {
        framed_files(paths.drop_last(), files) + framed_text(paths.last()) + framed(
            files[paths.last()],
        )
    }
}

/// The paths of a tree in ascending order.
pub open spec fn sorted_paths(files: Map<Seq<char>, Seq<u8>>) -> Seq<Seq<char>> {
    choose|s: Seq<Seq<char>>| ascending(s) && s.to_set() == files.dom()
}

/// The bytes that stand for the content of a revision: its tree in path
/// order, its parents, its author, its time and its message. The name of
/// the revision is no part of them.
pub open spec fn content_bytes(rv: RevisionView) -> Seq<u8> {
    let paths = sorted_paths(rv.tree);
    length_bytes(paths.len()) + framed_files(paths, rv.tree) + length_bytes(rv.parents.len())
        + framed_texts(rv.parents) + framed_text(rv.author_name) + framed_text(rv.author_email)
        + spec_u64_to_le_bytes(rv.timestamp) + framed_text(rv.message)
}

/// What libgit2 answers when `data` is hashed as a commit object: the
/// object name, or nothing where it refuses the data because its SHA-1
/// detects a collision attack in them.
pub uninterp spec fn commit_object_name(data: Seq<u8>) -> Option<Seq<char>>;

/// libgit2 gives `data` an object name.
pub open spec fn commit_object_hashed(data: Seq<u8>) -> bool {
    commit_object_name(data) is Some
}

/// Calls `git2::Oid::hash_object` with the object type `Commit` and renders
/// the resulting `Oid` with its `Display` impl. The contract claims that
/// whether the call succeeds, and the object name that a success yields,
/// depend on the bytes given and on nothing else.
#[verifier::external_body]
fn hash_commit_object(data: &[u8]) -> (r: Result<String, git2::Error>)
    ensures
        r matches Ok(name) ==> commit_object_name(data@) == Some(name@),
        r is Err ==> commit_object_name(data@) is None,
{
    match git2::Oid::hash_object(git2::ObjectType::Commit, data) {
        Ok(oid) => Ok(oid.to_string()),
        Err(e) => Err(e),
    }
}

/// The error type of the `git2` crate.
#[verifier::external_type_specification]
#[verifier::external_body]
pub struct ExGitError(git2::Error);

/// Appends `src` to `out`.
fn append(out: &mut Vec<u8>, src: &[u8])
    ensures
        final(out)@ == old(out)@ + src@,
{
    let n: usize = src.len();
    let mut i: usize = 0;
    while i < n
        invariant
            n == src@.len(),
            i <= n,
            out@ =~= old(out)@ + src@.take(i as int),
        decreases n - i,
    {
        out.push(src[i]);
        i = i + 1;
    }
    proof {
        assert(src@.take(n as int) =~= src@);
    }
}

/// Appends a length.
fn append_length(out: &mut Vec<u8>, n: usize)
    ensures
        final(out)@ == old(out)@ + length_bytes(n as nat),
{
    let b = u64_to_le_bytes(n as u64);
    append(out, b.as_slice());
}

/// Appends a byte string with its length.
fn append_framed(out: &mut Vec<u8>, b: &[u8])
    ensures
        final(out)@ == old(out)@ + framed(b@),
{
    append_length(out, b.len());
    append(out, b);
    proof {
        assert(out@ =~= old(out)@ + framed(b@));
    }
}

/// Appends a text with its length.
fn append_text(out: &mut Vec<u8>, t: &str)
    ensures
        final(out)@ == old(out)@ + framed_text(t@),
{
    append_framed(out, t.as_bytes());
}

/// The bytes that stand for the content of a revision yet to be named.
pub fn encode_content(
    parents: &Vec<RevisionId>,
    tree: &Tree,
    author: &Identity,
    timestamp: u64,
    message: &str,
) -> (r: Vec<u8>)
    requires
        tree.wf(),
    ensures
        r@ == content_bytes(
            (RevisionView {
                id: Seq::empty(),
                parents: texts(parents@),
                tree: tree@,
                message: message@,
                author_name: author.name@,
                author_email: author.email@,
                timestamp: timestamp,
            }),
        ),
{
    let mut out: Vec<u8> = Vec::new();
    let n: usize = tree.len();
    let ghost paths = tree.paths();
    let ghost files = tree@;
    proof {
        tree.lemma_paths();
        let s = sorted_paths(files);
        assert(ascending(paths) && paths.to_set() == files.dom());
        lemma_ascending_unique(paths, s);
    }
    append_length(&mut out, n);
    let ghost head = out@;
    let mut i: usize = 0;
    assert(paths.take(0) =~= Seq::<Seq<char>>::empty());
    while i < n
        invariant
            tree.wf(),
            paths == tree.paths(),
            files == tree@,
            n == paths.len(),
            i <= n,
            out@ =~= head + framed_files(paths.take(i as int), files),
        decreases n - i,
    {
        proof {
            assert(paths.take(i + 1).drop_last() =~= paths.take(i as int));
            assert(paths.take(i + 1).last() == paths[i as int]);
        }
        append_text(&mut out, tree.path_at(i).as_str());
        append_framed(&mut out, tree.content_at(i).as_slice());
        i = i + 1;
    }
    proof {
        assert(paths.take(n as int) =~= paths);
    }
    let ghost after_files = out@;
    let m: usize = parents.len();
    append_length(&mut out, m);
    let ghost before_parents = out@;
    let ghost names = texts(parents@);
    let mut k: usize = 0;
    assert(names.take(0) =~= Seq::<Seq<char>>::empty());
    while k < m
        invariant
            m == parents@.len(),
            names == texts(parents@),
            k <= m,
            out@ =~= before_parents + framed_texts(names.take(k as int)),
        decreases m - k,
    {
        proof {
            assert(names.take(k + 1).drop_last() =~= names.take(k as int));
            assert(names.take(k + 1).last() == parents@[k as int]@);
        }
        append_text(&mut out, parents[k].as_str());
        k = k + 1;
    }
    proof {
        assert(names.take(m as int) =~= names);
    }
    append_text(&mut out, author.name.as_str());
    append_text(&mut out, author.email.as_str());
    let stamp = u64_to_le_bytes(timestamp);
    append(&mut out, stamp.as_slice());
    append_text(&mut out, message);
    out
}

/// The name of a revision with the content given: the object name of the
/// content bytes, or nothing where they have none.
pub fn name_content(data: &Vec<u8>) -> (r: Option<RevisionId>)
    ensures
        r is Some <==> commit_object_hashed(data@),
        r matches Some(name) ==> commit_object_name(data@) == Some(name@),
{
    match hash_commit_object(data.as_slice()) {
        Ok(name) => Some(name),
        Err(_) => None,
    }
}

} // verus!
