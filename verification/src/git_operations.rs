//! The operations that the application calls, by the names it knows them
//! under.

use vstd::prelude::*;
use vstd::string::StringExecFns;
use crate::error::SyncError;
use crate::history::slot_of_id;

use crate::merge::conflicted_paths_of;
use crate::repository::{name_view, staged_with, Found, Repository};
use crate::revision::{texts, Identity, RevisionId};
use crate::sync::{pull, pull_effect, push_changes, push_effect, tree_of, PullOutcome};
use crate::transport::{received, Remote};
use crate::tree::Tree;

verus! {

/// The name under which the application signs its commits.
pub open spec fn signature_name() -> Seq<char> {
    "Gimark"@
}

/// The address under which the application signs its commits.
pub open spec fn signature_email() -> Seq<char> {
    "gimark@example.com"@
}

/// The operations on a repository that the application offers.
pub struct GitOperations;

impl GitOperations {
    /// The identity of the application.
    pub fn signature() -> (r: Identity)
        ensures
            r.name@ == signature_name(),
            r.email@ == signature_email(),
    {
        Identity {
            name: String::from_str("Gimark"),
            email: String::from_str("gimark@example.com"),
        }
    }

    /// The repository at `repo_path`, given what stands there: a new, empty
    /// one where nothing stands there, the repository that stands there,
    /// with its history, its references and its index, or `StorageError`
    /// where the place is taken by something that is no repository.
    pub fn init_repo(repo_path: &str, found: Found) -> (r: Result<Repository, SyncError>)
        requires
            found matches Found::Repository(held) ==> held.wf(),
        ensures
            r matches Ok(repo) ==> repo.wf(),
            match found {
                Found::Nothing => r matches Ok(repo) && repo.path@ == repo_path@
                    && repo.history@.len() == 0 && repo.head is None && repo.remote_head is None
                    && repo.merge_head is None && repo.index.staged() == Map::<
                    Seq<char>,
                    Seq<u8>,
                >::empty() && !repo.index.conflicted(),
                Found::Repository(held) => r matches Ok(repo) && repo == held,
                Found::Other => r matches Err(e) && e == SyncError::StorageError,
            },
    {
        Repository::open_or_init(repo_path, found)
    }

    /// A new repository at `local_path` that holds what leads to the tip of
    /// `remote`, with its head at that tip and its index reset to the tree
    /// of the tip. A remote without a branch gives an empty repository.
    /// `StorageError` where anything stands at `local_path` already, a
    /// repository or not.
    pub fn clone_repo(remote: &Remote, local_path: &str, found: Found) -> (r: Result<
        Repository,
        SyncError,
    >)
        requires
            remote.wf(),
        ensures
            r is Ok <==> found is Nothing,
            r matches Err(e) ==> e == SyncError::StorageError,
            r matches Ok(repo) ==> repo.wf() && repo.path@ == local_path@
                && repo.merge_head is None && !repo.index.conflicted() && match remote.tip {
                None => repo.history@.len() == 0 && repo.head is None && repo.remote_head is None
                    && repo.index.staged() == Map::<Seq<char>, Seq<u8>>::empty(),
                Some(t) => {
                    let revs = received(
                        Seq::empty(),
                        remote.history@,
                        slot_of_id(remote.history@, t@),
                    );
                    &&& repo.history@ == revs
                    &&& name_view(repo.head) == Some(t@)
                    &&& name_view(repo.remote_head) == Some(t@)
                    &&& repo.index.staged() == tree_of(revs, t@)
                },
            },
    {
        match found {
            Found::Nothing => {},
            _ => {
                return Err(SyncError::StorageError);
            },
        }
        let mut repo = Repository::init(local_path);
        if remote.tip.is_some() {
            let author = GitOperations::signature();
            proof {
                assert(repo.history@ =~= Seq::empty());
            }
            let _ = pull(&mut repo, remote, &author, 0);
        }
        Ok(repo)
    }

    /// Stages the content that the working directory holds under each of
    /// `file_paths`. `NotFoundError`, and no change, if one is absent.
    pub fn add_files(repo: &mut Repository, worktree: &Tree, file_paths: &Vec<String>) -> (r: Result<
        (),
        SyncError,
    >)
        requires
            old(repo).wf(),
            worktree.wf(),
        ensures
            final(repo).wf(),
            r is Ok <==> forall|k: int|
                0 <= k < file_paths@.len() ==> worktree@.dom().contains(
                    #[trigger] texts(file_paths@)[k],
                ),
            r matches Err(e) ==> e == SyncError::NotFoundError && *final(repo) == *old(repo),
            r is Ok ==> {
                &&& final(repo).index.staged() == staged_with(
                    old(repo).index.staged(),
                    worktree@,
                    texts(file_paths@),
                )
                &&& final(repo).index.conflicts() == old(repo).index.conflicts().remove_keys(
                    texts(file_paths@).to_set(),
                )
                &&& final(repo).path@ == old(repo).path@
                &&& final(repo).history@ == old(repo).history@
                &&& name_view(final(repo).head) == name_view(old(repo).head)
                &&& name_view(final(repo).remote_head) == name_view(old(repo).remote_head)
                &&& name_view(final(repo).merge_head) == name_view(old(repo).merge_head)
            },
    {
        repo.stage(worktree, file_paths)
    }

    /// Commits the staged tree under the identity of the application.
    /// `ConflictedIndexError` while conflicts are unresolved; `StorageError`
    /// where the content has no object name or its name is held by another
    /// content. Nothing changes on refusal. In every other case the commit
    /// succeeds.
    pub fn commit_changes(repo: &mut Repository, message: &str, timestamp: u64) -> (r: Result<
        RevisionId,
        SyncError,
    >)
        requires
            old(repo).wf(),
        ensures
            final(repo).wf(),
            r matches Ok(id) ==> old(repo).commit_result(
                message@,
                signature_name(),
                signature_email(),
                timestamp,
            ) == Ok::<Seq<char>, SyncError>(id@) && final(repo).committed(
                old(repo),
                old(repo).next_revision(
                    id@,
                    message@,
                    signature_name(),
                    signature_email(),
                    timestamp,
                ),
            ),
            r matches Err(e) ==> old(repo).commit_result(
                message@,
                signature_name(),
                signature_email(),
                timestamp,
            ) == Err::<Seq<char>, SyncError>(e) && *final(repo) == *old(repo),
    {
        let author = GitOperations::signature();
        repo.commit(message, &author, timestamp)
    }

    /// Publishes the local head on the remote, after a fresh fetch.
    /// `EmptyRepositoryError` where nothing was committed,
    /// `NonFastForwardError`, with the remote untouched, where the remote
    /// has revisions that the local head does not build on. The local head,
    /// the pending merge and the index are never touched.
    pub fn push_to_remote(repo: &mut Repository, remote: &mut Remote) -> (r: Result<(), SyncError>)
        requires
            old(repo).wf(),
            old(remote).wf(),
        ensures
            final(repo).wf(),
            final(remote).wf(),
            push_effect(old(repo), final(repo), old(remote), final(remote), r),
    {
        push_changes(repo, remote)
    }

    /// Brings the repository up to the remote: fetch, then fast-forward or
    /// merge as the histories require. A merge is committed under the
    /// identity of the application, at the time given.
    pub fn pull_from_remote(repo: &mut Repository, remote: &Remote, timestamp: u64) -> (r: Result<
        PullOutcome,
        SyncError,
    >)
        requires
            old(repo).wf(),
            remote.wf(),
        ensures
            final(repo).wf(),
            pull_effect(
                old(repo),
                final(repo),
                remote,
                signature_name(),
                signature_email(),
                timestamp,
                r,
            ),
    {
        let author = GitOperations::signature();
        pull(repo, remote, &author, timestamp)
    }

    /// Whether the index of the repository holds unresolved conflicts.
    pub fn check_for_conflicts(repo: &Repository) -> (r: Result<bool, SyncError>)
        requires
            repo.wf(),
        ensures
            r matches Ok(b) && b == repo.index.conflicted(),
    {
        Ok(repo.has_conflicts())
    }

    /// The conflicted paths of the repository in ascending order.
    pub fn get_conflicted_files(repo: &Repository) -> (r: Result<Vec<String>, SyncError>)
        requires
            repo.wf(),
        ensures
            r matches Ok(paths) && texts(paths@) == repo.index.conflict_paths(),
    {
        Ok(conflicted_paths_of(&repo.index))
    }
}

} // verus!
