//! The failures that the engine reports.

use vstd::prelude::*;
use vstd::string::StringExecFns;

verus! {

/// Why an operation of the engine did not complete.
#[derive(Clone, Copy, Debug, PartialEq, Eq, Structural)]
pub enum SyncError {
    /// The local repository is corrupt or unreadable.
    StorageError,
    /// A path or a reference is absent.
    NotFoundError,
    /// The remote could not be reached or refused the credential.
    TransportError,
    /// The remote has diverged from the local history; a push is rejected.
    NonFastForwardError,
    /// The two histories have no revision in common.
    MergeBaseNotFoundError,
    /// A commit was attempted while conflicts are unresolved.
    ConflictedIndexError,
    /// The operation needs a revision and none was ever committed.
    EmptyRepositoryError,
}

/// libgit2's code for an object or reference that is not there.
pub const CODE_NOT_FOUND: i32 = -3;

/// libgit2's code for a branch without any commit.
pub const CODE_UNBORN_BRANCH: i32 = -9;

/// libgit2's code for an operation that a merge in progress prevents.
pub const CODE_UNMERGED: i32 = -10;

/// libgit2's code for a reference that cannot be fast-forwarded.
pub const CODE_NON_FAST_FORWARD: i32 = -11;

/// libgit2's code for conflicts that prevent an operation.
pub const CODE_CONFLICT: i32 = -13;

/// libgit2's code for a failed authentication.
pub const CODE_AUTH: i32 = -16;

/// libgit2's code for an invalid server certificate.
pub const CODE_CERTIFICATE: i32 = -17;

/// libgit2's code for a merge conflict that stops an operation.
pub const CODE_MERGE_CONFLICT: i32 = -24;

/// libgit2's class of network failures.
pub const CLASS_NET: i32 = 12;

/// libgit2's class of TLS failures.
pub const CLASS_SSL: i32 = 16;

/// libgit2's class of merge failures.
pub const CLASS_MERGE: i32 = 22;

/// libgit2's class of SSH failures.
pub const CLASS_SSH: i32 = 23;

/// libgit2's class of HTTP failures.
pub const CLASS_HTTP: i32 = 34;

/// The class of a failure names the network or one of its protocols.
pub open spec fn transport_class(class: i32) -> bool {
    class == CLASS_NET || class == CLASS_SSL || class == CLASS_SSH || class == CLASS_HTTP
}

/// The failure of the taxonomy that a failure of libgit2 stands for, from
/// its code and its class. Whatever has no place of its own is a failure of
/// the local storage.
pub open spec fn failure_kind(code: i32, class: i32) -> SyncError {
    if code == CODE_AUTH || code == CODE_CERTIFICATE || transport_class(class) {
        SyncError::TransportError
    } else if code == CODE_NON_FAST_FORWARD {
        SyncError::NonFastForwardError
    } else if code == CODE_UNBORN_BRANCH {
        SyncError::EmptyRepositoryError
    } else if code == CODE_UNMERGED || code == CODE_CONFLICT || code == CODE_MERGE_CONFLICT {
        SyncError::ConflictedIndexError
    } else if code == CODE_NOT_FOUND {
        if class == CLASS_MERGE {
            SyncError::MergeBaseNotFoundError
        } else {
            SyncError::NotFoundError
        }
    } else {
        SyncError::StorageError
    }
}

/// Sorts a failure that libgit2 reported into the taxonomy, so that a
/// caller can tell a network problem from a diverged history from a
/// damaged repository.
pub fn failure_of(code: i32, class: i32) -> (r: SyncError)
    ensures
        r == failure_kind(code, class),
{
    let transport = class == CLASS_NET || class == CLASS_SSL || class == CLASS_SSH || class
        == CLASS_HTTP;
    if code == CODE_AUTH || code == CODE_CERTIFICATE || transport {
        SyncError::TransportError
    } else if code == CODE_NON_FAST_FORWARD {
        SyncError::NonFastForwardError
    } else if code == CODE_UNBORN_BRANCH {
        SyncError::EmptyRepositoryError
    } else if code == CODE_UNMERGED || code == CODE_CONFLICT || code == CODE_MERGE_CONFLICT {
        SyncError::ConflictedIndexError
    } else if code == CODE_NOT_FOUND {
        if class == CLASS_MERGE {
            SyncError::MergeBaseNotFoundError
        } else {
            SyncError::NotFoundError
        }
    } else {
        SyncError::StorageError
    }
}

/// A failure as it surfaces to the caller: its place in the taxonomy, with
/// the status and the reason that the component underneath reported.
pub struct Failure {
    pub kind: SyncError,
    pub status: i32,
    pub reason: String,
}

impl Failure {
    /// The failure that libgit2 reported with the code, the class and the
    /// message given: sorted into the taxonomy, with the code as its status
    /// and the message, unchanged, as its reason.
    pub fn reported(code: i32, class: i32, message: &str) -> (r: Self)
        ensures
            r.kind == failure_kind(code, class),
            r.status == code,
            r.reason@ == message@,
    {
        Failure { kind: failure_of(code, class), status: code, reason: message.to_owned() }
    }

    /// A failure of the engine itself: nothing lies underneath, so its
    /// status is zero and its reason is the sentence that names its kind.
    pub fn of(kind: SyncError) -> (r: Self)
        ensures
            r.kind == kind,
            r.status == 0,
            r.reason@ == description(kind),
    {
        Failure { kind, status: 0, reason: kind.describe() }
    }

    /// What the outermost layer shows: what was attempted, the sentence that
    /// names the kind of the failure, and the reason underneath.
    pub fn describe(&self, attempted: &str) -> (r: String)
        ensures
            r@ == attempted@ + ": "@ + description(self.kind) + " ("@ + self.reason@ + ")"@,
    {
        String::from_str(attempted).concat(": ").concat(self.kind.describe().as_str()).concat(
            " (",
        ).concat(self.reason.as_str()).concat(")")
    }
}

impl SyncError {
    /// A sentence that names the failure, for the outermost layer.
    pub fn describe(&self) -> (r: String)
        ensures
            r@ == description(*self),
    {
        match self {
            SyncError::StorageError => String::from_str(
                "the local repository is corrupt or unreadable",
            ),
            SyncError::NotFoundError => String::from_str("a path or a reference is absent"),
            SyncError::TransportError => String::from_str("the remote could not be reached"),
            SyncError::NonFastForwardError => String::from_str(
                "the remote has diverged: pull first",
            ),
            SyncError::MergeBaseNotFoundError => String::from_str(
                "the histories have nothing in common",
            ),
            SyncError::ConflictedIndexError => String::from_str("conflicts are unresolved"),
            SyncError::EmptyRepositoryError => String::from_str("nothing was committed yet"),
        }
    }
}

/// The sentence that names a failure.
pub open spec fn description(e: SyncError) -> Seq<char> {
    match e {
        SyncError::StorageError => "the local repository is corrupt or unreadable"@,
        SyncError::NotFoundError => "a path or a reference is absent"@,
        SyncError::TransportError => "the remote could not be reached"@,
        SyncError::NonFastForwardError => "the remote has diverged: pull first"@,
        SyncError::MergeBaseNotFoundError => "the histories have nothing in common"@,
        SyncError::ConflictedIndexError => "conflicts are unresolved"@,
        SyncError::EmptyRepositoryError => "nothing was committed yet"@,
    }
}

} // verus!
