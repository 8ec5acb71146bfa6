use vstd::prelude::*;
use vstd::string::StringExecFns;

verus! {

/// Every failure the engine reports. Each variant carries the text shown to
/// the user, except the two that need none.
#[derive(Debug, Clone, PartialEq, Eq)]
pub enum GitError {
    InvalidCommand(String),
    InvalidHash(String),
    InvalidBlob(String),
    InvalidFileMode(String),
    InvalidEntry(String),
    InvalidTree(String),
    InvalidCommit(String),
    InvaildPathEncoding(String),
    FileNotFound(String),
    InvalidObj(String),
    NoPermision(String),
    NotARepoFile(String),
    NotABBlob(String),
    NotATTree(String),
    NotACCommit(String),
    DetachedBranch(String),
    FailedToReadFile(String),
    FailedToWriteFile(String),
    FailedToRmoveFile(String),
    BrokenCommitHistory(String),
    MergeConflict(String),
    NoSameAncestor(String),
    NoSubCommand,
    NotInGitRepo,
}

/// `prefix` followed by `s`.
pub open spec fn prefixed(prefix: Seq<char>, s: Seq<char>) -> Seq<char> {
    prefix + s
}

fn with_prefix(prefix: &str, s: &str) -> (r: String)
    ensures
        r@ == prefixed(prefix@, s@),
{
    String::from_str(prefix).concat(s)
}

impl GitError {
    pub fn no_same_ancestor(msg: String) -> (r: GitError)
        ensures
            r == GitError::NoSameAncestor(msg),
    {
        GitError::NoSameAncestor(msg)
    }

    pub fn merge_conflict(msg: String) -> (r: GitError)
        ensures
            r == GitError::MergeConflict(msg),
    {
        GitError::MergeConflict(msg)
    }

    pub fn network_error(msg: String) -> (r: GitError)
        ensures
            r matches GitError::InvalidCommand(m) && m@ == prefixed("Network error: "@, msg@),
    {
        proof { reveal_strlit("Network error: "); }
        GitError::InvalidCommand(with_prefix("Network error: ", msg.as_str()))
    }

    pub fn not_a_ccommit(msg: &str) -> (r: GitError)
        ensures
            r matches GitError::NotACCommit(m) && m@ == msg@,
    {
        GitError::NotACCommit(msg.to_owned())
    }

    pub fn not_a_ttree(msg: &str) -> (r: GitError)
        ensures
            r matches GitError::NotATTree(m) && m@ == msg@,
    {
        GitError::NotATTree(msg.to_owned())
    }

    pub fn not_a_bblob(msg: &str) -> (r: GitError)
        ensures
            r matches GitError::NotABBlob(m) && m@ == msg@,
    {
        GitError::NotABBlob(msg.to_owned())
    }

    pub fn invalid_obj(msg: String) -> (r: GitError)
        ensures
            r == GitError::InvalidObj(msg),
    {
        GitError::InvalidObj(msg)
    }

    pub fn invalid_tree(msg: String) -> (r: GitError)
        ensures
            r == GitError::InvalidEntry(msg),
    {
        GitError::InvalidEntry(msg)
    }

    pub fn invalid_entry(msg: String) -> (r: GitError)
        ensures
            r == GitError::InvalidEntry(msg),
    {
        GitError::InvalidEntry(msg)
    }

    pub fn invalid_filemode(msg: String) -> (r: GitError)
        ensures
            r == GitError::InvalidFileMode(msg),
    {
        GitError::InvalidFileMode(msg)
    }

    pub fn no_permision(msg: String) -> (r: GitError)
        ensures
            r == GitError::NoPermision(msg),
    {
        GitError::NoPermision(msg)
    }

    pub fn not_a_repofile(msg: &str) -> (r: GitError)
        ensures
            r matches GitError::NotARepoFile(m) && m@ == msg@,
    {
        GitError::NotARepoFile(msg.to_owned())
    }

    pub fn file_notfound(msg: String) -> (r: GitError)
        ensures
            r == GitError::FileNotFound(msg),
    {
        GitError::FileNotFound(msg)
    }

    pub fn invalid_command(msg: String) -> (r: GitError)
        ensures
            r == GitError::InvalidCommand(msg),
    {
        GitError::InvalidCommand(msg)
    }

    pub fn protocol_error(msg: &str) -> (r: GitError)
        ensures
            r matches GitError::InvalidCommand(m) && m@ == prefixed("Protocol error: "@, msg@),
    {
        proof { reveal_strlit("Protocol error: "); }
        GitError::InvalidCommand(with_prefix("Protocol error: ", msg))
    }

    pub fn invalid_blob(msg: &str) -> (r: GitError)
        ensures
            r matches GitError::InvalidBlob(m) && m@ == prefixed("invalid blob format: "@, msg@),
    {
        proof { reveal_strlit("invalid blob format: "); }
        GitError::InvalidBlob(with_prefix("invalid blob format: ", msg))
    }

    /// A hash that is not 40 characters long: names it and its length.
    pub fn invalid_hash(msg: &str) -> (r: GitError)
        ensures
            r matches GitError::InvalidHash(m) && m@ == "expect hash code of length 40 but got "@ + msg@
                + " of length "@ + crate::command::decimal_chars(vstd::utf8::encode_utf8(msg@).len()),
    {
        proof {
            reveal_strlit("expect hash code of length 40 but got ");
            reveal_strlit(" of length ");
        }
        let n = crate::command::decimal_string(msg.as_bytes().len() as u64);
        let m = with_prefix("expect hash code of length 40 but got ", msg).concat(" of length ").concat(n.as_str());
        assert(m@ =~= "expect hash code of length 40 but got "@ + msg@ + " of length "@ + crate::command::decimal_chars(
            vstd::utf8::encode_utf8(msg@).len(),
        ));
        GitError::InvalidHash(m)
    }

    pub fn invaild_path_encoding(msg: &str) -> (r: GitError)
        ensures
            r matches GitError::InvaildPathEncoding(m) && m@ == prefixed("invalid path encoding: "@, msg@),
    {
        proof { reveal_strlit("invalid path encoding: "); }
        GitError::InvaildPathEncoding(with_prefix("invalid path encoding: ", msg))
    }

    pub fn invalid_commit(msg: &str) -> (r: GitError)
        ensures
            r matches GitError::InvalidCommit(m) && m@ == prefixed("invalid commit: "@, msg@),
    {
        proof { reveal_strlit("invalid commit: "); }
        GitError::InvalidCommit(with_prefix("invalid commit: ", msg))
    }

    pub fn failed_to_read_file(msg: &str) -> (r: GitError)
        ensures
            r matches GitError::FailedToReadFile(m) && m@ == msg@,
    {
        GitError::FailedToReadFile(msg.to_owned())
    }

    pub fn failed_to_write_file(msg: &str) -> (r: GitError)
        ensures
            r matches GitError::FailedToWriteFile(m) && m@ == msg@,
    {
        GitError::FailedToWriteFile(msg.to_owned())
    }

    pub fn failed_to_remove_file(msg: String) -> (r: GitError)
        ensures
            r == GitError::FailedToRmoveFile(msg),
    {
        GitError::FailedToRmoveFile(msg)
    }

    pub fn detached_branch(msg: String) -> (r: GitError)
        ensures
            r == GitError::DetachedBranch(msg),
    {
        GitError::DetachedBranch(msg)
    }

    pub fn broken_commit_history(msg: String) -> (r: GitError)
        ensures
            r == GitError::BrokenCommitHistory(msg),
    {
        GitError::BrokenCommitHistory(msg)
    }

    pub fn no_subcommand() -> (r: GitError)
        ensures
            r == GitError::NoSubCommand,
    {
        GitError::NoSubCommand
    }

    pub fn not_in_gitrepo() -> (r: GitError)
        ensures
            r == GitError::NotInGitRepo,
    {
        GitError::NotInGitRepo
    }
}

} // verus!
