use vstd::prelude::*;
use vstd::string::StringExecFns;
use crate::bytes::utf8_string;
use crate::merge::opt_view;
use crate::blob::Blob;
use crate::commit::Commit as CommitObject;
use crate::error::GitError;
use crate::fs::{read_obj, stored_content, stored_kind};
use crate::hashing::{hash_object, object_id};
use crate::objtype::{decimal, lemma_decimal_digits, push_decimal, ObjKind};
use crate::tree::Tree;

verus! {

/// `git init`: create a repository, in `dir` when given.
#[derive(Debug)]
pub struct Init {
    pub dir: Option<String>,
}

/// `git add`: stage the given paths.
#[derive(Debug)]
pub struct Add {
    pub dry_run: bool,
    pub paths: Vec<String>,
}

/// `git rm`: unstage, and unless `cached` delete, the given paths.
#[derive(Debug)]
pub struct Rm {
    pub cached: bool,
    pub dry_run: bool,
    pub recursive: bool,
    pub paths: Vec<String>,
}

/// `git commit`: record the index as a new commit.
#[derive(Debug)]
pub struct Commit {
    pub message: Option<String>,
    pub all: bool,
}

/// `git branch`: list, create or delete branches.
#[derive(Debug)]
pub struct Branch {
    pub delete: bool,
    pub branch_name: Option<String>,
}

/// `git cat-file`: show an object's content, type, or existence.
#[derive(Debug)]
pub struct CatFile {
    pub print: bool,
    pub check_exist: bool,
    pub show_type: bool,
    pub objpath: String,
}

/// `git hash-object`: compute a file's blob id, and store it when `write`.
#[derive(Debug)]
pub struct HashObject {
    pub write: bool,
    pub filepath: String,
}

/// `git merge`: join a branch into the current one.
#[derive(Debug)]
pub struct Merge {
    pub branch: String,
}

/// `git read-tree`: stage a tree, under `prefix` when given.
#[derive(Debug)]
pub struct ReadTree {
    pub prefix: Option<String>,
    pub tree_hash: String,
}

/// `git write-tree`: store the index as trees.
#[derive(Debug)]
pub struct WriteTree {}

/// `git update-index`: stage or unstage paths.
#[derive(Debug)]
pub struct UpdateIndex {
    pub add: bool,
    pub rm: bool,
    pub cacheinfo: Option<Vec<String>>,
    pub names: Vec<String>,
}

/// `git update-ref`: point a reference at a commit.
#[derive(Debug)]
pub struct UpdateRef {
    pub ref_path: String,
    pub commit_hash: String,
}

/// `git symbolic-ref`: read or set what HEAD names.
#[derive(Debug)]
pub struct SymbolicRef {
    pub ref_name: String,
    pub new_target: Option<String>,
}

/// `git checkout`: switch branches or restore paths.
#[derive(Debug)]
pub struct Checkout {
    pub create_new_branch: bool,
    pub branch_name_or_commit_hash: Option<String>,
    pub paths: Vec<String>,
}

impl HashObject {
    /// The blob id of a file's content.
    pub fn hash(&self, bytes: &[u8]) -> (r: String)
        ensures
            r@ == object_id(ObjKind::Blob, bytes@),
    {
        hash_object(ObjKind::Blob, bytes)
    }
}

/// The message of a failed typed read.
pub open spec fn parse_failure_text(what: Seq<char>, hash: Seq<char>) -> Seq<char> {
    "failed to parse "@ + what + " data for "@ + hash
}

fn parse_failure(what: &str, hash: &str) -> (r: GitError)
    ensures
        r matches GitError::InvalidCommand(m) && m@ == parse_failure_text(what@, hash@),
{
    proof { reveal_strlit("failed to parse "); }
    proof { reveal_strlit(" data for "); }
    GitError::InvalidCommand(String::from_str("failed to parse ").concat(what).concat(" data for ").concat(hash))
}

impl Checkout {
    /// Decodes the stored bytes of the tree `hash`; anything else fails.
    pub fn read_tree(data: &[u8], hash: &str) -> (r: Result<Tree, GitError>)
        ensures
            r is Ok <==> stored_kind(data@) == Some(ObjKind::Tree),
            r matches Err(e) ==> e matches GitError::InvalidCommand(m) && m@ == parse_failure_text("tree"@, hash@),
            r matches Ok(t) ==> crate::tree::parse_entries(stored_content(data@)) == Some(t@),
    {
        match read_obj(data) {
            Ok(obj) => match Tree::from_obj(obj) {
                Ok(t) => Ok(t),
                Err(_) => Err(parse_failure("tree", hash)),
            },
            Err(_) => Err(parse_failure("tree", hash)),
        }
    }

    /// Decodes the stored bytes of the blob `hash`; anything else fails.
    pub fn read_blob(data: &[u8], hash: &str) -> (r: Result<Blob, GitError>)
        ensures
            r is Ok <==> stored_kind(data@) == Some(ObjKind::Blob),
            r matches Err(e) ==> e matches GitError::InvalidCommand(m) && m@ == parse_failure_text("blob"@, hash@),
            r matches Ok(b) ==> b@ == stored_content(data@),
    {
        match read_obj(data) {
            Ok(obj) => match Blob::from_obj(obj) {
                Ok(b) => Ok(b),
                Err(_) => Err(parse_failure("blob", hash)),
            },
            Err(_) => Err(parse_failure("blob", hash)),
        }
    }

    /// Decodes the stored bytes of the commit `hash`; anything else fails.
    /// Its tree is read with `read_tree`.
    pub fn read_commit(data: &[u8], hash: &str) -> (r: Result<CommitObject, GitError>)
        ensures
            r is Ok <==> stored_kind(data@) == Some(ObjKind::Commit),
            r matches Err(e) ==> e matches GitError::InvalidCommand(m) && m@ == parse_failure_text("commit"@, hash@),
            r matches Ok(c) ==> crate::commit::parse_commit(stored_content(data@)) == Some(c@),
    {
        match read_obj(data) {
            Ok(obj) => match CommitObject::from_obj(obj) {
                Ok(c) => Ok(c),
                Err(_) => Err(parse_failure("commit", hash)),
            },
            Err(_) => Err(parse_failure("commit", hash)),
        }
    }

    /// A checkout made by another command: no new branch.
    pub fn from_internal(branch_name: Option<String>, paths: Vec<String>) -> (r: Checkout)
        ensures
            !r.create_new_branch,
            r.branch_name_or_commit_hash == branch_name,
            r.paths == paths,
    {
        Checkout { create_new_branch: false, branch_name_or_commit_hash: branch_name, paths }
    }
}

/// `git commit-tree`: make a commit object from a tree.
#[derive(Debug)]
pub struct CommitTree {
    pub tree_hash: String,
    pub message: String,
    pub pcommit: Option<String>,
}

/// The decimal digits of `n`, as characters.
pub open spec fn decimal_chars(n: nat) -> Seq<char> {
    Seq::new(decimal(n).len(), |i: int| decimal(n)[i] as char)
}

/// The decimal rendering of a number.
pub fn decimal_string(n: u64) -> (r: String)
    ensures
        r@ == decimal_chars(n as nat),
{
    let mut digits: Vec<u8> = Vec::new();
    push_decimal(&mut digits, n);
    assert(digits@ =~= decimal(n as nat));
    let ghost chars = decimal_chars(n as nat);
    proof {
        lemma_decimal_digits(n as nat);
        assert forall|i: int| 0 <= i < chars.len() implies '\0' <= #[trigger] chars[i] <= '\u{7f}' by {
            assert(chars[i] == decimal(n as nat)[i] as char);
            assert(('\u{7f}' as u32) == 127);
        }
        vstd::utf8::is_ascii_chars_encode_utf8(chars);
        assert forall|i: int| 0 <= i < chars.len() implies (#[trigger] chars[i]) as u8 == digits@[i] by {
            assert(chars[i] == decimal(n as nat)[i] as char);
        }
        assert(vstd::utf8::encode_utf8(chars) =~= digits@);
        vstd::utf8::encode_utf8_valid_utf8(chars);
        vstd::utf8::encode_utf8_decode_utf8(chars);
    }
    match utf8_string(digits) {
        Some(s) => s,
        None => String::new(),
    }
}

/// The text of a commit made by commit-tree.
pub open spec fn commit_text(
    tree: Seq<char>,
    parent: Option<Seq<char>>,
    message: Seq<char>,
    name: Seq<char>,
    email: Seq<char>,
    timestamp: nat,
) -> Seq<char> {
    let who = name + " <"@ + email + "> "@ + decimal_chars(timestamp) + " +0000"@;
    "tree "@ + tree + "\n"@ + (match parent {
        Some(p) => "parent "@ + p + "\n"@,
        None => Seq::empty(),
    }) + "author "@ + who + "\n"@ + "committer "@ + who + "\n\n"@ + message
}

impl CommitTree {
    /// The content of the commit object: tree, optional parent, author and
    /// committer lines stamped with `timestamp` in UTC, a blank line, and
    /// the message.
    pub fn build_commit_content(&self, author_name: &str, author_email: &str, timestamp: u64) -> (r: String)
        ensures
            r@ == commit_text(
                self.tree_hash@,
                opt_view(self.pcommit),
                self.message@,
                author_name@,
                author_email@,
                timestamp as nat,
            ),
    {
        proof {
            reveal_strlit(" <");
            reveal_strlit("> ");
            reveal_strlit(" +0000");
            reveal_strlit("tree ");
            reveal_strlit("\n");
            reveal_strlit("parent ");
            reveal_strlit("author ");
            reveal_strlit("committer ");
            reveal_strlit("\n\n");
        }
        let ts = decimal_string(timestamp);
        let who = String::from_str(author_name).concat(" <").concat(author_email).concat("> ").concat(
            ts.as_str(),
        ).concat(" +0000");
        let mut content = String::from_str("tree ").concat(self.tree_hash.as_str()).concat("\n");
        match &self.pcommit {
            Some(p) => {
                content = content.concat("parent ").concat(p.as_str()).concat("\n");
            },
            None => {},
        }
        content = content.concat("author ").concat(who.as_str()).concat("\n").concat("committer ").concat(
            who.as_str(),
        ).concat("\n\n").concat(self.message.as_str());
        proof {
            assert(content@ =~= commit_text(
                self.tree_hash@,
                opt_view(self.pcommit),
                self.message@,
                author_name@,
                author_email@,
                timestamp as nat,
            ));
        }
        content
    }
}

} // verus!
