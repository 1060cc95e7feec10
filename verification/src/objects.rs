//! The immutable objects of the engine: blobs, trees and commits.
//!
//! A digest is a `u64` that identifies one stored object. Objects are kept
//! in canonical form — tree entries strictly ordered by name — so that equal
//! content always has equal canonical form, and the store (which never keeps
//! two equal objects) gives it a single digest.

use vstd::prelude::*;
use crate::order::lex_lt;

verus! {

/// One entry of a tree: a file name bound to the digest of its blob.
/// Every path the interface handles is a single name, so a directory
/// snapshot is one flat tree of blobs.
pub struct TreeEntry {
    pub name: String,
    pub blob: u64,
}

/// The mathematical picture of a tree entry.
#[verifier::ext_equal]
pub struct TreeEntryV {
    pub name: Seq<char>,
    pub blob: u64,
}

impl View for TreeEntry {
    type V = TreeEntryV;

    open spec fn view(&self) -> TreeEntryV {
        TreeEntryV { name: self.name@, blob: self.blob }
    }
}

/// The body of a commit object.
pub struct CommitData {
    /// Digest of the tree this commit snapshots.
    pub tree: u64,
    /// Digests of the parent commits: empty for the root, else exactly one.
    pub parents: Vec<u64>,
    /// The recorded author and committer identity.
    pub author: String,
    /// The commit message.
    pub message: String,
    /// A logical clock: each commit of a workspace gets the next tick, so a
    /// parent always carries an earlier stamp than its child.
    pub timestamp: u64,
}

/// The mathematical picture of a commit.
#[verifier::ext_equal]
pub struct CommitV {
    pub tree: u64,
    pub parents: Seq<u64>,
    pub author: Seq<char>,
    pub message: Seq<char>,
    pub timestamp: u64,
}

impl View for CommitData {
    type V = CommitV;

    open spec fn view(&self) -> CommitV {
        CommitV {
            tree: self.tree,
            parents: self.parents@,
            author: self.author@,
            message: self.message@,
            timestamp: self.timestamp,
        }
    }
}

/// A stored object: a file's bytes, a directory snapshot, or a commit.
pub enum Object {
    Blob(Vec<u8>),
    Tree(Vec<TreeEntry>),
    Commit(CommitData),
}

/// The mathematical picture of a stored object.
#[verifier::ext_equal]
pub enum ObjectV {
    Blob { bytes: Seq<u8> },
    Tree { entries: Seq<TreeEntryV> },
    Commit { commit: CommitV },
}

impl View for Object {
    type V = ObjectV;

    open spec fn view(&self) -> ObjectV {
        match self {
            Object::Blob(bytes) => ObjectV::Blob { bytes: bytes@ },
            Object::Tree(entries) => ObjectV::Tree {
                entries: entries@.map_values(|e: TreeEntry| e@),
            },
            Object::Commit(data) => ObjectV::Commit { commit: data@ },
        }
    }
}

/// Tree entries stand in strictly increasing name order; names are
/// therefore unique.
pub open spec fn entries_sorted(es: Seq<TreeEntryV>) -> bool {
    forall|i: int, j: int| 0 <= i < j < es.len() ==> lex_lt(es[i].name, es[j].name)
}

/// Digest `d` resolves to a blob in store picture `s`.
pub open spec fn is_blob(s: Seq<ObjectV>, d: u64) -> bool {
    d < s.len() && s[d as int] is Blob
}

/// Digest `d` resolves to a tree in store picture `s`.
pub open spec fn is_tree(s: Seq<ObjectV>, d: u64) -> bool {
    d < s.len() && s[d as int] is Tree
}

/// Digest `d` resolves to a commit in store picture `s`.
pub open spec fn is_commit(s: Seq<ObjectV>, d: u64) -> bool {
    d < s.len() && s[d as int] is Commit
}

/// The bytes of the blob at digest `d`.
pub open spec fn blob_bytes(s: Seq<ObjectV>, d: u64) -> Seq<u8>
    recommends
        is_blob(s, d),
{
    s[d as int]->Blob_bytes
}

/// The entries of the tree at digest `d`.
pub open spec fn tree_entries(s: Seq<ObjectV>, d: u64) -> Seq<TreeEntryV>
    recommends
        is_tree(s, d),
{
    s[d as int]->Tree_entries
}

/// The commit at digest `d`.
pub open spec fn commit_of(s: Seq<ObjectV>, d: u64) -> CommitV
    recommends
        is_commit(s, d),
{
    s[d as int]->Commit_commit
}

/// An object is well formed at position `bound` of store picture `s`: every
/// digest it holds points strictly below `bound`, to an object of the right
/// kind, and a tree's entries are canonical. A commit has at most one
/// parent — history is strictly linear here.
pub open spec fn obj_wf(s: Seq<ObjectV>, o: ObjectV, bound: int) -> bool {
    match o {
        ObjectV::Blob { .. } => true,
        ObjectV::Tree { entries } => {
            &&& entries_sorted(entries)
            &&& forall|k: int|
                0 <= k < entries.len() ==> entries[k].blob < bound && is_blob(
                    s,
                    #[trigger] entries[k].blob,
                )
        },
        ObjectV::Commit { commit } => {
            &&& commit.tree < bound
            &&& is_tree(s, commit.tree)
            &&& commit.parents.len() <= 1
            &&& forall|k: int|
                0 <= k < commit.parents.len() ==> commit.parents[k] < bound && is_commit(
                    s,
                    #[trigger] commit.parents[k],
                )
        },
    }
}

} // verus!
