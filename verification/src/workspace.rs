//! One workspace: a repository with its store, references, staging index
//! and working directory.
//!
//! Every operation here keeps the workspace well formed: the store stays
//! canonical and free of dangling references, branches keep pointing at
//! commits, and the working directory stays in name order. A mutating
//! operation stores its objects first and repoints a reference last, so a
//! reference never exposes half-written history.

use vstd::prelude::*;
use vstd::string::StringSliceAdditionalSpecFns;
use crate::errors::RepoError;
use crate::history::{log_seq, LogEntry, LogEntryV};
use crate::index::{status_merge, FileState, IndexEntry, IndexEntryV, StatusEntry, StatusV};
use crate::objects::{
    blob_bytes, commit_of, entries_sorted, is_blob, is_commit, is_tree, obj_wf, tree_entries,
    CommitData, Object, ObjectV, TreeEntry, TreeEntryV,
};
use crate::order::lex_lt;
use crate::refs::{
    all_digits, branch_has, branch_lookup, branches_unique, dec_value, head_target,
    lemma_branch_lookup_push, lemma_branch_lookup_update,
    parse_digest, refs_wf, BranchRef, BranchV, Head, HeadV, RefTable, RefTableV,
};
use crate::store::{store_extends, store_wf, ObjectStore};
use crate::workdir::{files_sorted, wd_has, wd_lookup, wd_remove, wd_set, WorkDir, WorkFile, WorkFileV};

verus! {

/// The identity recorded as author and committer of every commit.
pub const AUTHOR: &'static str = "docversions";

/// One workspace: object store, reference table, staging index, working
/// directory, and the logical clock that stamps commits.
pub struct Workspace {
    pub store: ObjectStore,
    pub refs: RefTable,
    pub index: Vec<IndexEntry>,
    pub workdir: WorkDir,
    pub clock: u64,
}

/// The mathematical picture of a workspace.
#[verifier::ext_equal]
pub struct WorkspaceV {
    pub store: Seq<ObjectV>,
    pub refs: RefTableV,
    pub index: Seq<IndexEntryV>,
    pub workdir: Seq<WorkFileV>,
    pub clock: u64,
}

impl View for Workspace {
    type V = WorkspaceV;

    open spec fn view(&self) -> WorkspaceV {
        WorkspaceV {
            store: self.store@,
            refs: self.refs@,
            index: self.index@.map_values(|e: IndexEntry| e@),
            workdir: self.workdir@,
            clock: self.clock,
        }
    }
}

/// A well-formed workspace: canonical store, sound references, working
/// directory in name order, and every staged blob present in the store.
pub open spec fn ws_wf(w: WorkspaceV) -> bool {
    &&& store_wf(w.store)
    &&& refs_wf(w.refs, w.store)
    &&& files_sorted(w.workdir)
    &&& forall|i: int| 0 <= i < w.index.len() ==> is_blob(w.store, #[trigger] w.index[i].blob)
}

/// The commit HEAD resolves to, if any.
pub open spec fn head_commit(w: WorkspaceV) -> Option<u64> {
    head_target(w.refs)
}

/// The file a tree entry stands for: its name bound to the bytes of its
/// blob.
pub open spec fn entry_file(s: Seq<ObjectV>, e: TreeEntryV) -> WorkFileV {
    WorkFileV { name: e.name, content: blob_bytes(s, e.blob) }
}

/// The files of the tree at digest `t`, in entry order.
pub open spec fn tree_files(s: Seq<ObjectV>, t: u64) -> Seq<WorkFileV> {
    tree_entries(s, t).map_values(|e: TreeEntryV| entry_file(s, e))
}

/// The files recorded by the commit at digest `c`.
pub open spec fn commit_files(s: Seq<ObjectV>, c: u64) -> Seq<WorkFileV> {
    tree_files(s, commit_of(s, c).tree)
}

/// The files the last commit recorded: what file status is judged
/// against. Before any commit exists there is nothing to judge against.
pub open spec fn ws_base_files(w: WorkspaceV) -> Seq<WorkFileV> {
    match head_commit(w) {
        Some(c) => commit_files(w.store, c),
        None => Seq::empty(),
    }
}

/// How one file on disk stands against the files of the last commit.
pub open spec fn file_state(f: WorkFileV, base: Seq<WorkFileV>) -> FileState {
    match wd_lookup(base, f.name) {
        None => FileState::New,
        Some(c) => if c == f.content {
            FileState::Unmodified
        } else {
            FileState::Modified
        },
    }
}

/// What a target string resolves to: the commit of the branch of that
/// name; failing that, the string read as a decimal digest, which must
/// name a stored commit — a stored non-commit is `Corrupt`, anything else
/// is `NotFound`.
pub open spec fn resolve_spec(w: WorkspaceV, t: Seq<char>) -> Result<u64, RepoError> {
    match branch_lookup(w.refs.branches, t) {
        Some(d) => Ok(d),
        None => if t.len() > 0 && all_digits(t) && dec_value(t) <= u64::MAX as int {
            let d = dec_value(t) as u64;
            if is_commit(w.store, d) {
                Ok(d)
            } else if d < w.store.len() {
                Err(RepoError::Corrupt)
            } else {
                Err(RepoError::NotFound)
            }
        } else {
            Err(RepoError::NotFound)
        },
    }
}

/// Growing the store does not change what a commit already present
/// records: its files read the same in the grown store.
pub proof fn lemma_commit_files_extends(s: Seq<ObjectV>, s2: Seq<ObjectV>, c: u64)
    requires
        store_wf(s),
        store_extends(s2, s),
        is_commit(s, c),
    ensures
        commit_files(s2, c) == commit_files(s, c),
        is_commit(s2, c),
        commit_of(s2, c) == commit_of(s, c),
{
    assert(s2[c as int] == s[c as int]);
    assert(obj_wf(s, s[c as int], c as int));
    let t = commit_of(s, c).tree;
    assert(is_tree(s, t));
    assert(s2[t as int] == s[t as int]);
    assert(obj_wf(s, s[t as int], t as int));
    let es = tree_entries(s, t);
    assert forall|k: int| 0 <= k < es.len() implies entry_file(s2, es[k]) == entry_file(
        s,
        es[k],
    ) by {
        assert(is_blob(s, es[k].blob));
        assert(s2[es[k].blob as int] == s[es[k].blob as int]);
    }
    assert(tree_files(s2, t) =~= tree_files(s, t));
}

/// Copies a byte vector.
fn copy_bytes(src: &Vec<u8>) -> (r: Vec<u8>)
    ensures
        r@ == src@,
{
    let mut out: Vec<u8> = Vec::new();
    let n = src.len();
    let mut i: usize = 0;
    while i < n
        invariant
            i <= n,
            n == src@.len(),
            out@ =~= src@.take(i as int),
        decreases n - i,
    {
        out.push(src[i]);
        proof {
            assert(out@ =~= src@.take(i as int + 1));
        }
        i = i + 1;
    }
    proof {
        assert(src@.take(n as int) =~= src@);
    }
    out
}

/// Whether digest `d` resolves to a commit in the store.
fn commit_at(store: &ObjectStore, d: u64) -> (r: bool)
    ensures
        r == is_commit(store@, d),
{
    match store.get(d) {
        Ok(o) => match o {
            Object::Commit(_) => true,
            _ => false,
        },
        Err(_) => false,
    }
}

/// Builds the working directory a commit records: every blob of its tree
/// materialized under its entry name, in name order.
fn materialize(store: &ObjectStore, c: u64) -> (w: WorkDir)
    requires
        store_wf(store@),
        is_commit(store@, c),
    ensures
        w@ == commit_files(store@, c),
        files_sorted(w@),
{
    proof {
        assert(obj_wf(store@, store@[c as int], c as int));
    }
    let tree_digest = match store.get(c) {
        Ok(o) => match o {
            Object::Commit(data) => data.tree,
            _ => {
                proof {
                    assert(false);
                }
                0
            },
        },
        Err(_) => {
            proof {
                assert(false);
            }
            0
        },
    };
    let ghost t = commit_of(store@, c).tree;
    proof {
        assert(tree_digest == t);
        assert(is_tree(store@, t));
        assert(obj_wf(store@, store@[t as int], t as int));
    }
    let entries = match store.get(tree_digest) {
        Ok(o) => match o {
            Object::Tree(es) => es,
            _ => {
                proof {
                    assert(false);
                }
                return WorkDir::new();
            },
        },
        Err(_) => {
            proof {
                assert(false);
            }
            return WorkDir::new();
        },
    };
    let ghost ev = tree_entries(store@, t);
    proof {
        assert(entries@.map_values(|e: TreeEntry| e@) == ev);
        assert(entries_sorted(ev));
    }
    let mut files: Vec<WorkFile> = Vec::new();
    let n = entries.len();
    let mut i: usize = 0;
    while i < n
        invariant
            i <= n,
            n == entries@.len(),
            n == ev.len(),
            store_wf(store@),
            forall|k: int| 0 <= k < ev.len() ==> ev[k] == entries@[k]@,
            forall|k: int| 0 <= k < ev.len() ==> is_blob(store@, #[trigger] ev[k].blob),
            files@.len() == i,
            files@.map_values(|f: WorkFile| f@) =~= tree_files(store@, t).take(i as int),
            is_tree(store@, t),
            ev == tree_entries(store@, t),
        decreases n - i,
    {
        proof {
            assert(ev[i as int] == entries@[i as int]@);
            assert(is_blob(store@, ev[i as int].blob));
            assert(entries@[i as int]@.blob == ev[i as int].blob);
        }
        let content = match store.get(entries[i].blob) {
            Ok(o) => match o {
                Object::Blob(bytes) => {
                    proof {
                        assert(o@ == store@[ev[i as int].blob as int]);
                        assert(o@ == ObjectV::Blob { bytes: bytes@ });
                        assert(bytes@ == blob_bytes(store@, ev[i as int].blob));
                    }
                    copy_bytes(bytes)
                },
                _ => {
                    proof {
                        assert(false);
                    }
                    Vec::new()
                },
            },
            Err(_) => {
                proof {
                    assert(false);
                }
                Vec::new()
            },
        };
        let name = entries[i].name.clone();
        let ghost nv = name@;
        let ghost cv = content@;
        proof {
            assert(nv == ev[i as int].name);
            assert(cv == blob_bytes(store@, ev[i as int].blob));
        }
        files.push(WorkFile { name, content });
        proof {
            let tf = tree_files(store@, t);
            assert(tf[i as int] == entry_file(store@, ev[i as int]));
            assert(files@[i as int]@ == (WorkFileV { name: nv, content: cv }));
            assert(files@.map_values(|f: WorkFile| f@) =~= tf.take(i as int + 1));
        }
        i = i + 1;
    }
    let w = WorkDir { files };
    proof {
        assert(tree_files(store@, t).take(n as int) =~= tree_files(store@, t));
        assert(w@ == commit_files(store@, c));
        let tf = tree_files(store@, t);
        assert forall|a: int, b: int| 0 <= a < b < tf.len() implies lex_lt(
            tf[a].name,
            tf[b].name,
        ) by {
            assert(tf[a] == entry_file(store@, ev[a]));
            assert(tf[b] == entry_file(store@, ev[b]));
            assert(lex_lt(ev[a].name, ev[b].name));
        }
    }
    w
}

impl Workspace {
    /// A bare repository: empty store, no branches, HEAD in the zero
    /// state, nothing on disk. Only the bootstrap commits here.
    pub fn init() -> (w: Workspace)
        ensures
            ws_wf(w@),
            w@.store =~= Seq::<ObjectV>::empty(),
            w@.refs.branches =~= Seq::<BranchV>::empty(),
            w@.refs.head == HeadV::Unborn,
            w@.workdir =~= Seq::<WorkFileV>::empty(),
            w@.index =~= Seq::<IndexEntryV>::empty(),
            w@.clock == 0,
            head_commit(w@) is None,
    {
        let w = Workspace {
            store: ObjectStore::new(),
            refs: RefTable::new(),
            index: Vec::new(),
            workdir: WorkDir::new(),
            clock: 0,
        };
        proof {
            assert(w@.index =~= Seq::<IndexEntryV>::empty());
        }
        w
    }

    /// The names of this workspace's branches, in creation order.
    pub fn branches(&self) -> (r: Vec<String>)
        ensures
            r@.len() == self@.refs.branches.len(),
            forall|i: int| 0 <= i < r@.len() ==> r@[i]@ == self@.refs.branches[i].name,
    {
        self.refs.names()
    }

    /// The commit HEAD resolves to, if any.
    pub fn last_commit(&self) -> (r: Option<u64>)
        ensures
            r == head_commit(self@),
    {
        self.refs.head_commit()
    }

    /// Resolves a target: a branch name, or a decimal commit digest.
    pub fn resolve(&self, target: &str) -> (r: Result<u64, RepoError>)
        ensures
            r == resolve_spec(self@, target@),
    {
        match self.refs.find_branch(target) {
            Some(i) => Ok(self.refs.branches[i].target),
            None => {
                match parse_digest(target) {
                    Some(d) => {
                        if commit_at(&self.store, d) {
                            Ok(d)
                        } else if self.store.contains(d) {
                            Err(RepoError::Corrupt)
                        } else {
                            Err(RepoError::NotFound)
                        }
                    },
                    None => {
                        proof {
                            if target@.len() > 0 && all_digits(target@) && dec_value(target@)
                                <= u64::MAX as int {
                                assert(false);
                            }
                        }
                        Err(RepoError::NotFound)
                    },
                }
            },
        }
    }

    /// The log of the branch checked out: the full ancestry of the commit
    /// HEAD resolves to, newest first. Before any commit exists there is
    /// nothing to walk: `NotFound`.
    pub fn log(&self) -> (r: Result<Vec<LogEntry>, RepoError>)
        requires
            ws_wf(self@),
        ensures
            match r {
                Ok(entries) => head_commit(self@) is Some && entries@.map_values(
                    |e: LogEntry| e@,
                ) == log_seq(self@.store, head_commit(self@)->0),
                Err(e) => e == RepoError::NotFound && head_commit(self@) is None,
            },
    {
        let c = match self.last_commit() {
            Some(c) => c,
            None => {
                return Err(RepoError::NotFound);
            },
        };
        proof {
            lemma_head_commit_is_commit(self@);
        }
        match crate::history::collect_log(&self.store, c) {
            Ok(v) => Ok(v),
            Err(_) => {
                proof {
                    assert(false);
                }
                Err(RepoError::Corrupt)
            },
        }
    }

    /// The status report of the working directory against the last
    /// commit, in name order. It reads the workspace and changes nothing.
    pub fn status(&self) -> (r: Vec<StatusEntry>)
        requires
            ws_wf(self@),
        ensures
            r@.map_values(|e: StatusEntry| e@) == status_merge(self@.workdir, ws_base_files(self@)),
    {
        match self.last_commit() {
            Some(c) => {
                proof {
                    lemma_head_commit_is_commit(self@);
                }
                let base = materialize(&self.store, c);
                crate::index::status_of(&self.workdir, &base)
            },
            None => {
                let base = WorkDir::new();
                crate::index::status_of(&self.workdir, &base)
            },
        }
    }

    /// The bytes of `name` as the last commit recorded them. An absent
    /// name — or a workspace with no commit yet — is `NotFound`.
    pub fn file_content(&self, name: &str) -> (r: Result<Vec<u8>, RepoError>)
        requires
            ws_wf(self@),
        ensures
            match r {
                Ok(b) => head_commit(self@) is Some && wd_lookup(
                    commit_files(self@.store, head_commit(self@)->0),
                    name@,
                ) == Some(b@),
                Err(e) => e == RepoError::NotFound && (head_commit(self@) is None || wd_lookup(
                    commit_files(self@.store, head_commit(self@)->0),
                    name@,
                ) is None),
            },
    {
        let c = match self.last_commit() {
            Some(c) => c,
            None => {
                return Err(RepoError::NotFound);
            },
        };
        proof {
            lemma_head_commit_is_commit(self@);
        }
        let base = materialize(&self.store, c);
        match base.get(name) {
            Some(content) => Ok(copy_bytes(content)),
            None => Err(RepoError::NotFound),
        }
    }
}

impl Workspace {
    /// Creates a branch at the commit HEAD resolves to and attaches HEAD
    /// to it. A workspace with no commit yet is `NotFound`; a branch name
    /// already taken is `Conflict`; either failure changes nothing.
    pub fn create_branch(&mut self, name: String) -> (r: Result<(), RepoError>)
        requires
            ws_wf(old(self)@),
        ensures
            ws_wf(final(self)@),
            match r {
                Ok(()) => {
                    &&& head_commit(old(self)@) is Some
                    &&& !branch_has(old(self)@.refs.branches, name@)
                    &&& final(self)@.refs.branches == old(self)@.refs.branches.push(
                        BranchV { name: name@, target: head_commit(old(self)@)->0 },
                    )
                    &&& final(self)@.refs.head == HeadV::Attached(name@)
                    &&& final(self)@.store == old(self)@.store
                    &&& final(self)@.workdir == old(self)@.workdir
                    &&& final(self)@.index == old(self)@.index
                    &&& final(self)@.clock == old(self)@.clock
                    &&& head_commit(final(self)@) == head_commit(old(self)@)
                },
                Err(e) => {
                    &&& final(self)@ == old(self)@
                    &&& (e == RepoError::NotFound || e == RepoError::Conflict)
                    &&& (e == RepoError::NotFound <==> head_commit(old(self)@) is None)
                    &&& (e == RepoError::Conflict <==> head_commit(old(self)@) is Some
                        && branch_has(old(self)@.refs.branches, name@))
                },
            },
    {
        let h = match self.last_commit() {
            Some(h) => h,
            None => {
                proof {
                    assert(self@ =~= old(self)@);
                }
                return Err(RepoError::NotFound);
            },
        };
        proof {
            lemma_head_commit_is_commit(self@);
        }
        let ghost name_v = name@;
        let head_name = name.clone();
        match self.refs.create(name, h) {
            Err(e) => {
                proof {
                    assert(self@ =~= old(self)@);
                }
                Err(e)
            },
            Ok(()) => {
                let ghost bs0 = old(self)@.refs.branches;
                self.refs.set_head(Head::Attached(head_name));
                proof {
                    lemma_branch_lookup_push(
                        bs0,
                        BranchV { name: name_v, target: h },
                        name_v,
                    );
                    crate::refs::lemma_branch_lookup_has(bs0, name_v);
                    assert(branches_unique(final(self)@.refs.branches)) by {
                        let nb = bs0.push(BranchV { name: name_v, target: h });
                        assert forall|a: int, b: int|
                            0 <= a < b < nb.len() implies nb[a].name != nb[b].name by {
                            if b < bs0.len() {
                                assert(nb[a] == bs0[a]);
                                assert(nb[b] == bs0[b]);
                            } else {
                                assert(nb[a] == bs0[a]);
                                assert(nb[b].name == name_v);
                            }
                        }
                    }
                }
                Ok(())
            },
        }
    }
}

impl Workspace {
    /// Switches HEAD to `target` — a branch name, or a decimal commit
    /// digest for a detached HEAD — and forces the working directory to
    /// the exact files of that commit. Files not in the target's tree are
    /// gone afterwards, uncommitted changes with them. A target that
    /// resolves to nothing changes nothing.
    pub fn set_branch(&mut self, target: &str) -> (r: Result<(), RepoError>)
        requires
            ws_wf(old(self)@),
        ensures
            ws_wf(final(self)@),
            match r {
                Ok(()) => {
                    &&& head_commit(final(self)@) is Some
                    &&& resolve_spec(old(self)@, target@) == Ok::<u64, RepoError>(
                        head_commit(final(self)@)->0,
                    )
                    &&& final(self)@.store == old(self)@.store
                    &&& final(self)@.refs.branches == old(self)@.refs.branches
                    &&& final(self)@.index == old(self)@.index
                    &&& final(self)@.clock == old(self)@.clock
                    &&& final(self)@.workdir == commit_files(
                        old(self)@.store,
                        head_commit(final(self)@)->0,
                    )
                    &&& final(self)@.refs.head == (match branch_lookup(
                        old(self)@.refs.branches,
                        target@,
                    ) {
                        Some(_) => HeadV::Attached(target@),
                        None => HeadV::Detached(head_commit(final(self)@)->0),
                    })
                },
                Err(e) => {
                    &&& resolve_spec(old(self)@, target@) == Err::<u64, RepoError>(e)
                    &&& final(self)@ == old(self)@
                },
            },
    {
        match self.refs.find_branch(target) {
            Some(i) => {
                let d = self.refs.branches[i].target;
                proof {
                    assert(is_commit(self@.store, self@.refs.branches[i as int].target));
                }
                self.refs.set_head(Head::Attached(target.to_owned()));
                self.workdir = materialize(&self.store, d);
                Ok(())
            },
            None => {
                match parse_digest(target) {
                    Some(d) => {
                        if commit_at(&self.store, d) {
                            self.refs.set_head(Head::Detached(d));
                            self.workdir = materialize(&self.store, d);
                            Ok(())
                        } else if self.store.contains(d) {
                            proof {
                                assert(self@ =~= old(self)@);
                            }
                            Err(RepoError::Corrupt)
                        } else {
                            proof {
                                assert(self@ =~= old(self)@);
                            }
                            Err(RepoError::NotFound)
                        }
                    },
                    None => {
                        proof {
                            if target@.len() > 0 && all_digits(target@) && dec_value(target@)
                                <= u64::MAX as int {
                                assert(false);
                            }
                            assert(self@ =~= old(self)@);
                        }
                        Err(RepoError::NotFound)
                    },
                }
            },
        }
    }
}

impl Workspace {
    /// Walks the working directory and replaces the index with one entry
    /// per file on disk: its blob is stored, and its status judged
    /// against the files of the last commit. Deleted paths — known to the
    /// last commit, absent on disk — simply drop out of the index: the
    /// index is the candidate next commit.
    pub fn stage_all(&mut self)
        requires
            ws_wf(old(self)@),
        ensures
            ws_wf(final(self)@),
            store_wf(final(self)@.store),
            store_extends(final(self)@.store, old(self)@.store),
            final(self)@.refs == old(self)@.refs,
            final(self)@.workdir == old(self)@.workdir,
            final(self)@.clock == old(self)@.clock,
            final(self)@.index.len() == old(self)@.workdir.len(),
            forall|k: int|
                0 <= k < final(self)@.index.len() ==> {
                    &&& (#[trigger] final(self)@.index[k]).name == old(self)@.workdir[k].name
                    &&& is_blob(final(self)@.store, final(self)@.index[k].blob)
                    &&& blob_bytes(final(self)@.store, final(self)@.index[k].blob) == old(
                        self,
                    )@.workdir[k].content
                    &&& final(self)@.index[k].state == file_state(
                        old(self)@.workdir[k],
                        ws_base_files(old(self)@),
                    )
                },
    {
        let base = match self.last_commit() {
            Some(c) => {
                proof {
                    lemma_head_commit_is_commit(self@);
                }
                materialize(&self.store, c)
            },
            None => WorkDir::new(),
        };
        let ghost base_v = ws_base_files(old(self)@);
        proof {
            assert(base@ == base_v);
        }
        let mut staged: Vec<IndexEntry> = Vec::new();
        let n = self.workdir.files.len();
        let mut i: usize = 0;
        while i < n
            invariant
                i <= n,
                ws_wf(old(self)@),
                n == self.workdir.files@.len(),
                self@.workdir == old(self)@.workdir,
                self@.refs == old(self)@.refs,
                self@.index == old(self)@.index,
                self@.clock == old(self)@.clock,
                store_wf(self@.store),
                store_extends(self@.store, old(self)@.store),
                base@ == base_v,
                crate::workdir::files_sorted(base@),
                staged@.len() == i,
                forall|k: int| 0 <= k < self@.workdir.len() ==> self@.workdir[k]
                    == self.workdir.files@[k]@,
                forall|k: int|
                    0 <= k < i ==> {
                        &&& (#[trigger] staged@[k]@).name == old(self)@.workdir[k].name
                        &&& is_blob(self@.store, staged@[k]@.blob)
                        &&& blob_bytes(self@.store, staged@[k]@.blob) == old(
                            self,
                        )@.workdir[k].content
                        &&& staged@[k]@.state == file_state(old(self)@.workdir[k], base_v)
                    },
            decreases n - i,
        {
            let ghost store_before = self@.store;
            let name = self.workdir.files[i].name.clone();
            let content = copy_bytes(&self.workdir.files[i].content);
            let ghost fv = old(self)@.workdir[i as int];
            proof {
                assert(fv == self.workdir.files@[i as int]@);
                assert(name@ == fv.name);
                assert(content@ == fv.content);
            }
            let state = match base.get(name.as_str()) {
                None => FileState::New,
                Some(bc) => {
                    if crate::store::bytes_eq(bc, &self.workdir.files[i].content) {
                        FileState::Unmodified
                    } else {
                        FileState::Modified
                    }
                },
            };
            proof {
                assert(state == file_state(fv, base_v));
            }
            let d = self.store.put(Object::Blob(content));
            proof {
                crate::store::lemma_store_extends_trans(
                    self@.store,
                    store_before,
                    old(self)@.store,
                );
                assert(blob_bytes(self@.store, d) == fv.content);
                assert forall|k: int| 0 <= k < i implies {
                    &&& is_blob(self@.store, (#[trigger] staged@[k]@).blob)
                    &&& blob_bytes(self@.store, staged@[k]@.blob) == old(
                        self,
                    )@.workdir[k].content
                } by {
                    assert(is_blob(store_before, staged@[k]@.blob));
                    assert(self@.store[staged@[k]@.blob as int] == store_before[staged@[k]@.blob as int]);
                }
            }
            staged.push(IndexEntry { path: name, blob: d, state });
            i = i + 1;
        }
        self.index = staged;
        proof {
            assert(self@.index =~= staged@.map_values(|e: IndexEntry| e@));
            assert forall|k: int| 0 <= k < self@.index.len() implies (#[trigger] self@.index[k])
                == staged@[k]@ by {}
        }
    }
}

impl Workspace {
    /// Stages everything on disk and commits it: builds the tree of the
    /// working directory, stores it, stores a commit whose single parent
    /// is the commit HEAD resolves to, and only then repoints the branch
    /// HEAD tracks (or HEAD itself, detached) at the new commit — objects
    /// first, reference last, so no reference ever shows a half-written
    /// commit. A workspace with no commit yet takes no file-level commit:
    /// `NotFound`, and nothing changes.
    pub fn commit_all(&mut self, message: String) -> (r: Result<u64, RepoError>)
        requires
            ws_wf(old(self)@),
        ensures
            ws_wf(final(self)@),
            match r {
                Ok(c) => {
                    &&& head_commit(old(self)@) is Some
                    &&& store_extends(final(self)@.store, old(self)@.store)
                    &&& final(self)@.workdir == old(self)@.workdir
                    &&& head_commit(final(self)@) == Some(c)
                    &&& is_commit(final(self)@.store, c)
                    &&& commit_of(final(self)@.store, c).message == message@
                    &&& commit_of(final(self)@.store, c).parents == seq![
                        head_commit(old(self)@)->0,
                    ]
                    &&& commit_of(final(self)@.store, c).timestamp == old(self)@.clock
                    &&& commit_of(final(self)@.store, c).author == AUTHOR@
                    &&& commit_files(final(self)@.store, c) == old(self)@.workdir
                    &&& log_seq(final(self)@.store, c) == seq![
                        LogEntryV { commit_id: c, message: message@ },
                    ] + log_seq(old(self)@.store, head_commit(old(self)@)->0)
                    &&& final(self)@.refs.branches.len() == old(self)@.refs.branches.len()
                    &&& forall|i: int|
                        0 <= i < final(self)@.refs.branches.len() ==> (
                        #[trigger] final(self)@.refs.branches[i]).name
                            == old(self)@.refs.branches[i].name
                    &&& forall|i: int|
                        0 <= i < final(self)@.refs.branches.len() ==> (
                        #[trigger] final(self)@.refs.branches[i]).target == (if old(
                            self,
                        )@.refs.head == HeadV::Attached(old(self)@.refs.branches[i].name) {
                            c
                        } else {
                            old(self)@.refs.branches[i].target
                        })
                    &&& (match old(self)@.refs.head {
                        HeadV::Attached(_) => final(self)@.refs.head == old(self)@.refs.head,
                        HeadV::Detached(_) => final(self)@.refs.head == HeadV::Detached(c),
                        HeadV::Unborn => false,
                    })
                },
                Err(e) => {
                    &&& e == RepoError::NotFound
                    &&& head_commit(old(self)@) is None
                    &&& final(self)@ == old(self)@
                },
            },
    {
        let h = match self.last_commit() {
            Some(h) => h,
            None => {
                return Err(RepoError::NotFound);
            },
        };
        proof {
            lemma_head_commit_is_commit(self@);
            assert(is_commit(old(self)@.store, h));
            assert(h < old(self)@.store.len());
        }
        let ghost wd = old(self)@.workdir;
        let ghost msg_v = message@;
        self.stage_all();
        let ghost s1 = self@.store;

        let mut entries: Vec<TreeEntry> = Vec::new();
        let n = self.index.len();
        let mut i: usize = 0;
        while i < n
            invariant
                i <= n,
                n == self.index@.len(),
                self@.index.len() == wd.len(),
                entries@.len() == i,
                forall|k: int| 0 <= k < self@.index.len() ==> self@.index[k]
                    == self.index@[k]@,
                forall|k: int|
                    0 <= k < i ==> (#[trigger] entries@[k]@).name == self@.index[k].name
                        && entries@[k]@.blob == self@.index[k].blob,
            decreases n - i,
        {
            entries.push(TreeEntry { name: self.index[i].path.clone(), blob: self.index[i].blob });
            proof {
                assert(self@.index[i as int] == self.index@[i as int]@);
            }
            i = i + 1;
        }
        let ghost ev = entries@.map_values(|e: TreeEntry| e@);
        proof {
            assert(ev.len() == wd.len());
            assert forall|k: int| 0 <= k < ev.len() implies ev[k] == entries@[k]@ by {}
            assert forall|k: int| 0 <= k < ev.len() implies (#[trigger] ev[k]).name == wd[k].name
                && is_blob(s1, ev[k].blob) && blob_bytes(s1, ev[k].blob) == wd[k].content by {
                assert(self@.index[k].name == wd[k].name);
            }
            assert(entries_sorted(ev)) by {
                assert forall|a: int, b: int| 0 <= a < b < ev.len() implies lex_lt(
                    ev[a].name,
                    ev[b].name,
                ) by {
                    assert(ev[a].name == wd[a].name);
                    assert(ev[b].name == wd[b].name);
                    assert(files_sorted(wd));
                }
            }
            assert(obj_wf(s1, Object::Tree(entries)@, s1.len() as int));
        }
        let t = self.store.put(Object::Tree(entries));
        let ghost s2 = self@.store;
        proof {
            assert(is_tree(s2, t));
            assert(tree_entries(s2, t) == ev);
            crate::store::lemma_store_extends_trans(s2, s1, old(self)@.store);
            assert(is_commit(s2, h)) by {
                assert(s2[h as int] == old(self)@.store[h as int]);
            }
        }
        let mut parents: Vec<u64> = Vec::new();
        parents.push(h);
        proof {
            assert(parents@ =~= seq![h]);
        }
        let commit_data = CommitData {
            tree: t,
            parents,
            author: AUTHOR.to_owned(),
            message,
            timestamp: self.clock,
        };
        proof {
            assert(commit_data@.parents =~= seq![h]);
            assert(obj_wf(s2, Object::Commit(commit_data)@, s2.len() as int));
        }
        let ghost cd = commit_data@;
        let c = self.store.put(Object::Commit(commit_data));
        let ghost s3 = self@.store;
        proof {
            assert(s3[c as int] == ObjectV::Commit { commit: cd });
            assert(is_commit(s3, c));
            assert(commit_of(s3, c) == cd);
            crate::store::lemma_store_extends_trans(s3, s2, s1);
            crate::store::lemma_store_extends_trans(s3, s1, old(self)@.store);
            // the parent predates the commit, stored fresh or found again
            assert(h < c) by {
                assert(obj_wf(s3, s3[c as int], c as int));
                assert(commit_of(s3, c).parents[0] == h);
            }
            // the new commit records exactly the working directory
            assert(tree_entries(s3, t) == ev) by {
                assert(s3[t as int] == s2[t as int]);
            }
            assert(commit_files(s3, c) =~= wd) by {
                let tf = tree_files(s3, t);
                assert(tf.len() == wd.len());
                assert forall|k: int| 0 <= k < wd.len() implies tf[k] == wd[k] by {
                    assert(tf[k] == entry_file(s3, ev[k]));
                    assert(is_blob(s1, ev[k].blob));
                    assert(s3[ev[k].blob as int] == s1[ev[k].blob as int]);
                    assert(blob_bytes(s3, ev[k].blob) == wd[k].content);
                }
            }
            // the log of the new commit: itself, then the old history
            assert(log_seq(s3, c) =~= seq![LogEntryV { commit_id: c, message: msg_v }]
                + log_seq(old(self)@.store, h)) by {
                crate::history::lemma_log_seq_extends(old(self)@.store, s3, h);
            }
        }
        if self.clock < u64::MAX {
            self.clock = self.clock + 1;
        }
        let attached: Option<String> = match &self.refs.head {
            Head::Attached(nm) => Some(nm.clone()),
            Head::Detached(_) => None,
            Head::Unborn => {
                proof {
                    assert(false);
                }
                None
            },
        };
        match attached {
            Some(nm) => {
                let ghost bs = self@.refs.branches;
                proof {
                    assert(old(self)@.refs.head == HeadV::Attached(nm@));
                    crate::refs::lemma_branch_lookup_has(bs, nm@);
                }
                let bi = match self.refs.find_branch(nm.as_str()) {
                    Some(bi) => bi,
                    None => {
                        proof {
                            assert(false);
                        }
                        0
                    },
                };
                proof {
                    assert(bs[bi as int].name == nm@);
                }
                self.refs.branches[bi] = BranchRef { name: nm, target: c };
                proof {
                    assert(self@.refs.branches =~= bs.update(
                        bi as int,
                        BranchV { name: nm@, target: c },
                    ));
                    lemma_branch_lookup_update(bs, bi as int, c);
                    assert(head_commit(self@) == Some(c));
                    assert(branches_unique(self@.refs.branches)) by {
                        assert forall|a: int, b: int|
                            0 <= a < b < self@.refs.branches.len() implies self@.refs.branches[a].name
                            != self@.refs.branches[b].name by {
                            assert(self@.refs.branches[a].name == bs[a].name);
                            assert(self@.refs.branches[b].name == bs[b].name);
                        }
                    }
                    assert forall|k: int|
                        0 <= k < self@.refs.branches.len() implies is_commit(
                        s3,
                        #[trigger] self@.refs.branches[k].target,
                    ) by {
                        if k != bi as int {
                            assert(self@.refs.branches[k] == bs[k]);
                            assert(is_commit(old(self)@.store, bs[k].target));
                            assert(s3[bs[k].target as int] == old(
                                self,
                            )@.store[bs[k].target as int]);
                        }
                    }
                    assert forall|k: int|
                        0 <= k < self@.refs.branches.len() implies (
                        #[trigger] self@.refs.branches[k]).target == (if old(self)@.refs.head
                            == HeadV::Attached(old(self)@.refs.branches[k].name) {
                            c
                        } else {
                            old(self)@.refs.branches[k].target
                        }) by {
                        if k != bi as int {
                            assert(self@.refs.branches[k] == bs[k]);
                            assert(bs[k].name != nm@);
                        }
                    }
                }
                proof {
                    lemma_index_blobs_extend(old(self)@, self@, s1, s3);
                }
                Ok(c)
            },
            None => {
                self.refs.set_head(Head::Detached(c));
                proof {
                    assert(head_commit(self@) == Some(c));
                    assert forall|k: int|
                        0 <= k < self@.refs.branches.len() implies is_commit(
                        s3,
                        #[trigger] self@.refs.branches[k].target,
                    ) by {
                        assert(is_commit(old(self)@.store, self@.refs.branches[k].target));
                        assert(s3[self@.refs.branches[k].target as int] == old(
                            self,
                        )@.store[self@.refs.branches[k].target as int]);
                    }
                    lemma_index_blobs_extend(old(self)@, self@, s1, s3);
                }
                Ok(c)
            },
        }
    }
}

/// Every staged blob stays a stored blob when the store grows.
proof fn lemma_index_blobs_extend(w0: WorkspaceV, w: WorkspaceV, s1: Seq<ObjectV>, s3: Seq<ObjectV>)
    requires
        w.store == s3,
        store_extends(s3, s1),
        forall|i: int| 0 <= i < w.index.len() ==> is_blob(s1, #[trigger] w.index[i].blob),
    ensures
        forall|i: int| 0 <= i < w.index.len() ==> is_blob(w.store, #[trigger] w.index[i].blob),
{
    assert forall|i: int| 0 <= i < w.index.len() implies is_blob(
        w.store,
        #[trigger] w.index[i].blob,
    ) by {
        assert(is_blob(s1, w.index[i].blob));
        assert(s3[w.index[i].blob as int] == s1[w.index[i].blob as int]);
    }
}

/// The bytes of the template file every new workspace starts with.
pub open spec fn template_bytes() -> Seq<u8> {
    "New Workspace!".spec_bytes()
}

/// The name of the template file.
pub open spec fn template_name() -> Seq<char> {
    "README.md"@
}

/// What `create` leaves behind: a well-formed workspace whose history is
/// exactly the two bootstrap commits, whose `master` branch and HEAD
/// point at the second, and whose working directory holds exactly the
/// template file, clean against that commit.
pub open spec fn fresh_workspace(w: WorkspaceV) -> bool {
    let c2 = head_commit(w)->0;
    let c1 = commit_of(w.store, c2).parents[0];
    &&& ws_wf(w)
    &&& head_commit(w) is Some
    &&& w.workdir == seq![WorkFileV { name: template_name(), content: template_bytes() }]
    &&& commit_files(w.store, c2) == w.workdir
    &&& commit_of(w.store, c2).parents.len() == 1
    &&& commit_of(w.store, c2).message == "Second commit"@
    &&& commit_of(w.store, c1).message == "Initial commit"@
    &&& log_seq(w.store, c2) == seq![
        LogEntryV { commit_id: c2, message: "Second commit"@ },
        LogEntryV { commit_id: c1, message: "Initial commit"@ },
    ]
    &&& log_seq(w.store, c2).len() == 2
    &&& w.refs.branches.len() == 1
    &&& w.refs.branches[0].name == "master"@
    &&& w.refs.branches[0].target == c2
    &&& w.refs.head == HeadV::Attached("master"@)
}

impl Workspace {
    /// Creates a workspace with its bootstrap history: a root commit of an
    /// empty tree, the template file copied into the working directory,
    /// and a second commit carrying it; `master` and HEAD point at the
    /// second commit. Every workspace therefore starts with a two-commit,
    /// file-bearing history before any caller commits.
    pub fn create() -> (w: Workspace)
        ensures
            fresh_workspace(w@),
    {
        let mut w = Workspace::init();
        // root commit: an empty tree, no parent
        let empty_entries: Vec<TreeEntry> = Vec::new();
        proof {
            assert(Object::Tree(empty_entries)@ == (ObjectV::Tree {
                entries: Seq::<TreeEntryV>::empty(),
            })) by {
                assert(empty_entries@.map_values(|e: TreeEntry| e@) =~= Seq::<
                    TreeEntryV,
                >::empty());
            }
        }
        let t0 = w.store.put(Object::Tree(empty_entries));
        let no_parents: Vec<u64> = Vec::new();
        proof {
            assert(no_parents@ =~= Seq::<u64>::empty());
        }
        let root_data = CommitData {
            tree: t0,
            parents: no_parents,
            author: AUTHOR.to_owned(),
            message: "Initial commit".to_owned(),
            timestamp: w.clock,
        };
        proof {
            assert(obj_wf(w@.store, Object::Commit(root_data)@, w@.store.len() as int));
        }
        let ghost root_v = root_data@;
        let c1 = w.store.put(Object::Commit(root_data));
        let ghost s_root = w@.store;
        proof {
            assert(s_root[c1 as int] == ObjectV::Commit { commit: root_v });
            assert(is_commit(s_root, c1));
        }
        w.clock = 1;
        // master points at the root commit; HEAD follows master
        match w.refs.create("master".to_owned(), c1) {
            Ok(()) => (),
            Err(_) => {
                proof {
                    assert(false);
                }
            },
        }
        w.refs.set_head(Head::Attached("master".to_owned()));
        // the template file enters the working directory
        w.workdir.set("README.md".to_owned(), "New Workspace!".as_bytes_vec());
        proof {
            assert(w@.workdir =~= seq![
                WorkFileV { name: template_name(), content: template_bytes() },
            ]);
            assert(w@.refs.branches =~= seq![BranchV { name: "master"@, target: c1 }]);
            assert(branch_lookup(w@.refs.branches, "master"@) == Some(c1)) by {
                assert(w@.refs.branches[0].name == "master"@);
            }
            assert(head_commit(w@) == Some(c1));
            assert(ws_wf(w@)) by {
                assert(branches_unique(w@.refs.branches));
                assert(w@.index.len() == 0);
                assert(files_sorted(w@.workdir));
            }
        }
        let ghost w_mid = w@;
        // the second commit carries the template file
        let r = w.commit_all("Second commit".to_owned());
        let c2 = match r {
            Ok(c2) => c2,
            Err(_) => {
                proof {
                    assert(false);
                }
                0
            },
        };
        proof {
            assert(head_commit(w@) == Some(c2));
            assert(commit_of(w@.store, c2).parents =~= seq![c1]);
            assert(commit_of(w@.store, c2).parents[0] == c1);
            assert(log_seq(w_mid.store, c1) =~= seq![
                LogEntryV { commit_id: c1, message: "Initial commit"@ },
            ]) by {
                assert(is_commit(w_mid.store, c1));
                assert(commit_of(w_mid.store, c1) == root_v);
                assert(root_v.parents.len() == 0);
            }
            assert(log_seq(w@.store, c2) =~= seq![
                LogEntryV { commit_id: c2, message: "Second commit"@ },
                LogEntryV { commit_id: c1, message: "Initial commit"@ },
            ]) by {
                assert(log_seq(w@.store, c2) == seq![
                    LogEntryV { commit_id: c2, message: "Second commit"@ },
                ] + log_seq(w_mid.store, c1));
            }
            assert(commit_of(w@.store, c1).message == "Initial commit"@) by {
                assert(w@.store[c1 as int] == w_mid.store[c1 as int]);
                assert(commit_of(w_mid.store, c1) == root_v);
            }
            assert(w@.refs.branches[0].name == "master"@);
            assert(w@.refs.branches[0].target == c2) by {
                assert(w_mid.refs.head == HeadV::Attached(w_mid.refs.branches[0].name));
            }
            assert(w@.refs.head == HeadV::Attached("master"@));
        }
        w
    }
}

impl Workspace {
    /// Creates a file and commits it in one step: `Conflict` if the name
    /// is already on disk or in the last commit, `NotFound` on a
    /// workspace with no commit yet; either failure changes nothing. On
    /// success the new commit records the working directory with the file
    /// added, and only the branch HEAD tracks moves.
    pub fn create_file(&mut self, name: String, content: Vec<u8>, message: String) -> (r: Result<
        (),
        RepoError,
    >)
        requires
            ws_wf(old(self)@),
        ensures
            ws_wf(final(self)@),
            match r {
                Ok(()) => {
                    &&& head_commit(old(self)@) is Some
                    &&& !wd_has(old(self)@.workdir, name@)
                    &&& !wd_has(ws_base_files(old(self)@), name@)
                    &&& file_op_commit(
                        old(self)@,
                        final(self)@,
                        wd_set(old(self)@.workdir, name@, content@),
                        message@,
                    )
                },
                Err(e) => {
                    &&& final(self)@ == old(self)@
                    &&& (e == RepoError::NotFound <==> head_commit(old(self)@) is None)
                    &&& (e == RepoError::Conflict <==> head_commit(old(self)@) is Some && (wd_has(
                        old(self)@.workdir,
                        name@,
                    ) || wd_has(ws_base_files(old(self)@), name@)))
                    &&& (e == RepoError::NotFound || e == RepoError::Conflict)
                },
            },
    {
        let h = match self.last_commit() {
            Some(h) => h,
            None => {
                return Err(RepoError::NotFound);
            },
        };
        proof {
            lemma_head_commit_is_commit(self@);
        }
        if let Some(_) = self.workdir.find(name.as_str()) {
            return Err(RepoError::Conflict);
        }
        let base = materialize(&self.store, h);
        if let Some(_) = base.find(name.as_str()) {
            return Err(RepoError::Conflict);
        }
        self.workdir.set(name, content);
        match self.commit_all(message) {
            Ok(_) => Ok(()),
            Err(_) => {
                proof {
                    assert(false);
                }
                Err(RepoError::NotFound)
            },
        }
    }

    /// Replaces a file's bytes and commits in one step: `NotFound` if the
    /// name is neither on disk nor in the last commit, or if no commit
    /// exists yet; failure changes nothing. On success the new commit
    /// records the working directory with the file rewritten.
    pub fn update_file(&mut self, name: String, content: Vec<u8>, message: String) -> (r: Result<
        (),
        RepoError,
    >)
        requires
            ws_wf(old(self)@),
        ensures
            ws_wf(final(self)@),
            match r {
                Ok(()) => {
                    &&& head_commit(old(self)@) is Some
                    &&& (wd_has(old(self)@.workdir, name@) || wd_has(
                        ws_base_files(old(self)@),
                        name@,
                    ))
                    &&& file_op_commit(
                        old(self)@,
                        final(self)@,
                        wd_set(old(self)@.workdir, name@, content@),
                        message@,
                    )
                },
                Err(e) => {
                    &&& final(self)@ == old(self)@
                    &&& e == RepoError::NotFound
                    &&& (head_commit(old(self)@) is None || (!wd_has(old(self)@.workdir, name@)
                        && !wd_has(ws_base_files(old(self)@), name@)))
                },
            },
    {
        let h = match self.last_commit() {
            Some(h) => h,
            None => {
                return Err(RepoError::NotFound);
            },
        };
        proof {
            lemma_head_commit_is_commit(self@);
        }
        let on_disk = match self.workdir.find(name.as_str()) {
            Some(_) => true,
            None => false,
        };
        if !on_disk {
            let base = materialize(&self.store, h);
            match base.find(name.as_str()) {
                Some(_) => (),
                None => {
                    return Err(RepoError::NotFound);
                },
            }
        }
        self.workdir.set(name, content);
        match self.commit_all(message) {
            Ok(_) => Ok(()),
            Err(_) => {
                proof {
                    assert(false);
                }
                Err(RepoError::NotFound)
            },
        }
    }

    /// Deletes a file and commits in one step: `NotFound` if the name is
    /// neither on disk nor in the last commit, or if no commit exists
    /// yet; failure changes nothing. On success the new commit records
    /// the working directory without the file.
    pub fn delete_file(&mut self, name: &str, message: String) -> (r: Result<(), RepoError>)
        requires
            ws_wf(old(self)@),
        ensures
            ws_wf(final(self)@),
            match r {
                Ok(()) => {
                    &&& head_commit(old(self)@) is Some
                    &&& (wd_has(old(self)@.workdir, name@) || wd_has(
                        ws_base_files(old(self)@),
                        name@,
                    ))
                    &&& file_op_commit(
                        old(self)@,
                        final(self)@,
                        wd_remove(old(self)@.workdir, name@),
                        message@,
                    )
                },
                Err(e) => {
                    &&& final(self)@ == old(self)@
                    &&& e == RepoError::NotFound
                    &&& (head_commit(old(self)@) is None || (!wd_has(old(self)@.workdir, name@)
                        && !wd_has(ws_base_files(old(self)@), name@)))
                },
            },
    {
        let h = match self.last_commit() {
            Some(h) => h,
            None => {
                return Err(RepoError::NotFound);
            },
        };
        proof {
            lemma_head_commit_is_commit(self@);
        }
        let on_disk = match self.workdir.find(name) {
            Some(_) => true,
            None => false,
        };
        if !on_disk {
            let base = materialize(&self.store, h);
            match base.find(name) {
                Some(_) => (),
                None => {
                    return Err(RepoError::NotFound);
                },
            }
        }
        self.workdir.remove(name);
        match self.commit_all(message) {
            Ok(_) => Ok(()),
            Err(_) => {
                proof {
                    assert(false);
                }
                Err(RepoError::NotFound)
            },
        }
    }
}

/// What every successful file-level operation leaves behind: the working
/// directory is `new_wd`, a fresh commit records exactly those files with
/// the given message and the old HEAD commit as its single parent, its
/// log extends the old history by one entry, and of the branches only the
/// one HEAD tracks has moved.
pub open spec fn file_op_commit(
    w0: WorkspaceV,
    w: WorkspaceV,
    new_wd: Seq<WorkFileV>,
    msg: Seq<char>,
) -> bool {
    let c = head_commit(w)->0;
    &&& head_commit(w) is Some
    &&& store_extends(w.store, w0.store)
    &&& w.workdir == new_wd
    &&& is_commit(w.store, c)
    &&& commit_of(w.store, c).message == msg
    &&& commit_of(w.store, c).parents == seq![head_commit(w0)->0]
    &&& commit_files(w.store, c) == new_wd
    &&& log_seq(w.store, c) == seq![LogEntryV { commit_id: c, message: msg }] + log_seq(
        w0.store,
        head_commit(w0)->0,
    )
    &&& w.refs.branches.len() == w0.refs.branches.len()
    &&& forall|i: int|
        0 <= i < w.refs.branches.len() ==> (#[trigger] w.refs.branches[i]).name
            == w0.refs.branches[i].name
    &&& forall|i: int|
        0 <= i < w.refs.branches.len() ==> (#[trigger] w.refs.branches[i]).target == (if w0.refs.head
            == HeadV::Attached(w0.refs.branches[i].name) {
            c
        } else {
            w0.refs.branches[i].target
        })
    &&& (match w0.refs.head {
        HeadV::Attached(_) => w.refs.head == w0.refs.head,
        HeadV::Detached(_) => w.refs.head == HeadV::Detached(c),
        HeadV::Unborn => false,
    })
}

// What should hold of the engine as a whole, each law proved from the
// contracts above.

/// A clean checkout reports every file of the last commit as unmodified:
/// a workspace whose working directory is exactly what its last commit
/// records — as `create` and `set_branch` leave it — gets one status line
/// per file, each `Unmodified`. For a workspace just created that line is
/// the template file, and `create` further guarantees a two-entry log.
pub proof fn lemma_clean_workspace_status(w: WorkspaceV)
    requires
        head_commit(w) is Some,
        w.workdir == commit_files(w.store, head_commit(w)->0),
    ensures
        status_merge(w.workdir, ws_base_files(w)).len() == w.workdir.len(),
        forall|k: int|
            0 <= k < w.workdir.len() ==> status_merge(w.workdir, ws_base_files(w))[k] == (StatusV {
                name: w.workdir[k].name,
                state: FileState::Unmodified,
            }),
{
    crate::index::lemma_status_merge_self(w.workdir);
}

/// A branch created from HEAD shares the full ancestry: looked up right
/// after creation it resolves to the commit HEAD resolved to, whose log
/// is word for word the log HEAD showed. The premises are what
/// `create_branch` ensures on success.
pub proof fn lemma_created_branch_shares_history(w0: WorkspaceV, w: WorkspaceV, b: Seq<char>)
    requires
        head_commit(w0) is Some,
        !branch_has(w0.refs.branches, b),
        w.store == w0.store,
        w.refs.branches == w0.refs.branches.push(
            BranchV { name: b, target: head_commit(w0)->0 },
        ),
    ensures
        branch_lookup(w.refs.branches, b) == Some(head_commit(w0)->0),
        log_seq(w.store, branch_lookup(w.refs.branches, b)->0) == log_seq(
            w0.store,
            head_commit(w0)->0,
        ),
{
    lemma_branch_lookup_push(
        w0.refs.branches,
        BranchV { name: b, target: head_commit(w0)->0 },
        b,
    );
}

/// Round trip: writing bytes to a file and committing, then reading that
/// file from the same branch, returns exactly the bytes written. The
/// premise is what `create_file` and `update_file` ensure on success; the
/// conclusion is what `file_content` then hands back.
pub proof fn lemma_write_read_round_trip(
    w0: WorkspaceV,
    w: WorkspaceV,
    name: Seq<char>,
    content: Seq<u8>,
    msg: Seq<char>,
)
    requires
        file_op_commit(w0, w, wd_set(w0.workdir, name, content), msg),
    ensures
        wd_lookup(commit_files(w.store, head_commit(w)->0), name) == Some(content),
{
    crate::workdir::lemma_wd_set_lookup(w0.workdir, name, content, name);
}

/// Deleting a file and committing leaves a commit that no longer knows
/// the name: reading it back fails. The premise is what `delete_file`
/// ensures on success.
pub proof fn lemma_delete_then_read_fails(
    w0: WorkspaceV,
    w: WorkspaceV,
    name: Seq<char>,
    msg: Seq<char>,
)
    requires
        files_sorted(w0.workdir),
        file_op_commit(w0, w, wd_remove(w0.workdir, name), msg),
    ensures
        wd_lookup(commit_files(w.store, head_commit(w)->0), name) is None,
{
    crate::workdir::lemma_wd_remove_lookup(w0.workdir, name, name);
}

/// Every file-level operation runs after the checkout that makes the disk
/// match the last commit. In that state a name is present — and a create
/// therefore rejected, a delete or update therefore accepted — exactly
/// when the last commit holds it.
pub proof fn lemma_clean_presence(w: WorkspaceV, name: Seq<char>)
    requires
        head_commit(w) is Some,
        w.workdir == commit_files(w.store, head_commit(w)->0),
    ensures
        (wd_has(w.workdir, name) || wd_has(ws_base_files(w), name)) <==> wd_has(
            ws_base_files(w),
            name,
        ),
{
}

/// Status asks twice, told the same: the report is a function of the
/// workspace alone, and `status` leaves the workspace untouched, so two
/// reports with no mutation between them are identical.
pub proof fn lemma_status_idempotent(w: WorkspaceV, r1: Seq<StatusV>, r2: Seq<StatusV>)
    requires
        r1 == status_merge(w.workdir, ws_base_files(w)),
        r2 == status_merge(w.workdir, ws_base_files(w)),
    ensures
        r1 == r2,
{
}

/// A checkout is exact: afterwards the disk answers for every name
/// precisely as the target commit's tree does — a file unique to the
/// branch left behind is gone, a file of the target reads back verbatim.
/// The premise is what `set_branch` ensures on success.
pub proof fn lemma_checkout_is_exact(w: WorkspaceV, a: u64, f: Seq<char>)
    requires
        head_commit(w) is Some,
        w.workdir == commit_files(w.store, head_commit(w)->0),
    ensures
        wd_lookup(w.workdir, f) == wd_lookup(commit_files(w.store, head_commit(w)->0), f),
        wd_has(commit_files(w.store, a), f) && !wd_has(
            commit_files(w.store, head_commit(w)->0),
            f,
        ) ==> !wd_has(w.workdir, f),
{
}

/// Committing on the branch HEAD tracks leaves every other branch alone:
/// a branch `b` not tracked by HEAD keeps its commit, that commit's log
/// reads the same, and so do its files — so checking `b` out afterwards
/// shows the unchanged history and a clean status. The premises are what
/// a successful file-level commit ensures.
pub proof fn lemma_commit_leaves_other_branch(
    w0: WorkspaceV,
    w: WorkspaceV,
    b: Seq<char>,
    new_wd: Seq<WorkFileV>,
    msg: Seq<char>,
)
    requires
        ws_wf(w0),
        file_op_commit(w0, w, new_wd, msg),
        branch_has(w0.refs.branches, b),
        w0.refs.head != HeadV::Attached(b),
    ensures
        branch_lookup(w.refs.branches, b) == branch_lookup(w0.refs.branches, b),
        log_seq(w.store, branch_lookup(w0.refs.branches, b)->0) == log_seq(
            w0.store,
            branch_lookup(w0.refs.branches, b)->0,
        ),
        commit_files(w.store, branch_lookup(w0.refs.branches, b)->0) == commit_files(
            w0.store,
            branch_lookup(w0.refs.branches, b)->0,
        ),
{
    assert forall|i: int|
        0 <= i < w0.refs.branches.len() && (#[trigger] w0.refs.branches[i]).name
        == b implies w0.refs.branches[i].target == w.refs.branches[i].target by {
        assert(w0.refs.head != HeadV::Attached(w0.refs.branches[i].name));
    }
    crate::refs::lemma_branch_lookup_pointwise(w0.refs.branches, w.refs.branches, b);
    lemma_branch_lookup_target(w0.refs.branches, b);
    let j = choose|j: int|
        0 <= j < w0.refs.branches.len() && branch_lookup(w0.refs.branches, b) == Some(
            #[trigger] w0.refs.branches[j].target,
        );
    let t = w0.refs.branches[j].target;
    assert(is_commit(w0.store, t));
    crate::history::lemma_log_seq_extends(w0.store, w.store, t);
    lemma_commit_files_extends(w0.store, w.store, t);
}

/// Under a well-formed workspace, the commit HEAD resolves to is a stored
/// commit.
pub proof fn lemma_head_commit_is_commit(w: WorkspaceV)
    requires
        ws_wf(w),
        head_commit(w) is Some,
    ensures
        is_commit(w.store, head_commit(w)->0),
{
    match w.refs.head {
        HeadV::Unborn => {},
        HeadV::Attached(n) => {
            lemma_branch_lookup_target(w.refs.branches, n);
            let j = choose|j: int|
                0 <= j < w.refs.branches.len() && branch_lookup(w.refs.branches, n) == Some(
                    w.refs.branches[j].target,
                );
            assert(is_commit(w.store, w.refs.branches[j].target));
        },
        HeadV::Detached(d) => {},
    }
}

/// A successful branch lookup hands back the target of some branch.
proof fn lemma_branch_lookup_target(bs: Seq<BranchV>, name: Seq<char>)
    requires
        branch_lookup(bs, name) is Some,
    ensures
        exists|j: int|
            0 <= j < bs.len() && branch_lookup(bs, name) == Some(#[trigger] bs[j].target),
    decreases bs.len(),
{
    if bs.len() == 0 {
    } else if bs[0].name == name {
        assert(branch_lookup(bs, name) == Some(bs[0].target));
    } else {
        lemma_branch_lookup_target(bs.drop_first(), name);
        let j = choose|j: int|
            0 <= j < bs.drop_first().len() && branch_lookup(bs.drop_first(), name) == Some(
                bs.drop_first()[j].target,
            );
        assert(bs[j + 1].target == bs.drop_first()[j].target);
        assert(branch_lookup(bs, name) == Some(bs[j + 1].target));
    }
}

} // verus!
