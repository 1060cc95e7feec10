//! File status and the staging index.
//!
//! The status of a file is always judged against the files of the last
//! commit: a file whose bytes match is `Unmodified`, one the last commit
//! does not know is `New`, one whose bytes differ is `Modified`, and a name
//! the last commit holds but the disk no longer does is `Deleted`. One
//! report lists every name either side knows, in name order.

use vstd::prelude::*;
use crate::order::{lemma_lex_trichotomy, lex_lt, str_cmp};
use crate::store::bytes_eq;
use crate::workdir::{WorkDir, WorkFileV};

verus! {

/// How a file on disk stands against the last commit.
#[derive(Clone, Copy, Debug, PartialEq, Eq, Structural)]
pub enum FileState {
    /// On disk with exactly the bytes the last commit recorded.
    Unmodified,
    /// On disk, unknown to the last commit.
    New,
    /// On disk with bytes that differ from the last commit.
    Modified,
    /// Recorded by the last commit, no longer on disk.
    Deleted,
}

/// One line of a status report: a file name and how it stands.
pub struct StatusEntry {
    pub path: String,
    pub state: FileState,
}

/// The mathematical picture of one status line.
#[verifier::ext_equal]
pub struct StatusV {
    pub name: Seq<char>,
    pub state: FileState,
}

impl View for StatusEntry {
    type V = StatusV;

    open spec fn view(&self) -> StatusV {
        StatusV { name: self.path@, state: self.state }
    }
}

/// One entry of the staging index: a path, the digest of the blob holding
/// its staged bytes, and its status against the last commit.
pub struct IndexEntry {
    pub path: String,
    pub blob: u64,
    pub state: FileState,
}

/// The mathematical picture of one index entry.
#[verifier::ext_equal]
pub struct IndexEntryV {
    pub name: Seq<char>,
    pub blob: u64,
    pub state: FileState,
}

impl View for IndexEntry {
    type V = IndexEntryV;

    open spec fn view(&self) -> IndexEntryV {
        IndexEntryV { name: self.path@, blob: self.blob, state: self.state }
    }
}

/// The status report of working directory `wd` against the files `base` of
/// the last commit: both stand in name order, and the report walks the two
/// in step, judging every name either side knows.
pub open spec fn status_merge(wd: Seq<WorkFileV>, base: Seq<WorkFileV>) -> Seq<StatusV>
    decreases wd.len() + base.len(),
{
    if wd.len() == 0 && base.len() == 0 {
        Seq::empty()
    } else if base.len() == 0 {
        seq![StatusV { name: wd[0].name, state: FileState::New }] + status_merge(
            wd.drop_first(),
            base,
        )
    } else if wd.len() == 0 {
        seq![StatusV { name: base[0].name, state: FileState::Deleted }] + status_merge(
            wd,
            base.drop_first(),
        )
    } else if lex_lt(wd[0].name, base[0].name) {
        seq![StatusV { name: wd[0].name, state: FileState::New }] + status_merge(
            wd.drop_first(),
            base,
        )
    } else if lex_lt(base[0].name, wd[0].name) {
        seq![StatusV { name: base[0].name, state: FileState::Deleted }] + status_merge(
            wd,
            base.drop_first(),
        )
    } else {
        seq![
            StatusV {
                name: wd[0].name,
                state: if wd[0].content == base[0].content {
                    FileState::Unmodified
                } else {
                    FileState::Modified
                },
            },
        ] + status_merge(wd.drop_first(), base.drop_first())
    }
}

/// A directory judged against itself is clean: one line per file, every one
/// of them `Unmodified`.
pub proof fn lemma_status_merge_self(fs: Seq<WorkFileV>)
    ensures
        status_merge(fs, fs).len() == fs.len(),
        forall|k: int| 0 <= k < fs.len() ==> status_merge(fs, fs)[k] == (StatusV {
            name: fs[k].name,
            state: FileState::Unmodified,
        }),
    decreases fs.len(),
{
    if fs.len() == 0 {
    } else {
        lemma_lex_trichotomy(fs[0].name, fs[0].name);
        lemma_status_merge_self(fs.drop_first());
        let rest = status_merge(fs.drop_first(), fs.drop_first());
        let head = seq![StatusV { name: fs[0].name, state: FileState::Unmodified }];
        assert(status_merge(fs, fs) == head + rest);
        assert forall|k: int| 0 <= k < fs.len() implies status_merge(fs, fs)[k] == (StatusV {
            name: fs[k].name,
            state: FileState::Unmodified,
        }) by {
            if k > 0 {
                assert((head + rest)[k] == rest[k - 1]);
                assert(fs.drop_first()[k - 1] == fs[k]);
            }
        }
    }
}

/// Computes the status report of `wd` against `base`, the files of the
/// last commit.
pub fn status_of(wd: &WorkDir, base: &WorkDir) -> (r: Vec<StatusEntry>)
    requires
        crate::workdir::files_sorted(wd@),
        crate::workdir::files_sorted(base@),
    ensures
        r@.map_values(|e: StatusEntry| e@) == status_merge(wd@, base@),
{
    let mut out: Vec<StatusEntry> = Vec::new();
    let mut i: usize = 0;
    let mut j: usize = 0;
    let n = wd.files.len();
    let m = base.files.len();
    proof {
        assert(wd@.skip(0) =~= wd@);
        assert(base@.skip(0) =~= base@);
        assert(out@.map_values(|e: StatusEntry| e@) =~= Seq::<StatusV>::empty());
    }
    while i < n || j < m
        invariant
            i <= n,
            j <= m,
            n == wd@.len(),
            m == base@.len(),
            n == wd.files@.len(),
            m == base.files@.len(),
            forall|k: int| 0 <= k < wd@.len() ==> wd@[k] == wd.files@[k]@,
            forall|k: int| 0 <= k < base@.len() ==> base@[k] == base.files@[k]@,
            status_merge(wd@, base@) == out@.map_values(|e: StatusEntry| e@) + status_merge(
                wd@.skip(i as int),
                base@.skip(j as int),
            ),
        decreases (n - i) + (m - j),
    {
        let ghost prev = out@.map_values(|e: StatusEntry| e@);
        let ghost wtail = wd@.skip(i as int);
        let ghost btail = base@.skip(j as int);
        if i < n && j < m {
            proof {
                assert(wtail[0] == wd@[i as int]);
                assert(btail[0] == base@[j as int]);
            }
            let c = str_cmp(wd.files[i].name.as_str(), base.files[j].name.as_str());
            if c < 0 {
                out.push(
                    StatusEntry { path: wd.files[i].name.clone(), state: FileState::New },
                );
                i = i + 1;
                proof {
                    assert(wtail.drop_first() =~= wd@.skip(i as int));
                    assert(status_merge(wtail, btail) == seq![
                        StatusV { name: wd@[i as int - 1].name, state: FileState::New },
                    ] + status_merge(wd@.skip(i as int), btail));
                }
            } else if c > 0 {
                proof {
                    crate::order::lemma_lex_cmp_antisym(
                        wd@[i as int].name,
                        base@[j as int].name,
                    );
                }
                out.push(
                    StatusEntry { path: base.files[j].name.clone(), state: FileState::Deleted },
                );
                j = j + 1;
                proof {
                    assert(btail.drop_first() =~= base@.skip(j as int));
                    assert(status_merge(wtail, btail) == seq![
                        StatusV { name: base@[j as int - 1].name, state: FileState::Deleted },
                    ] + status_merge(wtail, base@.skip(j as int)));
                }
            } else {
                proof {
                    crate::order::lemma_lex_cmp_eq(wd@[i as int].name, base@[j as int].name);
                    lemma_lex_trichotomy(wd@[i as int].name, base@[j as int].name);
                }
                let same = bytes_eq(&wd.files[i].content, &base.files[j].content);
                let st = if same {
                    FileState::Unmodified
                } else {
                    FileState::Modified
                };
                out.push(StatusEntry { path: wd.files[i].name.clone(), state: st });
                i = i + 1;
                j = j + 1;
                proof {
                    assert(wtail.drop_first() =~= wd@.skip(i as int));
                    assert(btail.drop_first() =~= base@.skip(j as int));
                    assert(status_merge(wtail, btail) == seq![
                        StatusV { name: wd@[i as int - 1].name, state: st },
                    ] + status_merge(wd@.skip(i as int), base@.skip(j as int)));
                }
            }
        } else if i < n {
            proof {
                assert(wtail[0] == wd@[i as int]);
                assert(btail.len() == 0);
            }
            out.push(StatusEntry { path: wd.files[i].name.clone(), state: FileState::New });
            i = i + 1;
            proof {
                assert(wtail.drop_first() =~= wd@.skip(i as int));
                assert(status_merge(wtail, btail) == seq![
                    StatusV { name: wd@[i as int - 1].name, state: FileState::New },
                ] + status_merge(wd@.skip(i as int), btail));
            }
        } else {
            proof {
                assert(btail[0] == base@[j as int]);
                assert(wtail.len() == 0);
            }
            out.push(
                StatusEntry { path: base.files[j].name.clone(), state: FileState::Deleted },
            );
            j = j + 1;
            proof {
                assert(btail.drop_first() =~= base@.skip(j as int));
                assert(status_merge(wtail, btail) == seq![
                    StatusV { name: base@[j as int - 1].name, state: FileState::Deleted },
                ] + status_merge(wtail, base@.skip(j as int)));
            }
        }
        proof {
            let cur = out@.map_values(|e: StatusEntry| e@);
            assert(cur =~= prev + seq![cur[cur.len() - 1]]);
            assert((prev + seq![cur[cur.len() - 1]]) + status_merge(
                wd@.skip(i as int),
                base@.skip(j as int),
            ) =~= prev + (seq![cur[cur.len() - 1]] + status_merge(
                wd@.skip(i as int),
                base@.skip(j as int),
            )));
        }
    }
    proof {
        assert(status_merge(wd@.skip(i as int), base@.skip(j as int)).len() == 0) by {
            assert(wd@.skip(i as int).len() == 0);
            assert(base@.skip(j as int).len() == 0);
        }
        assert(out@.map_values(|e: StatusEntry| e@) + status_merge(
            wd@.skip(i as int),
            base@.skip(j as int),
        ) =~= out@.map_values(|e: StatusEntry| e@));
    }
    out
}

} // verus!
