//! The history walker.
//!
//! A log is the linear ancestry of one commit: the commit itself, then its
//! single parent, and so on down to the root, newest first. In a well-formed
//! store a parent always sits at a smaller digest than its child, so the
//! walk is finite and needs no visited set.

use vstd::prelude::*;
use crate::errors::RepoError;
use crate::objects::{commit_of, is_commit, obj_wf, Object, ObjectV};
use crate::store::{store_extends, store_wf, ObjectStore};

verus! {

/// One line of a log: a commit digest and its message.
pub struct LogEntry {
    pub commit_id: u64,
    pub message: String,
}

/// The mathematical picture of one log line.
#[verifier::ext_equal]
pub struct LogEntryV {
    pub commit_id: u64,
    pub message: Seq<char>,
}

impl View for LogEntry {
    type V = LogEntryV;

    open spec fn view(&self) -> LogEntryV {
        LogEntryV { commit_id: self.commit_id, message: self.message@ }
    }
}

/// The ancestry of commit `d` in store picture `s`, newest first: `d`
/// itself, then along the single parent link until a commit without a
/// parent. The walk only follows a parent at a smaller digest, which in a
/// well-formed store is every parent.
pub open spec fn log_seq(s: Seq<ObjectV>, d: u64) -> Seq<LogEntryV>
    decreases d,
{
    if is_commit(s, d) {
        let c = commit_of(s, d);
        let head = seq![LogEntryV { commit_id: d, message: c.message }];
        if c.parents.len() > 0 && c.parents[0] < d {
            head + log_seq(s, c.parents[0])
        } else {
            head
        }
    } else {
        Seq::empty()
    }
}

/// Growing the store does not rewrite history: the ancestry of a commit
/// already present reads the same in the grown store.
pub proof fn lemma_log_seq_extends(s: Seq<ObjectV>, s2: Seq<ObjectV>, d: u64)
    requires
        store_extends(s2, s),
        d < s.len(),
    ensures
        log_seq(s2, d) == log_seq(s, d),
    decreases d,
{
    assert(s2[d as int] == s[d as int]);
    if is_commit(s, d) {
        let c = commit_of(s, d);
        if c.parents.len() > 0 && c.parents[0] < d {
            lemma_log_seq_extends(s, s2, c.parents[0]);
        }
    }
}

/// Walks the ancestry of `from` and returns it newest first, as `log`
/// does. The digest of a missing object is `NotFound`; a digest that
/// resolves to something other than a commit is `Corrupt`.
pub fn collect_log(store: &ObjectStore, from: u64) -> (r: Result<Vec<LogEntry>, RepoError>)
    requires
        store_wf(store@),
    ensures
        match r {
            Ok(log) => is_commit(store@, from) && log@.map_values(|e: LogEntry| e@) == log_seq(
                store@,
                from,
            ),
            Err(e) => !is_commit(store@, from) && e == (if from < store@.len() {
                RepoError::Corrupt
            } else {
                RepoError::NotFound
            }),
        },
{
    let head_obj = match store.get(from) {
        Ok(o) => o,
        Err(_) => {
            return Err(RepoError::NotFound);
        },
    };
    match head_obj {
        Object::Commit(_) => (),
        _ => {
            return Err(RepoError::Corrupt);
        },
    }
    let mut out: Vec<LogEntry> = Vec::new();
    let mut cur: u64 = from;
    proof {
        assert(out@.map_values(|e: LogEntry| e@) =~= Seq::<LogEntryV>::empty());
    }
    loop
        invariant
            store_wf(store@),
            is_commit(store@, cur),
            is_commit(store@, from),
            log_seq(store@, from) == out@.map_values(|e: LogEntry| e@) + log_seq(store@, cur),
        decreases cur,
    {
        let ghost prev = out@.map_values(|e: LogEntry| e@);
        let obj = match store.get(cur) {
            Ok(o) => o,
            Err(_) => {
                proof {
                    assert(false);
                }
                return Err(RepoError::Corrupt);
            },
        };
        match obj {
            Object::Commit(data) => {
                proof {
                    assert(obj@ == store@[cur as int]);
                    assert(data@ == commit_of(store@, cur));
                    assert(obj_wf(store@, store@[cur as int], cur as int));
                }
                out.push(LogEntry { commit_id: cur, message: data.message.clone() });
                let ghost entry = LogEntryV { commit_id: cur, message: data@.message };
                proof {
                    assert(out@.map_values(|e: LogEntry| e@) =~= prev + seq![entry]);
                }
                if data.parents.len() == 0 {
                    proof {
                        assert(log_seq(store@, cur) == seq![entry]);
                        assert(prev + seq![entry] =~= log_seq(store@, from));
                    }
                    return Ok(out);
                }
                let p = data.parents[0];
                proof {
                    assert(data@.parents[0] == p);
                    assert(p < cur);
                    assert(is_commit(store@, p));
                    assert(log_seq(store@, cur) == seq![entry] + log_seq(store@, p));
                    assert(prev + (seq![entry] + log_seq(store@, p)) =~= (prev + seq![entry])
                        + log_seq(store@, p));
                }
                cur = p;
            },
            _ => {
                proof {
                    assert(false);
                }
                return Err(RepoError::Corrupt);
            },
        }
    }
}

} // verus!
