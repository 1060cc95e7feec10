//! The reference table: branch names, their commits, and HEAD.
//!
//! A branch binds a name to the digest of a commit; HEAD names the branch
//! the working directory reflects, or — detached — a bare commit digest,
//! or nothing at all before the first commit exists. A resolve target may
//! be a branch name or a digest written in decimal.

use vstd::prelude::*;
use crate::errors::RepoError;
use crate::objects::{is_commit, ObjectV};
use crate::order::str_eq;

verus! {

/// A branch: a name bound to the commit it points at.
pub struct BranchRef {
    pub name: String,
    pub target: u64,
}

/// The mathematical picture of one branch.
#[verifier::ext_equal]
pub struct BranchV {
    pub name: Seq<char>,
    pub target: u64,
}

impl View for BranchRef {
    type V = BranchV;

    open spec fn view(&self) -> BranchV {
        BranchV { name: self.name@, target: self.target }
    }
}

/// Where HEAD points.
pub enum Head {
    /// No commit exists yet; only the bootstrap may commit here.
    Unborn,
    /// HEAD follows the named branch.
    Attached(String),
    /// HEAD points straight at a commit digest.
    Detached(u64),
}

/// The mathematical picture of HEAD.
#[verifier::ext_equal]
pub enum HeadV {
    Unborn,
    Attached(Seq<char>),
    Detached(u64),
}

impl View for Head {
    type V = HeadV;

    open spec fn view(&self) -> HeadV {
        match self {
            Head::Unborn => HeadV::Unborn,
            Head::Attached(n) => HeadV::Attached(n@),
            Head::Detached(d) => HeadV::Detached(*d),
        }
    }
}

/// The commit bound to `name`: the first branch of that name (under
/// `branches_unique` there is at most one).
pub open spec fn branch_lookup(bs: Seq<BranchV>, name: Seq<char>) -> Option<u64>
    decreases bs.len(),
{
    if bs.len() == 0 {
        None
    } else if bs[0].name == name {
        Some(bs[0].target)
    } else {
        branch_lookup(bs.drop_first(), name)
    }
}

/// A branch of this name exists.
pub open spec fn branch_has(bs: Seq<BranchV>, name: Seq<char>) -> bool {
    branch_lookup(bs, name) is Some
}

/// No two branches share a name.
pub open spec fn branches_unique(bs: Seq<BranchV>) -> bool {
    forall|i: int, j: int| 0 <= i < j < bs.len() ==> bs[i].name != bs[j].name
}

/// A name is bound exactly when some branch carries it.
pub proof fn lemma_branch_lookup_has(bs: Seq<BranchV>, name: Seq<char>)
    ensures
        branch_has(bs, name) <==> exists|j: int| 0 <= j < bs.len() && bs[j].name == name,
    decreases bs.len(),
{
    if bs.len() == 0 {
    } else if bs[0].name == name {
        assert(bs[0].name == name);
    } else {
        lemma_branch_lookup_has(bs.drop_first(), name);
        if branch_has(bs, name) {
            let j = choose|j: int|
                0 <= j < bs.drop_first().len() && bs.drop_first()[j].name == name;
            assert(bs[j + 1].name == name);
        } else {
            if exists|j: int| 0 <= j < bs.len() && bs[j].name == name {
                let j = choose|j: int| 0 <= j < bs.len() && bs[j].name == name;
                assert(bs.drop_first()[j - 1].name == name);
            }
        }
    }
}

/// Looking a name up after adding a branch: an existing name keeps its
/// binding; the added name resolves to the added target.
pub proof fn lemma_branch_lookup_push(bs: Seq<BranchV>, v: BranchV, n: Seq<char>)
    ensures
        branch_lookup(bs.push(v), n) == (if branch_has(bs, n) {
            branch_lookup(bs, n)
        } else if v.name == n {
            Some(v.target)
        } else {
            None
        }),
    decreases bs.len(),
{
    if bs.len() == 0 {
        assert(bs.push(v)[0] == v);
        assert(bs.push(v).drop_first() =~= Seq::<BranchV>::empty());
        if v.name == n {
            assert(branch_lookup(bs.push(v), n) == Some(v.target));
        } else {
            assert(branch_lookup(bs.push(v), n) == branch_lookup(
                bs.push(v).drop_first(),
                n,
            ));
            assert(branch_lookup(bs.push(v).drop_first(), n) is None);
        }
        assert(!branch_has(bs, n));
    } else {
        assert(bs.push(v)[0] == bs[0]);
        assert(bs.push(v).drop_first() =~= bs.drop_first().push(v));
        lemma_branch_lookup_push(bs.drop_first(), v, n);
        if bs[0].name == n {
            assert(branch_lookup(bs.push(v), n) == Some(bs[0].target));
            assert(branch_lookup(bs, n) == Some(bs[0].target));
            assert(branch_has(bs, n));
        } else {
            assert(branch_lookup(bs.push(v), n) == branch_lookup(bs.drop_first().push(v), n));
            assert(branch_lookup(bs, n) == branch_lookup(bs.drop_first(), n));
            assert(branch_has(bs, n) == branch_has(bs.drop_first(), n));
        }
    }
}

/// Repointing a branch: under unique names, looking its name up after the
/// update yields the new target.
pub proof fn lemma_branch_lookup_update(bs: Seq<BranchV>, i: int, c: u64)
    requires
        branches_unique(bs),
        0 <= i < bs.len(),
    ensures
        branch_lookup(bs.update(i, BranchV { name: bs[i].name, target: c }), bs[i].name) == Some(
            c,
        ),
    decreases bs.len(),
{
    let v = BranchV { name: bs[i].name, target: c };
    if i == 0 {
        assert(bs.update(0, v)[0] == v);
    } else {
        assert(bs[0].name != bs[i].name);
        assert(bs.update(i, v)[0] == bs[0]);
        assert(bs.update(i, v).drop_first() =~= bs.drop_first().update(i - 1, v));
        assert(branches_unique(bs.drop_first())) by {
            assert forall|a: int, b: int|
                0 <= a < b < bs.drop_first().len() implies bs.drop_first()[a].name
                != bs.drop_first()[b].name by {
                assert(bs.drop_first()[a] == bs[a + 1]);
                assert(bs.drop_first()[b] == bs[b + 1]);
            }
        }
        assert(bs.drop_first()[i - 1] == bs[i]);
        lemma_branch_lookup_update(bs.drop_first(), i - 1, c);
    }
}

/// Two tables whose branches carry the same names in the same order, and
/// the same target wherever the name is `b`, bind `b` the same way.
pub proof fn lemma_branch_lookup_pointwise(bs1: Seq<BranchV>, bs2: Seq<BranchV>, b: Seq<char>)
    requires
        bs1.len() == bs2.len(),
        forall|i: int| 0 <= i < bs1.len() ==> (#[trigger] bs1[i]).name == bs2[i].name,
        forall|i: int| 0 <= i < bs1.len() && (#[trigger] bs1[i]).name == b ==> bs1[i].target
            == bs2[i].target,
    ensures
        branch_lookup(bs1, b) == branch_lookup(bs2, b),
    decreases bs1.len(),
{
    if bs1.len() == 0 {
    } else if bs1[0].name == b {
        assert(bs1[0].target == bs2[0].target);
    } else {
        assert forall|i: int|
            0 <= i < bs1.drop_first().len() implies (#[trigger] bs1.drop_first()[i]).name
            == bs2.drop_first()[i].name by {
            assert(bs1.drop_first()[i] == bs1[i + 1]);
            assert(bs2.drop_first()[i] == bs2[i + 1]);
        }
        assert forall|i: int|
            0 <= i < bs1.drop_first().len() && (#[trigger] bs1.drop_first()[i]).name
            == b implies bs1.drop_first()[i].target == bs2.drop_first()[i].target by {
            assert(bs1.drop_first()[i] == bs1[i + 1]);
            assert(bs2.drop_first()[i] == bs2[i + 1]);
        }
        lemma_branch_lookup_pointwise(bs1.drop_first(), bs2.drop_first(), b);
    }
}

/// The reference table of one workspace.
pub struct RefTable {
    pub branches: Vec<BranchRef>,
    pub head: Head,
}

/// The mathematical picture of the reference table.
#[verifier::ext_equal]
pub struct RefTableV {
    pub branches: Seq<BranchV>,
    pub head: HeadV,
}

impl View for RefTable {
    type V = RefTableV;

    open spec fn view(&self) -> RefTableV {
        RefTableV { branches: self.branches@.map_values(|b: BranchRef| b@), head: self.head@ }
    }
}

/// The commit HEAD resolves to, if any.
pub open spec fn head_target(r: RefTableV) -> Option<u64> {
    match r.head {
        HeadV::Unborn => None,
        HeadV::Attached(n) => branch_lookup(r.branches, n),
        HeadV::Detached(d) => Some(d),
    }
}

/// A well-formed reference table against store picture `s`: branch names
/// are unique, every branch points at a commit, and HEAD either names an
/// existing branch, points at a commit, or is the pre-bootstrap zero state.
pub open spec fn refs_wf(r: RefTableV, s: Seq<ObjectV>) -> bool {
    &&& branches_unique(r.branches)
    &&& forall|i: int| 0 <= i < r.branches.len() ==> is_commit(s, #[trigger] r.branches[i].target)
    &&& match r.head {
        HeadV::Unborn => true,
        HeadV::Attached(n) => branch_has(r.branches, n),
        HeadV::Detached(d) => is_commit(s, d),
    }
}

impl RefTable {
    /// A table with no branches and HEAD in the zero state.
    pub fn new() -> (r: RefTable)
        ensures
            r@.branches =~= Seq::<BranchV>::empty(),
            r@.head == HeadV::Unborn,
    {
        RefTable { branches: Vec::new(), head: Head::Unborn }
    }

    /// Finds the branch called `name`, handing back its position.
    pub fn find_branch(&self, name: &str) -> (r: Option<usize>)
        ensures
            match r {
                Some(i) => i < self@.branches.len() && self@.branches[i as int].name == name@
                    && branch_lookup(self@.branches, name@) == Some(
                    self@.branches[i as int].target,
                ),
                None => branch_lookup(self@.branches, name@) is None,
            },
    {
        let ghost bs = self@.branches;
        let n = self.branches.len();
        let mut i: usize = 0;
        proof {
            assert(bs.skip(0) =~= bs);
        }
        while i < n
            invariant
                i <= n,
                n == bs.len(),
                n == self.branches@.len(),
                bs == self@.branches,
                forall|k: int| 0 <= k < bs.len() ==> bs[k] == self.branches@[k]@,
                branch_lookup(bs, name@) == branch_lookup(bs.skip(i as int), name@),
            decreases n - i,
        {
            proof {
                assert(bs.skip(i as int)[0] == bs[i as int]);
            }
            if str_eq(self.branches[i].name.as_str(), name) {
                return Some(i);
            }
            proof {
                assert(bs.skip(i as int).drop_first() =~= bs.skip(i as int + 1));
            }
            i = i + 1;
        }
        proof {
            assert(bs.skip(i as int).len() == 0);
        }
        None
    }

    /// The names of all branches, in table order.
    pub fn names(&self) -> (r: Vec<String>)
        ensures
            r@.len() == self@.branches.len(),
            forall|i: int| 0 <= i < r@.len() ==> r@[i]@ == self@.branches[i].name,
    {
        let mut out: Vec<String> = Vec::new();
        let n = self.branches.len();
        let mut i: usize = 0;
        while i < n
            invariant
                i <= n,
                n == self.branches@.len(),
                out@.len() == i,
                forall|k: int| 0 <= k < i ==> out@[k]@ == self@.branches[k].name,
            decreases n - i,
        {
            out.push(self.branches[i].name.clone());
            proof {
                assert(self@.branches[i as int] == self.branches@[i as int]@);
            }
            i = i + 1;
        }
        out
    }

    /// Binds `name` to `target` as a new branch; a name already bound is a
    /// `Conflict` and changes nothing.
    pub fn create(&mut self, name: String, target: u64) -> (r: Result<(), RepoError>)
        ensures
            match r {
                Ok(()) => !branch_has(old(self)@.branches, name@) && final(self)@.branches
                    == old(self)@.branches.push(BranchV { name: name@, target })
                    && final(self)@.head == old(self)@.head,
                Err(e) => e == RepoError::Conflict && branch_has(old(self)@.branches, name@)
                    && final(self)@ == old(self)@,
            },
    {
        match self.find_branch(name.as_str()) {
            Some(_) => Err(RepoError::Conflict),
            None => {
                self.branches.push(BranchRef { name, target });
                proof {
                    assert(self@.branches =~= old(self)@.branches.push(
                        BranchV { name: name@, target },
                    ));
                }
                Ok(())
            },
        }
    }

    /// Points HEAD somewhere else; the branches stand as they were.
    pub fn set_head(&mut self, h: Head)
        ensures
            final(self)@.head == h@,
            final(self)@.branches == old(self)@.branches,
    {
        self.head = h;
    }

    /// The commit HEAD resolves to, if any.
    pub fn head_commit(&self) -> (r: Option<u64>)
        ensures
            r == head_target(self@),
    {
        match &self.head {
            Head::Unborn => None,
            Head::Attached(n) => {
                match self.find_branch(n.as_str()) {
                    Some(i) => Some(self.branches[i].target),
                    None => None,
                }
            },
            Head::Detached(d) => Some(*d),
        }
    }
}

/// A decimal digit.
pub open spec fn is_digit(c: char) -> bool {
    48 <= c as u32 <= 57
}

/// Every character is a decimal digit.
pub open spec fn all_digits(s: Seq<char>) -> bool {
    forall|i: int| 0 <= i < s.len() ==> is_digit(#[trigger] s[i])
}

/// The number a digit sequence writes in decimal.
pub open spec fn dec_value(s: Seq<char>) -> int
    decreases s.len(),
{
    if s.len() == 0 {
        0
    } else {
        dec_value(s.drop_last()) * 10 + (s.last() as u32 - 48)
    }
}

/// A digit string names a number no smaller than any of its prefixes.
proof fn lemma_dec_value_grows(s: Seq<char>, k: int)
    requires
        all_digits(s),
        0 <= k <= s.len(),
    ensures
        0 <= dec_value(s.take(k)) <= dec_value(s),
    decreases s.len() - k,
{
    if k == s.len() {
        assert(s.take(k) =~= s);
        lemma_dec_value_nonneg(s);
    } else {
        lemma_dec_value_grows(s, k + 1);
        let t = s.take(k + 1);
        assert(t.drop_last() =~= s.take(k));
        assert(t.last() == s[k]);
        assert(is_digit(s[k]));
        lemma_dec_value_nonneg(s.take(k));
        assert(dec_value(t) == dec_value(s.take(k)) * 10 + (s[k] as u32 - 48));
        assert(dec_value(s.take(k)) * 10 >= dec_value(s.take(k))) by (nonlinear_arith)
            requires
                dec_value(s.take(k)) >= 0,
        ;
    }
}

/// A digit string names a number that is not negative.
proof fn lemma_dec_value_nonneg(s: Seq<char>)
    requires
        all_digits(s),
    ensures
        dec_value(s) >= 0,
    decreases s.len(),
{
    if s.len() > 0 {
        assert(all_digits(s.drop_last())) by {
            assert(forall|i: int|
                0 <= i < s.drop_last().len() ==> s.drop_last()[i] == #[trigger] s[i]);
        }
        lemma_dec_value_nonneg(s.drop_last());
        assert(is_digit(s.last()));
        assert(dec_value(s.drop_last()) * 10 >= 0) by (nonlinear_arith)
            requires
                dec_value(s.drop_last()) >= 0,
        ;
    }
}

/// Reads a digest written in decimal. The digits of the string name the
/// returned number; a string that is empty, holds a non-digit, or names a
/// number too large for a digest gives nothing.
pub fn parse_digest(s: &str) -> (r: Option<u64>)
    ensures
        match r {
            Some(v) => s@.len() > 0 && all_digits(s@) && v as int == dec_value(s@),
            None => s@.len() == 0 || !all_digits(s@) || dec_value(s@) > u64::MAX as int,
        },
{
    let n = s.unicode_len();
    if n == 0 {
        return None;
    }
    let mut acc: u64 = 0;
    let mut i: usize = 0;
    proof {
        assert(s@.take(0) =~= Seq::<char>::empty());
    }
    while i < n
        invariant
            i <= n,
            n == s@.len(),
            all_digits(s@.take(i as int)),
            acc as int == dec_value(s@.take(i as int)),
        decreases n - i,
    {
        let c = s.get_char(i);
        let cu = c as u32;
        if cu < 48 || cu > 57 {
            proof {
                assert(!is_digit(s@[i as int]));
            }
            return None;
        }
        let d = (cu - 48) as u64;
        proof {
            assert(s@.take(i as int + 1).drop_last() =~= s@.take(i as int));
            assert(s@.take(i as int + 1).last() == s@[i as int]);
            assert(all_digits(s@.take(i as int + 1))) by {
                assert(forall|k: int|
                    0 <= k < i as int ==> s@.take(i as int + 1)[k] == #[trigger] s@.take(
                        i as int,
                    )[k]);
                assert(s@.take(i as int + 1)[i as int] == s@[i as int]);
            }
        }
        if acc > (u64::MAX - d) / 10 {
            proof {
                let t = s@.take(i as int + 1);
                assert(dec_value(t) == acc as int * 10 + d);
                assert(acc as int * 10 + d > u64::MAX as int) by (nonlinear_arith)
                    requires
                        acc as int > (u64::MAX as int - d) / 10,
                        0 <= d <= 9,
                ;
                if all_digits(s@) {
                    lemma_dec_value_grows(s@, i as int + 1);
                }
            }
            return None;
        }
        proof {
            assert(acc as int * 10 + d <= u64::MAX as int) by (nonlinear_arith)
                requires
                    acc as int <= (u64::MAX as int - d) / 10,
                    0 <= d <= 9,
            ;
        }
        acc = acc * 10 + d;
        proof {
            assert(acc as int == dec_value(s@.take(i as int + 1)));
        }
        i = i + 1;
    }
    proof {
        assert(s@.take(n as int) =~= s@);
    }
    Some(acc)
}

} // verus!
