//! The content-addressable object store.
//!
//! The store is an append-only arena of canonical objects. A digest is the
//! position of an object in it, and the store never keeps two equal objects:
//! storing content that is already present hands back the digest it already
//! has. Equal content therefore always means equal digest — the content
//! addressing the rest of the engine relies on — and every digest written
//! inside a stored object points strictly below the object that holds it,
//! so no stored reference dangles and no chain of references loops.

use vstd::prelude::*;
use crate::errors::RepoError;
use crate::objects::{obj_wf, CommitData, Object, ObjectV, TreeEntry};

verus! {

/// Store picture `s2` carries everything `s` does, at the same digests.
pub open spec fn store_extends(s2: Seq<ObjectV>, s: Seq<ObjectV>) -> bool {
    &&& s.len() <= s2.len()
    &&& forall|i: int| 0 <= i < s.len() ==> s2[i] == s[i]
}

/// Some digest of store picture `s` holds object `o`.
pub open spec fn has_obj(s: Seq<ObjectV>, o: ObjectV) -> bool {
    exists|j: int| 0 <= j < s.len() && s[j] == o
}

/// A well-formed store: every object is well formed at its own position
/// (its references point strictly below it, to the right kinds), and no two
/// positions hold equal objects.
pub open spec fn store_wf(s: Seq<ObjectV>) -> bool {
    &&& forall|i: int| 0 <= i < s.len() ==> obj_wf(s, #[trigger] s[i], i)
    &&& forall|i: int, j: int| 0 <= i < j < s.len() ==> s[i] != s[j]
}

/// An object well formed against a store stays well formed when the store
/// grows: the digests it holds keep their meaning.
pub proof fn lemma_obj_wf_extends(s: Seq<ObjectV>, s2: Seq<ObjectV>, o: ObjectV, bound: int)
    requires
        obj_wf(s, o, bound),
        bound <= s.len(),
        store_extends(s2, s),
    ensures
        obj_wf(s2, o, bound),
{
}

/// Extension of stores is transitive.
pub proof fn lemma_store_extends_trans(s3: Seq<ObjectV>, s2: Seq<ObjectV>, s: Seq<ObjectV>)
    requires
        store_extends(s3, s2),
        store_extends(s2, s),
    ensures
        store_extends(s3, s),
{
}

/// The content-addressable storage of one workspace.
pub struct ObjectStore {
    pub objects: Vec<Object>,
}

impl View for ObjectStore {
    type V = Seq<ObjectV>;

    open spec fn view(&self) -> Seq<ObjectV> {
        self.objects@.map_values(|o: Object| o@)
    }
}

/// Equality of byte vectors, stated over their views.
pub(crate) fn bytes_eq(a: &Vec<u8>, b: &Vec<u8>) -> (r: bool)
    ensures
        r == (a@ == b@),
{
    if a.len() != b.len() {
        return false;
    }
    let n = a.len();
    let mut i: usize = 0;
    while i < n
        invariant
            n == a@.len(),
            n == b@.len(),
            i <= n,
            forall|j: int| 0 <= j < i ==> a@[j] == b@[j],
        decreases n - i,
    {
        if a[i] != b[i] {
            return false;
        }
        i = i + 1;
    }
    proof {
        assert(a@ =~= b@);
    }
    true
}

/// Equality of digest vectors, stated over their views.
fn digests_eq(a: &Vec<u64>, b: &Vec<u64>) -> (r: bool)
    ensures
        r == (a@ == b@),
{
    if a.len() != b.len() {
        return false;
    }
    let n = a.len();
    let mut i: usize = 0;
    while i < n
        invariant
            n == a@.len(),
            n == b@.len(),
            i <= n,
            forall|j: int| 0 <= j < i ==> a@[j] == b@[j],
        decreases n - i,
    {
        if a[i] != b[i] {
            return false;
        }
        i = i + 1;
    }
    proof {
        assert(a@ =~= b@);
    }
    true
}

/// Equality of tree entry lists, stated over their views.
fn entries_eq(a: &Vec<TreeEntry>, b: &Vec<TreeEntry>) -> (r: bool)
    ensures
        r == (a@.map_values(|e: TreeEntry| e@) == b@.map_values(|e: TreeEntry| e@)),
{
    let ghost av = a@.map_values(|e: TreeEntry| e@);
    let ghost bv = b@.map_values(|e: TreeEntry| e@);
    proof {
        assert(av.len() == a@.len());
        assert(bv.len() == b@.len());
    }
    if a.len() != b.len() {
        return false;
    }
    let n = a.len();
    let mut i: usize = 0;
    while i < n
        invariant
            n == a@.len(),
            n == b@.len(),
            av == a@.map_values(|e: TreeEntry| e@),
            bv == b@.map_values(|e: TreeEntry| e@),
            i <= n,
            forall|j: int| 0 <= j < i ==> av[j] == bv[j],
        decreases n - i,
    {
        proof {
            assert(av[i as int] == a@[i as int]@);
            assert(bv[i as int] == b@[i as int]@);
        }
        if a[i].blob != b[i].blob {
            return false;
        }
        if !(a[i].name == b[i].name) {
            return false;
        }
        i = i + 1;
    }
    proof {
        assert(av =~= bv);
    }
    true
}

/// Equality of commit bodies, stated over their views.
fn commit_eq(a: &CommitData, b: &CommitData) -> (r: bool)
    ensures
        r == (a@ == b@),
{
    if a.tree != b.tree {
        return false;
    }
    if a.timestamp != b.timestamp {
        return false;
    }
    if !(a.author == b.author) {
        return false;
    }
    if !(a.message == b.message) {
        return false;
    }
    if !digests_eq(&a.parents, &b.parents) {
        return false;
    }
    proof {
        assert(a@ =~= b@);
    }
    true
}

/// Structural equality of stored objects, stated over their views.
pub fn object_eq(a: &Object, b: &Object) -> (r: bool)
    ensures
        r == (a@ == b@),
{
    match (a, b) {
        (Object::Blob(x), Object::Blob(y)) => bytes_eq(x, y),
        (Object::Tree(x), Object::Tree(y)) => entries_eq(x, y),
        (Object::Commit(x), Object::Commit(y)) => commit_eq(x, y),
        _ => false,
    }
}

impl ObjectStore {
    /// A store with nothing in it.
    pub fn new() -> (s: ObjectStore)
        ensures
            s@ =~= Seq::<ObjectV>::empty(),
    {
        ObjectStore { objects: Vec::new() }
    }

    /// How many objects the store holds.
    pub fn len(&self) -> (n: usize)
        ensures
            n == self@.len(),
    {
        self.objects.len()
    }

    /// Whether digest `d` resolves to a stored object.
    pub fn contains(&self, d: u64) -> (r: bool)
        ensures
            r == (d < self@.len()),
    {
        d < self.objects.len() as u64
    }

    /// Looks an object up by digest; `NotFound` when the digest is absent.
    pub fn get(&self, d: u64) -> (r: Result<&Object, RepoError>)
        ensures
            match r {
                Ok(o) => d < self@.len() && o@ == self@[d as int],
                Err(e) => d >= self@.len() && e == RepoError::NotFound,
            },
    {
        if d < self.objects.len() as u64 {
            Ok(&self.objects[d as usize])
        } else {
            Err(RepoError::NotFound)
        }
    }

    /// Stores an object and returns its digest. Idempotent: content already
    /// present is not stored again, and the digest it already has comes
    /// back; new content is appended and gets the next digest. Either way
    /// the result is the one digest of this content in the updated store.
    pub fn put(&mut self, obj: Object) -> (d: u64)
        requires
            store_wf(old(self)@),
            obj_wf(old(self)@, obj@, old(self)@.len() as int),
        ensures
            store_wf(final(self)@),
            store_extends(final(self)@, old(self)@),
            d < final(self)@.len(),
            final(self)@[d as int] == obj@,
            forall|j: int| 0 <= j < final(self)@.len() && final(self)@[j] == obj@ ==> j == d as int,
            has_obj(old(self)@, obj@) ==> final(self)@ == old(self)@,
            !has_obj(old(self)@, obj@) ==> final(self)@ =~= old(self)@.push(obj@) && d as int
                == old(self)@.len(),
    {
        let n = self.objects.len();
        let mut i: usize = 0;
        while i < n
            invariant
                n == self@.len(),
                n == self.objects@.len(),
                i <= n,
                store_wf(self@),
                forall|j: int| 0 <= j < i ==> self@[j] != obj@,
                forall|j: int| 0 <= j < self.objects@.len() ==> self@[j] == self.objects@[j]@,
            decreases n - i,
        {
            if object_eq(&self.objects[i], &obj) {
                proof {
                    assert(self@[i as int] == obj@);
                    assert(has_obj(self@, obj@));
                    assert forall|j: int|
                        0 <= j < self@.len() && self@[j] == obj@ implies j == i as int by {
                        if j < i as int {
                            assert(self@[j] != self@[i as int]);
                        } else if j > i as int {
                            assert(self@[i as int] != self@[j]);
                        }
                    }
                }
                return i as u64;
            }
            i = i + 1;
        }
        proof {
            assert(!has_obj(self@, obj@));
        }
        let d = self.objects.len() as u64;
        let ghost old_view = self@;
        self.objects.push(obj);
        proof {
            assert(self@ =~= old_view.push(obj@));
            assert(store_extends(self@, old_view));
            assert forall|i2: int| 0 <= i2 < self@.len() implies obj_wf(
                self@,
                #[trigger] self@[i2],
                i2,
            ) by {
                if i2 < old_view.len() {
                    lemma_obj_wf_extends(old_view, self@, old_view[i2], i2);
                } else {
                    lemma_obj_wf_extends(old_view, self@, obj@, old_view.len() as int);
                }
            }
        }
        d
    }
}

} // verus!
