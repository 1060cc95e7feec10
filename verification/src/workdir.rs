//! The working directory of a workspace.
//!
//! A working directory is the flat set of files a checked-out commit puts in
//! front of the caller: names bound to byte contents, kept in strictly
//! increasing name order. Every path the engine handles is a single name —
//! the interface addresses files by bare name — so one sorted list is the
//! whole picture.

use vstd::prelude::*;
use crate::order::{lemma_lex_trichotomy, lex_lt, str_cmp, str_eq};

verus! {

/// One file on disk: a name and its bytes.
pub struct WorkFile {
    pub name: String,
    pub content: Vec<u8>,
}

/// The mathematical picture of one file.
#[verifier::ext_equal]
pub struct WorkFileV {
    pub name: Seq<char>,
    pub content: Seq<u8>,
}

impl View for WorkFile {
    type V = WorkFileV;

    open spec fn view(&self) -> WorkFileV {
        WorkFileV { name: self.name@, content: self.content@ }
    }
}

/// File names stand in strictly increasing order; names are therefore
/// unique.
pub open spec fn files_sorted(fs: Seq<WorkFileV>) -> bool {
    forall|i: int, j: int| 0 <= i < j < fs.len() ==> lex_lt(fs[i].name, fs[j].name)
}

/// The content bound to `name`, if the directory holds it: the first file
/// of that name (under `files_sorted` there is at most one).
pub open spec fn wd_lookup(fs: Seq<WorkFileV>, name: Seq<char>) -> Option<Seq<u8>>
    decreases fs.len(),
{
    if fs.len() == 0 {
        None
    } else if fs[0].name == name {
        Some(fs[0].content)
    } else {
        wd_lookup(fs.drop_first(), name)
    }
}

/// The directory holds a file called `name`.
pub open spec fn wd_has(fs: Seq<WorkFileV>, name: Seq<char>) -> bool {
    wd_lookup(fs, name) is Some
}

/// The directory after writing `content` to `name`: the file is replaced in
/// place if present, else inserted where the order puts it.
pub open spec fn wd_set(fs: Seq<WorkFileV>, name: Seq<char>, content: Seq<u8>) -> Seq<WorkFileV>
    decreases fs.len(),
{
    if fs.len() == 0 {
        seq![WorkFileV { name, content }]
    } else if lex_lt(name, fs[0].name) {
        seq![WorkFileV { name, content }] + fs
    } else if fs[0].name == name {
        seq![WorkFileV { name, content }] + fs.drop_first()
    } else {
        seq![fs[0]] + wd_set(fs.drop_first(), name, content)
    }
}

/// The directory after deleting `name`: the first file of that name is
/// dropped; a directory without it is unchanged.
pub open spec fn wd_remove(fs: Seq<WorkFileV>, name: Seq<char>) -> Seq<WorkFileV>
    decreases fs.len(),
{
    if fs.len() == 0 {
        fs
    } else if fs[0].name == name {
        fs.drop_first()
    } else {
        seq![fs[0]] + wd_remove(fs.drop_first(), name)
    }
}

/// A name is found exactly when some file carries it.
pub proof fn lemma_wd_lookup_has(fs: Seq<WorkFileV>, name: Seq<char>)
    ensures
        wd_has(fs, name) <==> exists|j: int| 0 <= j < fs.len() && fs[j].name == name,
    decreases fs.len(),
{
    if fs.len() == 0 {
    } else if fs[0].name == name {
        assert(fs[0].name == name);
    } else {
        lemma_wd_lookup_has(fs.drop_first(), name);
        if wd_has(fs, name) {
            let j = choose|j: int|
                0 <= j < fs.drop_first().len() && fs.drop_first()[j].name == name;
            assert(fs[j + 1].name == name);
        } else {
            if exists|j: int| 0 <= j < fs.len() && fs[j].name == name {
                let j = choose|j: int| 0 <= j < fs.len() && fs[j].name == name;
                assert(fs.drop_first()[j - 1].name == name);
            }
        }
    }
}

/// Reading back after a write: the written name now holds the written
/// content, and every other name is untouched.
pub proof fn lemma_wd_set_lookup(fs: Seq<WorkFileV>, name: Seq<char>, content: Seq<u8>, m: Seq<char>)
    ensures
        wd_lookup(wd_set(fs, name, content), m) == if m == name {
            Some(content)
        } else {
            wd_lookup(fs, m)
        },
    decreases fs.len(),
{
    let w = WorkFileV { name, content };
    if fs.len() == 0 {
        assert(wd_set(fs, name, content) =~= seq![w]);
        assert(seq![w].drop_first() =~= Seq::<WorkFileV>::empty());
    } else if lex_lt(name, fs[0].name) {
        lemma_lex_trichotomy(name, fs[0].name);
        assert((seq![w] + fs).drop_first() =~= fs);
        assert((seq![w] + fs)[0] == w);
    } else if fs[0].name == name {
        assert((seq![w] + fs.drop_first()).drop_first() =~= fs.drop_first());
        assert((seq![w] + fs.drop_first())[0] == w);
    } else {
        lemma_wd_set_lookup(fs.drop_first(), name, content, m);
        assert((seq![fs[0]] + wd_set(fs.drop_first(), name, content)).drop_first() =~= wd_set(
            fs.drop_first(),
            name,
            content,
        ));
        assert((seq![fs[0]] + wd_set(fs.drop_first(), name, content))[0] == fs[0]);
    }
}

/// In a directory whose names all differ from `name`, nothing is found.
pub proof fn lemma_wd_lookup_absent(fs: Seq<WorkFileV>, name: Seq<char>)
    requires
        forall|j: int| 0 <= j < fs.len() ==> fs[j].name != name,
    ensures
        wd_lookup(fs, name) is None,
{
    lemma_wd_lookup_has(fs, name);
}

/// Reading back after a delete: the deleted name is gone, every other name
/// is untouched.
pub proof fn lemma_wd_remove_lookup(fs: Seq<WorkFileV>, name: Seq<char>, m: Seq<char>)
    requires
        files_sorted(fs),
    ensures
        wd_lookup(wd_remove(fs, name), m) == if m == name {
            None::<Seq<u8>>
        } else {
            wd_lookup(fs, m)
        },
    decreases fs.len(),
{
    if fs.len() == 0 {
    } else if fs[0].name == name {
        if m == name {
            assert forall|j: int| 0 <= j < fs.drop_first().len() implies fs.drop_first()[j].name
                != name by {
                assert(lex_lt(fs[0].name, fs[j + 1].name));
                lemma_lex_trichotomy(fs[0].name, fs[j + 1].name);
                assert(fs.drop_first()[j] == fs[j + 1]);
            }
            lemma_wd_lookup_absent(fs.drop_first(), name);
        }
    } else {
        assert(files_sorted(fs.drop_first())) by {
            assert forall|i: int, j: int|
                0 <= i < j < fs.drop_first().len() implies lex_lt(
                fs.drop_first()[i].name,
                fs.drop_first()[j].name,
            ) by {
                assert(fs.drop_first()[i] == fs[i + 1]);
                assert(fs.drop_first()[j] == fs[j + 1]);
            }
        }
        lemma_wd_remove_lookup(fs.drop_first(), name, m);
        assert((seq![fs[0]] + wd_remove(fs.drop_first(), name)).drop_first() =~= wd_remove(
            fs.drop_first(),
            name,
        ));
        assert((seq![fs[0]] + wd_remove(fs.drop_first(), name))[0] == fs[0]);
    }
}

/// Writing where the order puts the name: if a file of that name sits at
/// position `i`, the write updates it in place; otherwise it inserts there.
pub proof fn lemma_wd_set_at(fs: Seq<WorkFileV>, name: Seq<char>, content: Seq<u8>, i: int)
    requires
        files_sorted(fs),
        0 <= i <= fs.len(),
        forall|j: int| 0 <= j < i ==> lex_lt(fs[j].name, name),
        i < fs.len() ==> !lex_lt(fs[i].name, name),
    ensures
        i < fs.len() && fs[i].name == name ==> wd_set(fs, name, content) == fs.update(
            i,
            WorkFileV { name, content },
        ),
        !(i < fs.len() && fs[i].name == name) ==> wd_set(fs, name, content) == fs.insert(
            i,
            WorkFileV { name, content },
        ),
    decreases i,
{
    let w = WorkFileV { name, content };
    if i == 0 {
        if fs.len() == 0 {
            assert(wd_set(fs, name, content) =~= fs.insert(0, w));
        } else if fs[0].name == name {
            lemma_lex_trichotomy(name, fs[0].name);
            assert(wd_set(fs, name, content) =~= fs.update(0, w));
        } else {
            lemma_lex_trichotomy(name, fs[0].name);
            assert(lex_lt(name, fs[0].name));
            assert(wd_set(fs, name, content) =~= fs.insert(0, w));
        }
    } else {
        assert(lex_lt(fs[0].name, name));
        lemma_lex_trichotomy(fs[0].name, name);
        let rest = fs.drop_first();
        assert(files_sorted(rest)) by {
            assert forall|a: int, b: int| 0 <= a < b < rest.len() implies lex_lt(
                rest[a].name,
                rest[b].name,
            ) by {
                assert(rest[a] == fs[a + 1]);
                assert(rest[b] == fs[b + 1]);
            }
        }
        assert forall|j: int| 0 <= j < i - 1 implies lex_lt(#[trigger] rest[j].name, name) by {
            assert(rest[j] == fs[j + 1]);
        }
        assert(i - 1 < rest.len() ==> !lex_lt(rest[i - 1].name, name)) by {
            if i - 1 < rest.len() {
                assert(rest[i - 1] == fs[i]);
            }
        }
        lemma_wd_set_at(rest, name, content, i - 1);
        assert(wd_set(fs, name, content) == seq![fs[0]] + wd_set(rest, name, content));
        if i < fs.len() && fs[i].name == name {
            assert(rest[i - 1] == fs[i]);
            assert(wd_set(rest, name, content) == rest.update(i - 1, w));
            assert(seq![fs[0]] + rest.update(i - 1, w) =~= fs.update(i, w));
        } else {
            assert(wd_set(rest, name, content) == rest.insert(i - 1, w));
            assert(seq![fs[0]] + rest.insert(i - 1, w) =~= fs.insert(i, w));
        }
    }
}

/// Deleting a present name: if the file of that name sits at position `i`,
/// the delete drops exactly that position.
pub proof fn lemma_wd_remove_at(fs: Seq<WorkFileV>, name: Seq<char>, i: int)
    requires
        0 <= i < fs.len(),
        fs[i].name == name,
        forall|j: int| 0 <= j < i ==> fs[j].name != name,
    ensures
        wd_remove(fs, name) == fs.remove(i),
    decreases i,
{
    if i == 0 {
        assert(wd_remove(fs, name) =~= fs.remove(0));
    } else {
        let rest = fs.drop_first();
        assert forall|j: int| 0 <= j < i - 1 implies #[trigger] rest[j].name != name by {
            assert(rest[j] == fs[j + 1]);
        }
        assert(rest[i - 1] == fs[i]);
        lemma_wd_remove_at(rest, name, i - 1);
        assert(wd_remove(fs, name) == seq![fs[0]] + rest.remove(i - 1));
        assert(seq![fs[0]] + rest.remove(i - 1) =~= fs.remove(i));
    }
}

/// The files a checked-out commit put on disk, in name order.
pub struct WorkDir {
    pub files: Vec<WorkFile>,
}

impl View for WorkDir {
    type V = Seq<WorkFileV>;

    open spec fn view(&self) -> Seq<WorkFileV> {
        self.files@.map_values(|f: WorkFile| f@)
    }
}

impl WorkDir {
    /// An empty working directory.
    pub fn new() -> (w: WorkDir)
        ensures
            w@ =~= Seq::<WorkFileV>::empty(),
    {
        WorkDir { files: Vec::new() }
    }

    /// How many files are on disk.
    pub fn len(&self) -> (n: usize)
        ensures
            n == self@.len(),
    {
        self.files.len()
    }

    /// The position of the file called `name`, when it is present; scanning
    /// in order, the first index whose name is not below `name`.
    fn lower_bound(&self, name: &str) -> (i: usize)
        requires
            files_sorted(self@),
        ensures
            i <= self@.len(),
            forall|j: int| 0 <= j < i ==> lex_lt(self@[j].name, name@),
            i < self@.len() ==> !lex_lt(self@[i as int].name, name@),
    {
        let n = self.files.len();
        let mut i: usize = 0;
        while i < n
            invariant
                i <= n,
                n == self@.len(),
                n == self.files@.len(),
                forall|j: int| 0 <= j < self@.len() ==> self@[j] == self.files@[j]@,
                forall|j: int| 0 <= j < i ==> lex_lt(self@[j].name, name@),
            decreases n - i,
        {
            let c = str_cmp(self.files[i].name.as_str(), name);
            if c >= 0 {
                return i;
            }
            i = i + 1;
        }
        i
    }

    /// Finds the file called `name`, handing back its position.
    pub fn find(&self, name: &str) -> (r: Option<usize>)
        requires
            files_sorted(self@),
        ensures
            match r {
                Some(i) => i < self@.len() && self@[i as int].name == name@ && wd_lookup(self@, name@)
                    == Some(self@[i as int].content),
                None => wd_lookup(self@, name@) is None,
            },
    {
        proof {
            lemma_wd_lookup_has(self@, name@);
        }
        let i = self.lower_bound(name);
        if i < self.files.len() && str_eq(self.files[i].name.as_str(), name) {
            proof {
                assert(self@[i as int].name == name@);
                lemma_wd_lookup_first(self@, name@, i as int);
            }
            Some(i)
        } else {
            proof {
                if exists|j: int| 0 <= j < self@.len() && self@[j].name == name@ {
                    let j = choose|j: int| 0 <= j < self@.len() && self@[j].name == name@;
                    if j < i as int {
                        lemma_lex_trichotomy(self@[j].name, name@);
                    } else if j > i as int {
                        assert(i < self@.len());
                        assert(lex_lt(self@[i as int].name, self@[j].name));
                    }
                }
            }
            None
        }
    }

    /// The bytes of the file called `name`, when it is present.
    pub fn get(&self, name: &str) -> (r: Option<&Vec<u8>>)
        requires
            files_sorted(self@),
        ensures
            match r {
                Some(c) => wd_lookup(self@, name@) == Some(c@),
                None => wd_lookup(self@, name@) is None,
            },
    {
        match self.find(name) {
            Some(i) => Some(&self.files[i].content),
            None => None,
        }
    }

    /// Writes `content` to the file called `name`, creating it if absent,
    /// and keeps the directory in name order.
    pub fn set(&mut self, name: String, content: Vec<u8>)
        requires
            files_sorted(old(self)@),
        ensures
            final(self)@ == wd_set(old(self)@, name@, content@),
            files_sorted(final(self)@),
    {
        let ghost fs = self@;
        let i = self.lower_bound(name.as_str());
        proof {
            lemma_wd_set_at(fs, name@, content@, i as int);
        }
        let ghost w = WorkFileV { name: name@, content: content@ };
        if i < self.files.len() && str_eq(self.files[i].name.as_str(), name.as_str()) {
            self.files[i] = WorkFile { name, content };
            proof {
                assert(self@ =~= fs.update(i as int, w));
                assert forall|a: int, b: int| 0 <= a < b < self@.len() implies lex_lt(
                    self@[a].name,
                    self@[b].name,
                ) by {
                    assert(fs[i as int].name == w.name);
                }
            }
        } else {
            self.files.insert(i, WorkFile { name, content });
            proof {
                assert(self@ =~= fs.insert(i as int, w));
                if i < fs.len() {
                    lemma_lex_trichotomy(fs[i as int].name, name@);
                }
                assert forall|a: int, b: int| 0 <= a < b < self@.len() implies lex_lt(
                    self@[a].name,
                    self@[b].name,
                ) by {
                    if a < i as int && b == i as int {
                        assert(self@[a] == fs[a]);
                    } else if a == i as int && b > i as int {
                        assert(self@[b] == fs[b - 1]);
                        assert(lex_lt(name@, fs[i as int].name));
                        if b - 1 > i as int {
                            crate::order::lemma_lex_lt_trans(
                                name@,
                                fs[i as int].name,
                                fs[b - 1].name,
                            );
                        }
                    } else if a < i as int && b > i as int {
                        assert(self@[a] == fs[a]);
                        assert(self@[b] == fs[b - 1]);
                        if b - 1 > a {
                        } else {
                            assert(b - 1 == a && a == i as int - 1);
                        }
                    } else if a > i as int && b > i as int {
                        assert(self@[a] == fs[a - 1]);
                        assert(self@[b] == fs[b - 1]);
                    } else if a < i as int && b < i as int {
                        assert(self@[a] == fs[a]);
                        assert(self@[b] == fs[b]);
                    }
                }
            }
        }
    }

    /// Deletes the file called `name` when it is present; an absent name
    /// leaves the directory as it was and reports `false`.
    pub fn remove(&mut self, name: &str) -> (r: bool)
        requires
            files_sorted(old(self)@),
        ensures
            final(self)@ == wd_remove(old(self)@, name@),
            r == wd_has(old(self)@, name@),
            files_sorted(final(self)@),
    {
        let ghost fs = self@;
        match self.find(name) {
            Some(i) => {
                proof {
                    assert forall|j: int| 0 <= j < i as int implies fs[j].name != name@ by {
                        assert(lex_lt(fs[j].name, fs[i as int].name));
                        lemma_lex_trichotomy(fs[j].name, fs[i as int].name);
                    }
                    lemma_wd_remove_at(fs, name@, i as int);
                }
                self.files.remove(i);
                proof {
                    assert(self@ =~= fs.remove(i as int));
                    assert forall|a: int, b: int| 0 <= a < b < self@.len() implies lex_lt(
                        self@[a].name,
                        self@[b].name,
                    ) by {
                        let a0: int = if a < i as int {
                            a
                        } else {
                            a + 1
                        };
                        let b0: int = if b < i as int {
                            b
                        } else {
                            b + 1
                        };
                        assert(self@[a] == fs[a0]);
                        assert(self@[b] == fs[b0]);
                    }
                }
                true
            },
            None => {
                proof {
                    lemma_wd_lookup_has(fs, name@);
                    lemma_wd_remove_absent(fs, name@);
                }
                false
            },
        }
    }
}

/// Position `i` holds the first file called `name`, so the lookup returns
/// its content.
proof fn lemma_wd_lookup_first(fs: Seq<WorkFileV>, name: Seq<char>, i: int)
    requires
        files_sorted(fs),
        0 <= i < fs.len(),
        fs[i].name == name,
    ensures
        wd_lookup(fs, name) == Some(fs[i].content),
    decreases i,
{
    if i == 0 {
    } else {
        lemma_lex_trichotomy(fs[0].name, fs[i].name);
        assert(lex_lt(fs[0].name, fs[i].name));
        let rest = fs.drop_first();
        assert(files_sorted(rest)) by {
            assert forall|a: int, b: int| 0 <= a < b < rest.len() implies lex_lt(
                rest[a].name,
                rest[b].name,
            ) by {
                assert(rest[a] == fs[a + 1]);
                assert(rest[b] == fs[b + 1]);
            }
        }
        assert(rest[i - 1] == fs[i]);
        lemma_wd_lookup_first(rest, name, i - 1);
    }
}

/// Deleting a name the directory does not hold changes nothing.
proof fn lemma_wd_remove_absent(fs: Seq<WorkFileV>, name: Seq<char>)
    requires
        wd_lookup(fs, name) is None,
    ensures
        wd_remove(fs, name) == fs,
    decreases fs.len(),
{
    if fs.len() == 0 {
        assert(wd_remove(fs, name) =~= fs);
    } else {
        assert(fs[0].name != name);
        lemma_wd_remove_absent(fs.drop_first(), name);
        assert(seq![fs[0]] + fs.drop_first() =~= fs);
    }
}

} // verus!
