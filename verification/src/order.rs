//! Lexicographic order on names.
//!
//! File paths and branch names are compared character by character, by code
//! point. The working directory and the trees built from it keep their
//! entries in this order, which is what makes a tree a canonical picture of
//! a directory: one set of entries, one tree object.

use vstd::prelude::*;

verus! {

/// Three-way lexicographic comparison of two character sequences:
/// `-1` when `a` comes first, `1` when `b` comes first, `0` when equal.
pub open spec fn lex_cmp(a: Seq<char>, b: Seq<char>) -> int
    decreases a.len(),
{
    if a.len() == 0 && b.len() == 0 {
        0
    } else if a.len() == 0 {
        -1
    } else if b.len() == 0 {
        1
    } else if (a[0] as u32) < (b[0] as u32) {
        -1
    } else if (a[0] as u32) > (b[0] as u32) {
        1
    } else {
        lex_cmp(a.drop_first(), b.drop_first())
    }
}

/// `a` comes strictly before `b`.
pub open spec fn lex_lt(a: Seq<char>, b: Seq<char>) -> bool {
    lex_cmp(a, b) == -1
}

/// Equal code points come from equal characters.
proof fn lemma_char_cast_inj(a: char, b: char)
    requires
        (a as u32) == (b as u32),
    ensures
        a == b,
{
    vstd::utf8::char_u32_cast(a, a as u32);
    vstd::utf8::char_u32_cast(b, b as u32);
}

/// The comparison returns zero exactly on equal sequences.
pub proof fn lemma_lex_cmp_eq(a: Seq<char>, b: Seq<char>)
    ensures
        lex_cmp(a, b) == 0 <==> a == b,
    decreases a.len(),
{
    if a.len() == 0 && b.len() == 0 {
        assert(a =~= b);
    } else if a.len() == 0 || b.len() == 0 {
    } else if (a[0] as u32) < (b[0] as u32) || (a[0] as u32) > (b[0] as u32) {
        assert(a[0] != b[0]);
    } else {
        lemma_char_cast_inj(a[0], b[0]);
        lemma_lex_cmp_eq(a.drop_first(), b.drop_first());
        if lex_cmp(a, b) == 0 {
            assert(a.drop_first() == b.drop_first());
            assert forall|i: int| 0 <= i < a.len() implies a[i] == b[i] by {
                if i > 0 {
                    assert(a[i] == a.drop_first()[i - 1]);
                    assert(b[i] == b.drop_first()[i - 1]);
                }
            }
            assert(a =~= b);
        } else {
            assert(a.drop_first() != b.drop_first());
            if a == b {
                assert(a.drop_first() =~= b.drop_first());
            }
        }
    }
}

/// Swapping the arguments flips the sign of the comparison.
pub proof fn lemma_lex_cmp_antisym(a: Seq<char>, b: Seq<char>)
    ensures
        lex_cmp(a, b) == -lex_cmp(b, a),
    decreases a.len(),
{
    if a.len() == 0 || b.len() == 0 {
    } else if (a[0] as u32) == (b[0] as u32) {
        lemma_char_cast_inj(a[0], b[0]);
        lemma_lex_cmp_antisym(a.drop_first(), b.drop_first());
    }
}

/// The strict order is transitive.
pub proof fn lemma_lex_lt_trans(a: Seq<char>, b: Seq<char>, c: Seq<char>)
    requires
        lex_lt(a, b),
        lex_lt(b, c),
    ensures
        lex_lt(a, c),
    decreases a.len(),
{
    if a.len() == 0 {
        assert(b.len() > 0);
        assert(c.len() > 0);
    } else {
        assert(b.len() > 0);
        assert(c.len() > 0);
        if (a[0] as u32) == (b[0] as u32) && (b[0] as u32) == (c[0] as u32) {
            lemma_char_cast_inj(a[0], b[0]);
            lemma_char_cast_inj(b[0], c[0]);
            lemma_lex_lt_trans(a.drop_first(), b.drop_first(), c.drop_first());
        }
    }
}

/// The comparison only ever returns one of its three values.
pub proof fn lemma_lex_cmp_range(a: Seq<char>, b: Seq<char>)
    ensures
        -1 <= lex_cmp(a, b) <= 1,
    decreases a.len(),
{
    if a.len() != 0 && b.len() != 0 && (a[0] as u32) == (b[0] as u32) {
        lemma_lex_cmp_range(a.drop_first(), b.drop_first());
    }
}

/// Exactly one of `a < b`, `a == b`, `b < a` holds.
pub proof fn lemma_lex_trichotomy(a: Seq<char>, b: Seq<char>)
    ensures
        lex_lt(a, b) || a == b || lex_lt(b, a),
        lex_lt(a, b) ==> a != b && !lex_lt(b, a),
        a == b ==> !lex_lt(a, b) && !lex_lt(b, a),
{
    lemma_lex_cmp_range(a, b);
    lemma_lex_cmp_eq(a, b);
    lemma_lex_cmp_antisym(a, b);
}

/// Comparing the tails of two sequences with equal heads compares the wholes.
proof fn lemma_lex_cmp_step(a: Seq<char>, b: Seq<char>, i: int)
    requires
        0 <= i < a.len(),
        0 <= i < b.len(),
        a[i] == b[i],
    ensures
        lex_cmp(a.skip(i), b.skip(i)) == lex_cmp(a.skip(i + 1), b.skip(i + 1)),
{
    assert(a.skip(i).len() > 0);
    assert(b.skip(i).len() > 0);
    assert(a.skip(i)[0] == a[i]);
    assert(b.skip(i)[0] == b[i]);
    assert(a.skip(i).drop_first() =~= a.skip(i + 1));
    assert(b.skip(i).drop_first() =~= b.skip(i + 1));
}

/// Compares two strings lexicographically by code point, returning `-1`,
/// `0` or `1` as `lex_cmp` does on their views.
pub fn str_cmp(a: &str, b: &str) -> (r: i32)
    ensures
        r as int == lex_cmp(a@, b@),
        r == -1 || r == 0 || r == 1,
{
    let a_len = a.unicode_len();
    let b_len = b.unicode_len();
    let mut i: usize = 0;
    proof {
        assert(a@.skip(0) =~= a@);
        assert(b@.skip(0) =~= b@);
    }
    loop
        invariant
            i <= a_len,
            i <= b_len,
            a_len == a@.len(),
            b_len == b@.len(),
            lex_cmp(a@, b@) == lex_cmp(a@.skip(i as int), b@.skip(i as int)),
        decreases a_len - i,
    {
        if i == a_len || i == b_len {
            proof {
                assert(a@.skip(i as int).len() == 0 || b@.skip(i as int).len() == 0);
            }
            if a_len == b_len {
                proof {
                    assert(a@.skip(i as int).len() == 0 && b@.skip(i as int).len() == 0);
                }
                return 0;
            } else if a_len < b_len {
                proof {
                    assert(b@.skip(i as int).len() > 0);
                }
                return -1;
            } else {
                proof {
                    assert(a@.skip(i as int).len() > 0);
                }
                return 1;
            }
        }
        let ca = a.get_char(i);
        let cb = b.get_char(i);
        proof {
            assert(a@.skip(i as int)[0] == a@[i as int]);
            assert(b@.skip(i as int)[0] == b@[i as int]);
        }
        if (ca as u32) < (cb as u32) {
            return -1;
        } else if (ca as u32) > (cb as u32) {
            return 1;
        }
        proof {
            lemma_char_cast_inj(ca, cb);
            lemma_lex_cmp_step(a@, b@, i as int);
        }
        i = i + 1;
    }
}

/// Equality test on strings, stated over their views.
pub fn str_eq(a: &str, b: &str) -> (r: bool)
    ensures
        r == (a@ == b@),
{
    let c = str_cmp(a, b);
    proof {
        lemma_lex_cmp_eq(a@, b@);
    }
    c == 0
}

} // verus!
