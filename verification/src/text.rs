//! Character-level text utilities shared by the catalog and the ranker:
//! ASCII case folding and lexicographic ordering of strings.

use vstd::prelude::*;

verus! {

/// ASCII case folding of a single character: `'A'..='Z'` map to the
/// corresponding lowercase letter, every other character is unchanged.
pub open spec fn fold_char(c: char) -> char {
    if 'A' <= c && c <= 'Z' {
        ((c as u32) + 32) as char
    } else {
        c
    }
}

/// ASCII case folding of a whole string.
pub open spec fn fold_chars(s: Seq<char>) -> Seq<char> {
    s.map_values(|c: char| fold_char(c))
}

/// Numeric value of a folded character, used by the executable comparison.
pub open spec fn fold_code(c: char) -> u32 {
    fold_char(c) as u32
}

/// Arithmetic value of `fold_code`, and its bound.
pub proof fn lemma_fold_code_values(c: char)
    ensures
        fold_code(c) == if 'A' <= c && c <= 'Z' {
            (c as int) + 32
        } else {
            c as int
        },
        fold_code(c) <= 0x10FFFF,
{
    if 'A' <= c && c <= 'Z' {
        assert(65 <= c as u32 && c as u32 <= 90);
        assert((((c as u32) + 32) as char) as u32 == (c as u32) + 32);
    }
}

/// Code points determine characters, so equal folded codes mean equal
/// folded characters.
proof fn lemma_fold_code_injective(a: char, b: char)
    requires
        fold_code(a) == fold_code(b),
    ensures
        fold_char(a) == fold_char(b),
{
    assert(fold_char(a) as u32 == fold_char(b) as u32);
    assert(fold_char(a) as int == fold_char(b) as int);
}

/// Folded numeric value of one character, in executable code.
pub fn fold_code_of(c: char) -> (r: u32)
    ensures
        r == fold_code(c),
{
    let x: u32 = c as u32;
    proof {
        lemma_fold_code_values(c);
    }
    if 65 <= x && x <= 90 {
        x + 32
    } else {
        x
    }
}

/// Whether two strings are equal after ASCII case folding.
pub fn fold_eq(a: &str, b: &str) -> (r: bool)
    ensures
        r == (fold_chars(a@) == fold_chars(b@)),
{
    let alen = a.unicode_len();
    let blen = b.unicode_len();
    if alen != blen {
        proof {
            assert(fold_chars(a@).len() != fold_chars(b@).len());
        }
        return false;
    }
    let mut i: usize = 0;
    while i < alen
        invariant
            alen == a@.len(),
            alen == b@.len(),
            i <= alen,
            forall|j: int| 0 <= j < i ==> fold_char(a@[j]) == fold_char(b@[j]),
        decreases alen - i,
    {
        let ca = a.get_char(i);
        let cb = b.get_char(i);
        if fold_code_of(ca) != fold_code_of(cb) {
            proof {
                assert(fold_code(ca) != fold_code(cb));
                assert(fold_chars(a@)[i as int] == fold_char(a@[i as int]));
                assert(fold_chars(b@)[i as int] == fold_char(b@[i as int]));
                if fold_char(a@[i as int]) == fold_char(b@[i as int]) {
                    assert(fold_code(ca) == fold_code(cb));
                }
                assert(fold_chars(a@) != fold_chars(b@)) by {
                    assert(fold_chars(a@)[i as int] != fold_chars(b@)[i as int]);
                }
            }
            return false;
        }
        proof {
            lemma_fold_code_injective(ca, cb);
        }
        i = i + 1;
    }
    proof {
        assert(fold_chars(a@) =~= fold_chars(b@));
    }
    true
}

/// Lexicographic order on strings by code point, `a` before or equal to `b`.
pub open spec fn lex_le(a: Seq<char>, b: Seq<char>) -> bool
    decreases a.len(),
{
    if a.len() == 0 {
        true
    } else if b.len() == 0 {
        false
    } else if (a[0] as int) < (b[0] as int) {
        true
    } else if (a[0] as int) > (b[0] as int) {
        false
    } else {
        lex_le(a.drop_first(), b.drop_first())
    }
}

/// The lexicographic order relates every pair of strings one way or the other.
pub proof fn lemma_lex_le_total(a: Seq<char>, b: Seq<char>)
    ensures
        lex_le(a, b) || lex_le(b, a),
    decreases a.len(),
{
    if a.len() == 0 || b.len() == 0 {
    } else if (a[0] as int) == (b[0] as int) {
        lemma_lex_le_total(a.drop_first(), b.drop_first());
    }
}

/// The lexicographic order is transitive.
pub proof fn lemma_lex_le_trans(a: Seq<char>, b: Seq<char>, c: Seq<char>)
    requires
        lex_le(a, b),
        lex_le(b, c),
    ensures
        lex_le(a, c),
    decreases a.len(),
{
    if a.len() == 0 {
    } else if b.len() == 0 {
    } else if c.len() == 0 {
    } else {
        if (a[0] as int) == (b[0] as int) && (b[0] as int) == (c[0] as int) {
            lemma_lex_le_trans(a.drop_first(), b.drop_first(), c.drop_first());
        }
    }
}

/// Executable comparison realising `lex_le`.
pub fn lex_le_exec(a: &str, b: &str) -> (r: bool)
    ensures
        r == lex_le(a@, b@),
{
    let alen = a.unicode_len();
    let blen = b.unicode_len();
    let mut i: usize = 0;
    let min: usize = if alen < blen {
        alen
    } else {
        blen
    };
    proof {
        assert(a@.skip(0) =~= a@);
        assert(b@.skip(0) =~= b@);
    }
    while i < min
        invariant
            alen == a@.len(),
            blen == b@.len(),
            min == if alen < blen {
                alen
            } else {
                blen
            },
            i <= min,
            forall|j: int| 0 <= j < i ==> a@[j] == b@[j],
            lex_le(a@, b@) == lex_le(a@.skip(i as int), b@.skip(i as int)),
        decreases min - i,
    {
        let ca = a.get_char(i);
        let cb = b.get_char(i);
        let xa: u32 = ca as u32;
        let xb: u32 = cb as u32;
        proof {
            assert(a@.skip(i as int)[0] == a@[i as int]);
            assert(b@.skip(i as int)[0] == b@[i as int]);
            assert(a@.skip(i as int).drop_first() =~= a@.skip(i + 1));
            assert(b@.skip(i as int).drop_first() =~= b@.skip(i + 1));
        }
        if xa < xb {
            return true;
        }
        if xa > xb {
            return false;
        }
        proof {
            assert(ca as int == cb as int);
            assert(ca == cb);
        }
        i = i + 1;
    }
    proof {
        if alen <= blen {
            assert(a@.skip(i as int).len() == 0);
        } else {
            assert(b@.skip(i as int).len() == 0);
            assert(a@.skip(i as int).len() > 0);
        }
    }
    alen <= blen
}

/// Two-key lexicographic order: by the first key, ties by the second.
pub open spec fn lex2_le(a1: Seq<char>, a2: Seq<char>, b1: Seq<char>, b2: Seq<char>) -> bool {
    if lex_le(a1, b1) && !lex_le(b1, a1) {
        true
    } else if lex_le(b1, a1) && !lex_le(a1, b1) {
        false
    } else {
        lex_le(a2, b2)
    }
}

/// The two-key order relates every pair one way or the other.
pub proof fn lemma_lex2_le_total(a1: Seq<char>, a2: Seq<char>, b1: Seq<char>, b2: Seq<char>)
    ensures
        lex2_le(a1, a2, b1, b2) || lex2_le(b1, b2, a1, a2),
{
    lemma_lex_le_total(a1, b1);
    lemma_lex_le_total(a2, b2);
}

/// The two-key order is transitive.
pub proof fn lemma_lex2_le_trans(
    a1: Seq<char>,
    a2: Seq<char>,
    b1: Seq<char>,
    b2: Seq<char>,
    c1: Seq<char>,
    c2: Seq<char>,
)
    requires
        lex2_le(a1, a2, b1, b2),
        lex2_le(b1, b2, c1, c2),
    ensures
        lex2_le(a1, a2, c1, c2),
{
    lemma_lex_le_total(a1, b1);
    lemma_lex_le_total(b1, c1);
    lemma_lex_le_trans(a1, b1, c1);
    if lex_le(b1, a1) && lex_le(c1, b1) {
        lemma_lex_le_trans(c1, b1, a1);
        lemma_lex_le_trans(a2, b2, c2);
    } else {
        // Some first-key step is strict, so the composite is strict too.
        if lex_le(c1, a1) {
            lemma_lex_le_trans(b1, c1, a1);
            lemma_lex_le_trans(c1, a1, b1);
        }
    }
}

/// Executable comparison realising `lex2_le`.
pub fn lex2_le_exec(a1: &str, a2: &str, b1: &str, b2: &str) -> (r: bool)
    ensures
        r == lex2_le(a1@, a2@, b1@, b2@),
{
    let le1 = lex_le_exec(a1, b1);
    let ge1 = lex_le_exec(b1, a1);
    if le1 && !ge1 {
        true
    } else if ge1 && !le1 {
        false
    } else {
        lex_le_exec(a2, b2)
    }
}

/// Whether `a` is a prefix of `b`.
pub open spec fn is_prefix(a: Seq<char>, b: Seq<char>) -> bool {
    a.len() <= b.len() && a == b.subrange(0, a.len() as int)
}

/// Executable prefix test.
pub fn is_prefix_exec(a: &str, b: &str) -> (r: bool)
    ensures
        r == is_prefix(a@, b@),
{
    let alen = a.unicode_len();
    let blen = b.unicode_len();
    if alen > blen {
        return false;
    }
    let mut i: usize = 0;
    while i < alen
        invariant
            alen == a@.len(),
            blen == b@.len(),
            alen <= blen,
            i <= alen,
            forall|j: int| 0 <= j < i ==> a@[j] == b@[j],
        decreases alen - i,
    {
        let ca = a.get_char(i);
        let cb = b.get_char(i);
        let xa: u32 = ca as u32;
        let xb: u32 = cb as u32;
        if xa != xb {
            proof {
                assert(ca as int != cb as int);
                if a@ == b@.subrange(0, alen as int) {
                    assert(a@[i as int] == b@.subrange(0, alen as int)[i as int]);
                }
            }
            return false;
        }
        proof {
            assert(ca as int == cb as int);
            assert(ca == cb);
        }
        i = i + 1;
    }
    proof {
        assert(a@ =~= b@.subrange(0, alen as int));
    }
    true
}

} // verus!
