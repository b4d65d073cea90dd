//! Character classes, lexicographic comparison of character sequences, and
//! searching for a delimiter character, together with executable counterparts
//! over `&str`.

use vstd::prelude::*;
use vstd::string::StrSliceExecFns;

verus! {

/// A decimal digit `'0'..='9'`.
pub open spec fn spec_is_digit(c: char) -> bool {
    '0' <= c && c <= '9'
}

/// A character allowed in a semantic-version identifier: ASCII alphanumeric
/// or `'-'`.
pub open spec fn spec_is_id_char(c: char) -> bool {
    spec_is_digit(c) || ('a' <= c && c <= 'z') || ('A' <= c && c <= 'Z') || c == '-'
}

/// Executable check for a decimal digit.
pub fn is_digit_char(c: char) -> (r: bool)
    ensures
        r == spec_is_digit(c),
{
    '0' <= c && c <= '9'
}

/// Executable check for an identifier character.
pub fn is_id_char(c: char) -> (r: bool)
    ensures
        r == spec_is_id_char(c),
{
    is_digit_char(c) || ('a' <= c && c <= 'z') || ('A' <= c && c <= 'Z') || c == '-'
}

/// Three-way lexicographic comparison of character sequences by code point:
/// `-1` if `a` sorts before `b`, `0` if they are equal, `1` otherwise.
/// A strict prefix sorts before its extensions.
pub open spec fn lex_cmp(a: Seq<char>, b: Seq<char>) -> int
    decreases a.len(),
{
    if a.len() == 0 && b.len() == 0 {
        0
    } else if a.len() == 0 {
        -1
    } else if b.len() == 0 {
        1
    } else if a[0] < b[0] {
        -1
    } else if b[0] < a[0] {
        1
    } else {
        lex_cmp(a.skip(1), b.skip(1))
    }
}

/// `lex_cmp` only ever takes the values `-1`, `0`, `1`.
pub proof fn lemma_lex_cmp_range(a: Seq<char>, b: Seq<char>)
    ensures
        -1 <= lex_cmp(a, b) <= 1,
    decreases a.len(),
{
    if a.len() > 0 && b.len() > 0 && !(a[0] < b[0]) && !(b[0] < a[0]) {
        lemma_lex_cmp_range(a.skip(1), b.skip(1));
    }
}

/// Comparing in the other direction negates the result.
pub proof fn lemma_lex_cmp_antisym(a: Seq<char>, b: Seq<char>)
    ensures
        lex_cmp(a, b) == -lex_cmp(b, a),
    decreases a.len(),
{
    if a.len() > 0 && b.len() > 0 && !(a[0] < b[0]) && !(b[0] < a[0]) {
        lemma_lex_cmp_antisym(a.skip(1), b.skip(1));
    }
}

/// The comparison is zero exactly on equal sequences.
pub proof fn lemma_lex_cmp_eq(a: Seq<char>, b: Seq<char>)
    ensures
        (lex_cmp(a, b) == 0) <==> (a == b),
    decreases a.len(),
{
    if a.len() > 0 && b.len() > 0 && !(a[0] < b[0]) && !(b[0] < a[0]) {
        lemma_lex_cmp_eq(a.skip(1), b.skip(1));
        if lex_cmp(a, b) == 0 {
            assert(a.skip(1) == b.skip(1));
            assert(a.len() == b.len());
            assert forall|i: int| 0 <= i < a.len() implies a[i] == b[i] by {
                if i >= 1 {
                    assert(a.skip(1)[i - 1] == a[i]);
                    assert(b.skip(1)[i - 1] == b[i]);
                }
            }
            assert(a =~= b);
        }
    } else {
        if a.len() == 0 && b.len() == 0 {
            assert(a =~= b);
        }
    }
}

/// Transitivity of `lex_cmp <= 0`, strict where either hypothesis is strict.
pub proof fn lemma_lex_cmp_trans(a: Seq<char>, b: Seq<char>, c: Seq<char>)
    requires
        lex_cmp(a, b) <= 0,
        lex_cmp(b, c) <= 0,
    ensures
        lex_cmp(a, c) <= 0,
        lex_cmp(a, b) < 0 || lex_cmp(b, c) < 0 ==> lex_cmp(a, c) < 0,
    decreases a.len() + b.len() + c.len(),
{
    lemma_lex_cmp_range(a, b);
    lemma_lex_cmp_range(b, c);
    lemma_lex_cmp_range(a, c);
    if lex_cmp(a, b) == 0 {
        lemma_lex_cmp_eq(a, b);
    } else if lex_cmp(b, c) == 0 {
        lemma_lex_cmp_eq(b, c);
    } else {
        // both strict
        if a.len() == 0 {
        } else {
            // a, b, c all non-empty: b > a-ish reasoning
            assert(b.len() > 0);
            assert(c.len() > 0);
            if a[0] < b[0] {
                if b[0] < c[0] {
                } else {
                    assert(!(c[0] < b[0]));
                    assert(a[0] < c[0]);
                }
            } else if b[0] < a[0] {
                assert(false);
            } else {
                // a[0] == b[0]
                if b[0] < c[0] {
                    assert(a[0] < c[0]);
                } else if c[0] < b[0] {
                    assert(false);
                } else {
                    lemma_lex_cmp_trans(a.skip(1), b.skip(1), c.skip(1));
                }
            }
        }
    }
}

/// Executable three-way lexicographic comparison of two string slices.
pub fn str_lex_cmp(a: &str, b: &str) -> (r: i8)
    ensures
        r as int == lex_cmp(a@, b@),
{
    let la: usize = a.unicode_len();
    let lb: usize = b.unicode_len();
    let mut i: usize = 0;
    proof {
        assert(a@.skip(0) =~= a@);
        assert(b@.skip(0) =~= b@);
    }
    loop
        invariant
            i <= la,
            i <= lb,
            la == a@.len(),
            lb == b@.len(),
            lex_cmp(a@, b@) == lex_cmp(a@.skip(i as int), b@.skip(i as int)),
        decreases la - i,
    {
        if i >= la && i >= lb {
            assert(a@.skip(i as int).len() == 0 && b@.skip(i as int).len() == 0);
            return 0;
        }
        if i >= la {
            assert(a@.skip(i as int).len() == 0 && b@.skip(i as int).len() > 0);
            return -1;
        }
        if i >= lb {
            assert(a@.skip(i as int).len() > 0 && b@.skip(i as int).len() == 0);
            return 1;
        }
        let ca = a.get_char(i);
        let cb = b.get_char(i);
        assert(a@.skip(i as int)[0] == a@[i as int]);
        assert(b@.skip(i as int)[0] == b@[i as int]);
        if ca < cb {
            return -1;
        }
        if cb < ca {
            return 1;
        }
        proof {
            assert(a@.skip(i as int).skip(1) =~= a@.skip(i + 1));
            assert(b@.skip(i as int).skip(1) =~= b@.skip(i + 1));
        }
        i = i + 1;
    }
}

/// Executable equality of two string slices, by contents.
pub fn str_eq(a: &str, b: &str) -> (r: bool)
    ensures
        r == (a@ == b@),
{
    let c = str_lex_cmp(a, b);
    proof {
        lemma_lex_cmp_eq(a@, b@);
    }
    c == 0
}

/// Index of the first occurrence of `c` in `s` at or after position `i`,
/// or `s.len()` if there is none from there on.
pub open spec fn find_from(s: Seq<char>, c: char, i: int) -> int
    decreases s.len() - i when 0 <= i <= s.len()
{
    if i < s.len() {
        if s[i] == c {
            i
        } else {
            find_from(s, c, i + 1)
        }
    } else {
        i
    }
}

/// What `find_from` returns: the first occurrence at or after `i`, if any.
pub proof fn lemma_find_from(s: Seq<char>, c: char, i: int)
    requires
        0 <= i <= s.len(),
    ensures
        i <= find_from(s, c, i) <= s.len(),
        find_from(s, c, i) < s.len() ==> s[find_from(s, c, i)] == c,
        forall|j: int| i <= j < find_from(s, c, i) ==> s[j] != c,
    decreases s.len() - i,
{
    if i < s.len() && s[i] != c {
        lemma_find_from(s, c, i + 1);
    }
}

/// Executable search for the first occurrence of `c` at or after `i`.
pub fn str_find_from(s: &str, c: char, i: usize, l: usize) -> (r: usize)
    requires
        l == s@.len(),
        i <= l,
    ensures
        r as int == find_from(s@, c, i as int),
{
    let mut j: usize = i;
    loop
        invariant
            i <= j <= l,
            l == s@.len(),
            find_from(s@, c, i as int) == find_from(s@, c, j as int),
        decreases l - j,
    {
        if j >= l {
            return j;
        }
        if s.get_char(j) == c {
            return j;
        }
        j = j + 1;
    }
}

/// Index of the last occurrence of `c` in `s`, or `-1` if there is none.
pub open spec fn rfind(s: Seq<char>, c: char) -> int
    decreases s.len(),
{
    if s.len() == 0 {
        -1
    } else if s[s.len() - 1] == c {
        s.len() - 1
    } else {
        rfind(s.drop_last(), c)
    }
}

/// What `rfind` returns: the last occurrence, if any.
pub proof fn lemma_rfind(s: Seq<char>, c: char)
    ensures
        -1 <= rfind(s, c) < s.len(),
        rfind(s, c) >= 0 ==> s[rfind(s, c)] == c,
        forall|j: int| rfind(s, c) < j < s.len() ==> s[j] != c,
    decreases s.len(),
{
    if s.len() > 0 && s[s.len() - 1] != c {
        lemma_rfind(s.drop_last(), c);
        assert forall|j: int| rfind(s, c) < j < s.len() implies s[j] != c by {
            if j < s.len() - 1 {
                assert(s.drop_last()[j] == s[j]);
            }
        }
    }
}

/// Executable search for the last occurrence of `c` in `s`; returns `None`
/// when the character does not occur.
pub fn str_rfind(s: &str, c: char, l: usize) -> (r: Option<usize>)
    requires
        l == s@.len(),
    ensures
        match r {
            Some(k) => k as int == rfind(s@, c),
            None => rfind(s@, c) == -1,
        },
{
    let mut j: usize = l;
    proof {
        assert(s@.subrange(0, l as int) =~= s@);
    }
    loop
        invariant
            0 <= j <= l,
            l == s@.len(),
            rfind(s@, c) == rfind(s@.subrange(0, j as int), c),
        decreases j,
    {
        if j == 0 {
            assert(s@.subrange(0, 0).len() == 0);
            return None;
        }
        let cj = s.get_char(j - 1);
        proof {
            assert(s@.subrange(0, j as int).len() == j as int);
            assert(s@.subrange(0, j as int)[j - 1] == s@[j - 1]);
        }
        if cj == c {
            return Some(j - 1);
        }
        proof {
            assert(s@.subrange(0, j as int).drop_last() =~= s@.subrange(0, j - 1));
        }
        j = j - 1;
    }
}

} // verus!
