//! Semantic versions: the data type, its parser, and its precedence ordering.
//!
//! A version is `MAJOR.MINOR.PATCH` with an optional `-PRERELEASE` (dot-
//! separated identifiers) and an optional `+BUILD` (dot-separated
//! identifiers). Precedence compares major, minor and patch numerically,
//! then the prerelease identifiers: a version without prerelease sorts after
//! one with; identifiers compare numerically when both are all digits
//! (equal in value to length-then-lexicographic order, since numeric
//! identifiers carry no leading zero), otherwise lexicographically by code
//! point, a numeric identifier sorting before an alphanumeric one; a shorter
//! identifier list that is a prefix of a longer one sorts first. Build
//! metadata never affects precedence; it serves only as a final tie break so
//! that the comparison is a total order with equality exactly on equal
//! values.

use vstd::prelude::*;
use vstd::string::StrSliceExecFns;
use vstd::string::StringExecFns;
use crate::chars::{find_from, lex_cmp, spec_is_digit, spec_is_id_char};
use crate::chars::{lemma_find_from, lemma_lex_cmp_antisym, lemma_lex_cmp_eq,
    lemma_lex_cmp_range, lemma_lex_cmp_trans};
use crate::chars::{is_digit_char, is_id_char, str_find_from};

verus! {

/// A parsed semantic version. Prerelease and build identifiers are kept in
/// document order.
pub struct SemanticVersion {
    pub major: u64,
    pub minor: u64,
    pub patch: u64,
    pub prerelease: Vec<String>,
    pub build: Vec<String>,
}

/// The mathematical value of a `SemanticVersion`.
pub struct SemVerModel {
    pub major: int,
    pub minor: int,
    pub patch: int,
    pub prerelease: Seq<Seq<char>>,
    pub build: Seq<Seq<char>>,
}

impl View for SemanticVersion {
    type V = SemVerModel;

    open spec fn view(&self) -> SemVerModel {
        SemVerModel {
            major: self.major as int,
            minor: self.minor as int,
            patch: self.patch as int,
            prerelease: self.prerelease.deep_view(),
            build: self.build.deep_view(),
        }
    }
}

/// Every character of `s` is a decimal digit.
pub open spec fn all_digits(s: Seq<char>) -> bool {
    forall|i: int| 0 <= i < s.len() ==> spec_is_digit(s[i])
}

/// The number a sequence of decimal digits denotes.
pub open spec fn digits_val(s: Seq<char>) -> int
    decreases s.len(),
{
    if s.len() == 0 {
        0
    } else {
        digits_val(s.drop_last()) * 10 + (s.last() as u32 - '0' as u32)
    }
}

/// A valid numeric version component: non-empty digits, no leading zero,
/// and a value that fits in a `u64`.
pub open spec fn valid_num(s: Seq<char>) -> bool {
    &&& s.len() > 0
    &&& all_digits(s)
    &&& s.len() > 1 ==> s[0] != '0'
    &&& digits_val(s) <= u64::MAX
}

/// A valid identifier: non-empty, alphanumeric or `'-'`; under the numeric
/// rule (prerelease position) an all-digit identifier carries no leading
/// zero.
pub open spec fn valid_id(s: Seq<char>, numeric_rule: bool) -> bool {
    &&& s.len() > 0
    &&& forall|i: int| 0 <= i < s.len() ==> spec_is_id_char(s[i])
    &&& (numeric_rule && all_digits(s) && s.len() > 1 ==> s[0] != '0')
}

/// Every identifier of the list is valid.
pub open spec fn all_ids_valid(ids: Seq<Seq<char>>, numeric_rule: bool) -> bool {
    forall|j: int| 0 <= j < ids.len() ==> valid_id(#[trigger] ids[j], numeric_rule)
}

/// Split a sequence at every `'.'`; no delimiter yields the one whole
/// segment, and empty segments are kept (to be rejected by validity).
pub open spec fn split_ids(s: Seq<char>) -> Seq<Seq<char>>
    decreases s.len(),
    via split_ids_dec
{
    let k = find_from(s, '.', 0);
    if k >= s.len() {
        seq![s]
    } else {
        seq![s.subrange(0, k)] + split_ids(s.subrange(k + 1, s.len() as int))
    }
}

#[via_fn]
proof fn split_ids_dec(s: Seq<char>) {
    lemma_find_from(s, '.', 0);
}

/// The version a character sequence denotes:
/// `MAJOR.MINOR.PATCH[-PRERELEASE][+BUILD]`, or `None` where the sequence
/// is not a valid semantic version. The first `'+'` starts the build
/// metadata; before it, the first `'-'` starts the prerelease.
pub open spec fn spec_parse_version(s: Seq<char>) -> Option<SemVerModel> {
    let p = find_from(s, '+', 0);
    let head = s.subrange(0, p);
    let build = if p < s.len() {
        split_ids(s.subrange(p + 1, s.len() as int))
    } else {
        Seq::empty()
    };
    let q = find_from(head, '-', 0);
    let core = head.subrange(0, q);
    let pre = if q < head.len() {
        split_ids(head.subrange(q + 1, head.len() as int))
    } else {
        Seq::empty()
    };
    let c1 = find_from(core, '.', 0);
    if c1 >= core.len() {
        None
    } else {
        let major = core.subrange(0, c1);
        let rest = core.subrange(c1 + 1, core.len() as int);
        let c2 = find_from(rest, '.', 0);
        if c2 >= rest.len() {
            None
        } else {
            let minor = rest.subrange(0, c2);
            let patch = rest.subrange(c2 + 1, rest.len() as int);
            if valid_num(major) && valid_num(minor) && valid_num(patch) && find_from(patch, '.', 0)
                >= patch.len() && all_ids_valid(pre, true) && all_ids_valid(build, false) {
                Some(
                    SemVerModel {
                        major: digits_val(major),
                        minor: digits_val(minor),
                        patch: digits_val(patch),
                        prerelease: pre,
                        build: build,
                    },
                )
            } else {
                None
            }
        }
    }
}

/// A sequence of digits denotes a non-negative number.
pub proof fn lemma_digits_val_nonneg(s: Seq<char>)
    requires
        all_digits(s),
    ensures
        digits_val(s) >= 0,
    decreases s.len(),
{
    if s.len() > 0 {
        assert(all_digits(s.drop_last())) by {
            assert(forall|i: int| 0 <= i < s.len() - 1 ==> s.drop_last()[i] == s[i]);
        }
        lemma_digits_val_nonneg(s.drop_last());
    }
}

/// Extending a digit sequence never shrinks its value.
pub proof fn lemma_digits_val_prefix(s: Seq<char>, k: int)
    requires
        all_digits(s),
        0 <= k <= s.len(),
    ensures
        digits_val(s) >= digits_val(s.subrange(0, k)),
    decreases s.len() - k,
{
    if k == s.len() {
        assert(s.subrange(0, k) =~= s);
    } else {
        lemma_digits_val_prefix(s, k + 1);
        let t = s.subrange(0, k + 1);
        assert(t.drop_last() =~= s.subrange(0, k));
        assert(all_digits(s.subrange(0, k))) by {
            assert(forall|i: int| 0 <= i < k ==> s.subrange(0, k)[i] == s[i]);
        }
        lemma_digits_val_nonneg(s.subrange(0, k));
        assert(t.last() == s[k]);
        assert(spec_is_digit(s[k]));
        assert(digits_val(t) >= digits_val(s.subrange(0, k)));
    }
}

/// Parse a numeric version component.
pub fn parse_num(t: &str) -> (r: Option<u64>)
    ensures
        match r {
            Some(v) => valid_num(t@) && v as int == digits_val(t@),
            None => !valid_num(t@),
        },
{
    let l = t.unicode_len();
    if l == 0 {
        return None;
    }
    if l > 1 && t.get_char(0) == '0' {
        return None;
    }
    let mut acc: u64 = 0;
    let mut i: usize = 0;
    proof {
        assert(t@.subrange(0, 0).len() == 0);
    }
    loop
        invariant
            i <= l,
            l == t@.len(),
            l > 0,
            l > 1 ==> t@[0] != '0',
            all_digits(t@.subrange(0, i as int)),
            acc as int == digits_val(t@.subrange(0, i as int)),
        decreases l - i,
    {
        if i == l {
            proof {
                assert(t@.subrange(0, l as int) =~= t@);
            }
            return Some(acc);
        }
        let c = t.get_char(i);
        if !is_digit_char(c) {
            proof {
                assert(!all_digits(t@));
            }
            return None;
        }
        let d: u64 = (c as u32 - '0' as u32) as u64;
        proof {
            assert(t@.subrange(0, i + 1).drop_last() =~= t@.subrange(0, i as int));
            assert(t@.subrange(0, i + 1).last() == t@[i as int]);
            assert(all_digits(t@.subrange(0, i + 1))) by {
                assert(forall|j: int|
                    0 <= j < i + 1 ==> t@.subrange(0, i + 1)[j] == t@[j]);
            }
        }
        if acc > 1844674407370955161u64 || (acc == 1844674407370955161u64 && d > 5) {
            // the value would exceed `u64::MAX`
            proof {
                if all_digits(t@) {
                    lemma_digits_val_prefix(t@, i + 1);
                    assert(digits_val(t@.subrange(0, i + 1)) == acc * 10 + d);
                    assert(digits_val(t@) > u64::MAX);
                }
            }
            return None;
        }
        acc = acc * 10 + d;
        i = i + 1;
    }
}

/// Validate one identifier.
pub fn check_id(t: &str, numeric_rule: bool) -> (r: bool)
    ensures
        r == valid_id(t@, numeric_rule),
{
    let l = t.unicode_len();
    if l == 0 {
        return false;
    }
    let mut i: usize = 0;
    let mut digits = true;
    proof {
        assert(t@.subrange(0, 0).len() == 0);
    }
    while i < l
        invariant
            i <= l,
            l == t@.len(),
            digits == all_digits(t@.subrange(0, i as int)),
            forall|j: int| 0 <= j < i ==> spec_is_id_char(t@[j]),
        decreases l - i,
    {
        let c = t.get_char(i);
        if !is_id_char(c) {
            return false;
        }
        proof {
            assert(forall|j: int|
                0 <= j < i + 1 ==> t@.subrange(0, i + 1)[j] == t@[j]);
            assert(t@.subrange(0, i as int) =~= t@.subrange(0, i + 1).subrange(0, i as int));
        }
        if !is_digit_char(c) {
            digits = false;
            proof {
                assert(t@.subrange(0, i + 1)[i as int] == t@[i as int]);
                assert(!all_digits(t@.subrange(0, i + 1)));
            }
        } else {
            proof {
                if digits {
                    assert(all_digits(t@.subrange(0, i + 1))) by {
                        assert(forall|j: int|
                            0 <= j < i ==> t@.subrange(0, i + 1)[j] == t@.subrange(0, i as int)[j]);
                    }
                } else {
                    let w = choose|j: int|
                        0 <= j < i && !spec_is_digit(t@.subrange(0, i as int)[j]);
                    assert(t@.subrange(0, i + 1)[w] == t@.subrange(0, i as int)[w]);
                    assert(!all_digits(t@.subrange(0, i + 1)));
                }
            }
        }
        i = i + 1;
    }
    proof {
        assert(t@.subrange(0, l as int) =~= t@);
    }
    if numeric_rule && digits && l > 1 && t.get_char(0) == '0' {
        return false;
    }
    true
}

/// Parse the dot-separated identifiers of a prerelease (`numeric_rule`
/// true) or build (`numeric_rule` false) section.
pub fn parse_ids(t: &str, numeric_rule: bool) -> (r: Option<Vec<String>>)
    ensures
        match r {
            Some(ids) => ids.deep_view() == split_ids(t@) && all_ids_valid(split_ids(t@),
                numeric_rule),
            None => !all_ids_valid(split_ids(t@), numeric_rule),
        },
    decreases t@.len(),
{
    let l = t.unicode_len();
    let k = str_find_from(t, '.', 0, l);
    proof {
        lemma_find_from(t@, '.', 0);
    }
    if k == l {
        let head = t;
        if !check_id(head, numeric_rule) {
            assert(split_ids(t@)[0] == t@);
            return None;
        }
        let mut v: Vec<String> = Vec::new();
        v.push(head.to_owned());
        proof {
            assert(split_ids(t@) =~= seq![t@]);
            assert(v.deep_view() =~= seq![t@]);
        }
        Some(v)
    } else {
        let head = t.substring_char(0, k);
        let ghost spec_tail = t@.subrange(k + 1, t@.len() as int);
        proof {
            assert(split_ids(t@) =~= seq![t@.subrange(0, k as int)] + split_ids(spec_tail));
            assert(split_ids(t@)[0] == t@.subrange(0, k as int));
        }
        if !check_id(head, numeric_rule) {
            return None;
        }
        let rest = t.substring_char(k + 1, l);
        match parse_ids(rest, numeric_rule) {
            None => {
                proof {
                    let w = choose|j: int|
                        !(0 <= j < split_ids(rest@).len() ==> valid_id(
                            #[trigger] split_ids(rest@)[j], numeric_rule));
                    assert(split_ids(t@)[w + 1] == split_ids(rest@)[w]);
                }
                None
            },
            Some(mut ids) => {
                ids.insert(0, head.to_owned());
                proof {
                    assert(ids.deep_view() =~= split_ids(t@));
                    assert forall|j: int| 0 <= j < split_ids(t@).len() implies valid_id(
                        #[trigger] split_ids(t@)[j], numeric_rule) by {
                        if j >= 1 {
                            assert(split_ids(t@)[j] == split_ids(rest@)[j - 1]);
                        }
                    }
                }
                Some(ids)
            },
        }
    }
}

/// Parse a whole semantic version; `None` where the text is not one.
pub fn parse_version(s: &str) -> (r: Option<SemanticVersion>)
    ensures
        match r {
            Some(v) => spec_parse_version(s@) == Some(v@),
            None => spec_parse_version(s@) is None,
        },
{
    let l = s.unicode_len();
    let p = str_find_from(s, '+', 0, l);
    proof {
        lemma_find_from(s@, '+', 0);
    }
    let head = s.substring_char(0, p);
    let hl = p;
    proof {
        lemma_find_from(head@, '-', 0);
    }
    let q = str_find_from(head, '-', 0, hl);
    let core = head.substring_char(0, q);
    let cl = q;
    let c1 = str_find_from(core, '.', 0, cl);
    proof {
        lemma_find_from(core@, '.', 0);
    }
    if c1 >= cl {
        return None;
    }
    let major_s = core.substring_char(0, c1);
    let rest = core.substring_char(c1 + 1, cl);
    let rl = cl - (c1 + 1);
    let c2 = str_find_from(rest, '.', 0, rl);
    proof {
        lemma_find_from(rest@, '.', 0);
    }
    if c2 >= rl {
        return None;
    }
    let minor_s = rest.substring_char(0, c2);
    let patch_s = rest.substring_char(c2 + 1, rl);
    let pl = rl - (c2 + 1);
    let c3 = str_find_from(patch_s, '.', 0, pl);
    if c3 < pl {
        return None;
    }
    let major = match parse_num(major_s) {
        Some(v) => v,
        None => {
            return None;
        },
    };
    let minor = match parse_num(minor_s) {
        Some(v) => v,
        None => {
            return None;
        },
    };
    let patch = match parse_num(patch_s) {
        Some(v) => v,
        None => {
            return None;
        },
    };
    let prerelease: Vec<String> = if q < hl {
        match parse_ids(head.substring_char(q + 1, hl), true) {
            Some(ids) => ids,
            None => {
                return None;
            },
        }
    } else {
        Vec::new()
    };
    let build: Vec<String> = if p < l {
        match parse_ids(s.substring_char(p + 1, l), false) {
            Some(ids) => ids,
            None => {
                return None;
            },
        }
    } else {
        Vec::new()
    };
    let v = SemanticVersion { major, minor, patch, prerelease, build };
    proof {
        if q >= hl {
            assert(v.prerelease.deep_view() =~= Seq::<Seq<char>>::empty());
        }
        if p >= l {
            assert(v.build.deep_view() =~= Seq::<Seq<char>>::empty());
        }
        assert(spec_parse_version(s@) == Some(v@));
    }
    Some(v)
}

/// Three-way comparison of two identifiers under semantic-version
/// precedence: numeric identifiers sort before alphanumeric ones and among
/// themselves by length, then lexicographically (numeric order, absent
/// leading zeros); alphanumeric identifiers compare lexicographically.
pub open spec fn id_cmp(a: Seq<char>, b: Seq<char>) -> int {
    if all_digits(a) && all_digits(b) {
        if a.len() < b.len() {
            -1
        } else if a.len() > b.len() {
            1
        } else {
            lex_cmp(a, b)
        }
    } else if all_digits(a) {
        -1
    } else if all_digits(b) {
        1
    } else {
        lex_cmp(a, b)
    }
}

/// Three-way comparison of identifier lists, identifier by identifier; a
/// strict prefix sorts first.
pub open spec fn ids_cmp(a: Seq<Seq<char>>, b: Seq<Seq<char>>) -> int
    decreases a.len(),
{
    if a.len() == 0 && b.len() == 0 {
        0
    } else if a.len() == 0 {
        -1
    } else if b.len() == 0 {
        1
    } else if id_cmp(a[0], b[0]) != 0 {
        id_cmp(a[0], b[0])
    } else {
        ids_cmp(a.skip(1), b.skip(1))
    }
}

/// Three-way comparison of prerelease lists: an empty list (a release)
/// sorts after any non-empty one.
pub open spec fn pre_cmp(a: Seq<Seq<char>>, b: Seq<Seq<char>>) -> int {
    if a.len() == 0 && b.len() == 0 {
        0
    } else if a.len() == 0 {
        1
    } else if b.len() == 0 {
        -1
    } else {
        ids_cmp(a, b)
    }
}

/// Semantic-version precedence: major, minor, patch, then prerelease.
/// Build metadata is ignored, so distinct values may compare equal here.
pub open spec fn ver_cmp(a: SemVerModel, b: SemVerModel) -> int {
    if a.major != b.major {
        if a.major < b.major {
            -1
        } else {
            1
        }
    } else if a.minor != b.minor {
        if a.minor < b.minor {
            -1
        } else {
            1
        }
    } else if a.patch != b.patch {
        if a.patch < b.patch {
            -1
        } else {
            1
        }
    } else {
        pre_cmp(a.prerelease, b.prerelease)
    }
}

/// Precedence refined by the build identifiers as a tie break: a total
/// order whose equality is equality of the whole value.
pub open spec fn ver_cmp_full(a: SemVerModel, b: SemVerModel) -> int {
    if ver_cmp(a, b) != 0 {
        ver_cmp(a, b)
    } else {
        ids_cmp(a.build, b.build)
    }
}

/// Non-decreasing under precedence.
pub open spec fn ver_le(a: SemVerModel, b: SemVerModel) -> bool {
    ver_cmp(a, b) <= 0
}

pub proof fn lemma_id_cmp_range(a: Seq<char>, b: Seq<char>)
    ensures
        -1 <= id_cmp(a, b) <= 1,
{
    lemma_lex_cmp_range(a, b);
}

pub proof fn lemma_id_cmp_antisym(a: Seq<char>, b: Seq<char>)
    ensures
        id_cmp(a, b) == -id_cmp(b, a),
{
    lemma_lex_cmp_antisym(a, b);
}

pub proof fn lemma_id_cmp_eq(a: Seq<char>, b: Seq<char>)
    ensures
        (id_cmp(a, b) == 0) <==> (a == b),
{
    lemma_lex_cmp_eq(a, b);
}

pub proof fn lemma_id_cmp_trans(a: Seq<char>, b: Seq<char>, c: Seq<char>)
    requires
        id_cmp(a, b) <= 0,
        id_cmp(b, c) <= 0,
    ensures
        id_cmp(a, c) <= 0,
        id_cmp(a, b) < 0 || id_cmp(b, c) < 0 ==> id_cmp(a, c) < 0,
{
    lemma_id_cmp_eq(a, b);
    lemma_id_cmp_eq(b, c);
    lemma_id_cmp_eq(a, c);
    if id_cmp(a, b) == 0 || id_cmp(b, c) == 0 {
    } else if all_digits(a) && all_digits(b) && all_digits(c) {
        if a.len() == b.len() && b.len() == c.len() {
            lemma_lex_cmp_trans(a, b, c);
        }
    } else if !all_digits(a) && !all_digits(b) && !all_digits(c) {
        lemma_lex_cmp_trans(a, b, c);
    }
}

pub proof fn lemma_ids_cmp_range(a: Seq<Seq<char>>, b: Seq<Seq<char>>)
    ensures
        -1 <= ids_cmp(a, b) <= 1,
    decreases a.len(),
{
    if a.len() > 0 && b.len() > 0 {
        lemma_id_cmp_range(a[0], b[0]);
        lemma_ids_cmp_range(a.skip(1), b.skip(1));
    }
}

pub proof fn lemma_ids_cmp_antisym(a: Seq<Seq<char>>, b: Seq<Seq<char>>)
    ensures
        ids_cmp(a, b) == -ids_cmp(b, a),
    decreases a.len(),
{
    if a.len() > 0 && b.len() > 0 {
        lemma_id_cmp_antisym(a[0], b[0]);
        lemma_ids_cmp_antisym(a.skip(1), b.skip(1));
    }
}

pub proof fn lemma_ids_cmp_eq(a: Seq<Seq<char>>, b: Seq<Seq<char>>)
    ensures
        (ids_cmp(a, b) == 0) <==> (a == b),
    decreases a.len(),
{
    if a.len() > 0 && b.len() > 0 {
        lemma_id_cmp_eq(a[0], b[0]);
        lemma_ids_cmp_eq(a.skip(1), b.skip(1));
        if ids_cmp(a, b) == 0 {
            assert(a.skip(1) == b.skip(1));
            assert forall|i: int| 0 <= i < a.len() implies a[i] == b[i] by {
                if i >= 1 {
                    assert(a.skip(1)[i - 1] == a[i]);
                    assert(b.skip(1)[i - 1] == b[i]);
                }
            }
            assert(a =~= b);
        }
        if a == b {
            assert(a.skip(1) =~= b.skip(1));
        }
    } else {
        if a.len() == 0 && b.len() == 0 {
            assert(a =~= b);
        }
    }
}

pub proof fn lemma_ids_cmp_trans(a: Seq<Seq<char>>, b: Seq<Seq<char>>, c: Seq<Seq<char>>)
    requires
        ids_cmp(a, b) <= 0,
        ids_cmp(b, c) <= 0,
    ensures
        ids_cmp(a, c) <= 0,
        ids_cmp(a, b) < 0 || ids_cmp(b, c) < 0 ==> ids_cmp(a, c) < 0,
    decreases a.len() + b.len() + c.len(),
{
    lemma_ids_cmp_range(a, b);
    lemma_ids_cmp_range(b, c);
    lemma_ids_cmp_range(a, c);
    if ids_cmp(a, b) == 0 {
        lemma_ids_cmp_eq(a, b);
    } else if ids_cmp(b, c) == 0 {
        lemma_ids_cmp_eq(b, c);
    } else {
        if a.len() == 0 {
        } else {
            assert(b.len() > 0);
            assert(c.len() > 0);
            lemma_id_cmp_eq(a[0], b[0]);
            lemma_id_cmp_eq(b[0], c[0]);
            if id_cmp(a[0], b[0]) == 0 && id_cmp(b[0], c[0]) == 0 {
                lemma_ids_cmp_trans(a.skip(1), b.skip(1), c.skip(1));
            } else {
                lemma_id_cmp_trans(a[0], b[0], c[0]);
                lemma_id_cmp_eq(a[0], c[0]);
            }
        }
    }
}

pub proof fn lemma_ver_cmp_range(a: SemVerModel, b: SemVerModel)
    ensures
        -1 <= ver_cmp(a, b) <= 1,
        -1 <= ver_cmp_full(a, b) <= 1,
{
    lemma_ids_cmp_range(a.prerelease, b.prerelease);
    lemma_ids_cmp_range(a.build, b.build);
}

pub proof fn lemma_ver_cmp_antisym(a: SemVerModel, b: SemVerModel)
    ensures
        ver_cmp(a, b) == -ver_cmp(b, a),
        ver_cmp_full(a, b) == -ver_cmp_full(b, a),
{
    lemma_ids_cmp_antisym(a.prerelease, b.prerelease);
    lemma_ids_cmp_antisym(a.build, b.build);
}

/// The full comparison is zero exactly on equal models.
pub proof fn lemma_ver_cmp_full_eq(a: SemVerModel, b: SemVerModel)
    ensures
        (ver_cmp_full(a, b) == 0) <==> (a == b),
{
    lemma_ids_cmp_eq(a.prerelease, b.prerelease);
    lemma_ids_cmp_eq(a.build, b.build);
    if ver_cmp_full(a, b) == 0 {
        assert(a =~= b);
    }
}

pub proof fn lemma_ver_cmp_trans(a: SemVerModel, b: SemVerModel, c: SemVerModel)
    requires
        ver_cmp(a, b) <= 0,
        ver_cmp(b, c) <= 0,
    ensures
        ver_cmp(a, c) <= 0,
        ver_cmp(a, b) < 0 || ver_cmp(b, c) < 0 ==> ver_cmp(a, c) < 0,
{
    lemma_ver_cmp_range(a, b);
    lemma_ver_cmp_range(b, c);
    lemma_ver_cmp_range(a, c);
    if ver_cmp(a, b) == 0 || ver_cmp(b, c) == 0 {
        if a.major == b.major && a.minor == b.minor && a.patch == b.patch {
            lemma_ids_cmp_eq(a.prerelease, b.prerelease);
        }
        if b.major == c.major && b.minor == c.minor && b.patch == c.patch {
            lemma_ids_cmp_eq(b.prerelease, c.prerelease);
        }
    } else {
        if a.major == c.major && a.minor == c.minor && a.patch == c.patch {
            // the numeric components agree throughout; compare prereleases
            if a.prerelease.len() > 0 && b.prerelease.len() > 0 && c.prerelease.len() > 0 {
                lemma_ids_cmp_trans(a.prerelease, b.prerelease, c.prerelease);
            }
        }
    }
}

/// Executable check that every character of `t` is a digit.
pub fn str_all_digits(t: &str) -> (r: bool)
    ensures
        r == all_digits(t@),
{
    let l = t.unicode_len();
    let mut i: usize = 0;
    while i < l
        invariant
            i <= l,
            l == t@.len(),
            forall|j: int| 0 <= j < i ==> spec_is_digit(t@[j]),
        decreases l - i,
    {
        if !is_digit_char(t.get_char(i)) {
            return false;
        }
        i = i + 1;
    }
    true
}

/// Executable three-way comparison of two identifiers.
pub fn id_cmp_exec(a: &str, b: &str) -> (r: i8)
    ensures
        r as int == id_cmp(a@, b@),
{
    let da = str_all_digits(a);
    let db = str_all_digits(b);
    if da && db {
        let la = a.unicode_len();
        let lb = b.unicode_len();
        if la < lb {
            -1
        } else if la > lb {
            1
        } else {
            crate::chars::str_lex_cmp(a, b)
        }
    } else if da {
        -1
    } else if db {
        1
    } else {
        crate::chars::str_lex_cmp(a, b)
    }
}

/// Executable three-way comparison of two identifier lists.
pub fn ids_cmp_exec(a: &Vec<String>, b: &Vec<String>) -> (r: i8)
    ensures
        r as int == ids_cmp(a.deep_view(), b.deep_view()),
{
    let mut i: usize = 0;
    proof {
        assert(a.deep_view().skip(0) =~= a.deep_view());
        assert(b.deep_view().skip(0) =~= b.deep_view());
    }
    loop
        invariant
            i <= a.len(),
            i <= b.len(),
            a.deep_view().len() == a.len(),
            b.deep_view().len() == b.len(),
            ids_cmp(a.deep_view(), b.deep_view()) == ids_cmp(
                a.deep_view().skip(i as int),
                b.deep_view().skip(i as int),
            ),
        decreases a.len() - i,
    {
        let ghost av = a.deep_view().skip(i as int);
        let ghost bv = b.deep_view().skip(i as int);
        if i >= a.len() && i >= b.len() {
            assert(av.len() == 0 && bv.len() == 0);
            return 0;
        }
        if i >= a.len() {
            assert(av.len() == 0 && bv.len() > 0);
            return -1;
        }
        if i >= b.len() {
            return 1;
        }
        let c = id_cmp_exec(a[i].as_str(), b[i].as_str());
        proof {
            assert(av[0] == a.deep_view()[i as int]);
            assert(bv[0] == b.deep_view()[i as int]);
            assert(a.deep_view()[i as int] == a@[i as int]@);
            assert(b.deep_view()[i as int] == b@[i as int]@);
        }
        if c != 0 {
            return c;
        }
        proof {
            assert(av.skip(1) =~= a.deep_view().skip(i + 1));
            assert(bv.skip(1) =~= b.deep_view().skip(i + 1));
        }
        i = i + 1;
    }
}

/// Executable precedence comparison of two versions (build ignored).
pub fn version_cmp(a: &SemanticVersion, b: &SemanticVersion) -> (r: i8)
    ensures
        r as int == ver_cmp(a@, b@),
{
    if a.major != b.major {
        if a.major < b.major {
            return -1;
        } else {
            return 1;
        }
    }
    if a.minor != b.minor {
        if a.minor < b.minor {
            return -1;
        } else {
            return 1;
        }
    }
    if a.patch != b.patch {
        if a.patch < b.patch {
            return -1;
        } else {
            return 1;
        }
    }
    let pa = a.prerelease.len();
    let pb = b.prerelease.len();
    if pa == 0 && pb == 0 {
        0
    } else if pa == 0 {
        1
    } else if pb == 0 {
        -1
    } else {
        ids_cmp_exec(&a.prerelease, &b.prerelease)
    }
}

/// Executable total comparison of two versions: precedence, then build
/// identifiers as a tie break; `0` exactly on equal values.
pub fn version_cmp_full(a: &SemanticVersion, b: &SemanticVersion) -> (r: i8)
    ensures
        r as int == ver_cmp_full(a@, b@),
{
    let c = version_cmp(a, b);
    if c != 0 {
        c
    } else {
        ids_cmp_exec(&a.build, &b.build)
    }
}

/// Transitivity of the full (tie-broken) comparison.
pub proof fn lemma_ver_cmp_full_trans(a: SemVerModel, b: SemVerModel, c: SemVerModel)
    requires
        ver_cmp_full(a, b) <= 0,
        ver_cmp_full(b, c) <= 0,
    ensures
        ver_cmp_full(a, c) <= 0,
        ver_cmp_full(a, b) < 0 || ver_cmp_full(b, c) < 0 ==> ver_cmp_full(a, c) < 0,
{
    lemma_ver_cmp_range(a, b);
    lemma_ver_cmp_range(b, c);
    lemma_ver_cmp_range(a, c);
    if ver_cmp(a, b) == 0 && ver_cmp(b, c) == 0 {
        lemma_ver_cmp_trans(a, b, c);
        lemma_ids_cmp_eq(a.prerelease, b.prerelease);
        lemma_ids_cmp_eq(b.prerelease, c.prerelease);
        lemma_ids_cmp_trans(a.build, b.build, c.build);
    } else if ver_cmp(a, b) == 0 {
        lemma_ids_cmp_eq(a.prerelease, b.prerelease);
        assert(ver_cmp(a, c) == ver_cmp(b, c));
    } else if ver_cmp(b, c) == 0 {
        lemma_ids_cmp_eq(b.prerelease, c.prerelease);
        assert(ver_cmp(a, c) == ver_cmp(a, b));
    } else {
        lemma_ver_cmp_trans(a, b, c);
    }
}

} // verus!
