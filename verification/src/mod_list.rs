//! The manifest document: a JSON object `{ "mods": [ { "name": ..,
//! "enabled": .. }, .. ] }` read into a list of entries and an enabled map.
//!
//! The grammar is stated as a recursive specification over the character
//! sequence and the executable parser is proved to return exactly what the
//! specification denotes. Strings support the escapes `\" \\ \/ \b \f \n
//! \r \t`; a `\u` escape is not accepted and makes the document malformed.
//! Each list element must hold exactly the members `name` (a string) and
//! `enabled` (`true` or `false`), in either order; whitespace may stand
//! between any two tokens. Duplicate names resolve last-write-wins in the
//! enabled map.

use vstd::prelude::*;
use vstd::string::StrSliceExecFns;
use vstd::string::StringExecFns;
use crate::chars::str_eq;

verus! {

/// One manifest entry: a package name and whether it is enabled.
pub struct ModListEntry {
    pub name: String,
    pub enabled: bool,
}

impl View for ModListEntry {
    type V = (Seq<char>, bool);

    open spec fn view(&self) -> (Seq<char>, bool) {
        (self.name@, self.enabled)
    }
}

/// The manifest document body: its entries in document order.
pub struct ModList {
    pub mods: Vec<ModListEntry>,
}

/// The models of a sequence of entries.
pub open spec fn entry_models(v: Seq<ModListEntry>) -> Seq<(Seq<char>, bool)> {
    v.map_values(|e: ModListEntry| e@)
}

impl View for ModList {
    type V = Seq<(Seq<char>, bool)>;

    open spec fn view(&self) -> Seq<(Seq<char>, bool)> {
        entry_models(self.mods@)
    }
}

/// The manifest text does not parse as a document of the expected shape.
#[derive(Debug)]
pub struct ManifestParseError;

/// JSON whitespace.
pub open spec fn is_ws(c: char) -> bool {
    c == ' ' || c == '\t' || c == '\n' || c == '\r'
}

/// The index of the first non-whitespace character at or after `i`.
pub open spec fn skip_ws(s: Seq<char>, i: int) -> int
    decreases s.len() - i when 0 <= i <= s.len()
{
    if i < s.len() && is_ws(s[i]) {
        skip_ws(s, i + 1)
    } else {
        i
    }
}

pub proof fn lemma_skip_ws(s: Seq<char>, i: int)
    requires
        0 <= i <= s.len(),
    ensures
        i <= skip_ws(s, i) <= s.len(),
    decreases s.len() - i,
{
    if i < s.len() && is_ws(s[i]) {
        lemma_skip_ws(s, i + 1);
    }
}

/// What a backslash escape denotes, or `None` where it is not accepted.
pub open spec fn escape_char(c: char) -> Option<char> {
    if c == '"' {
        Some('"')
    } else if c == '\\' {
        Some('\\')
    } else if c == '/' {
        Some('/')
    } else if c == 'b' {
        Some('\u{0008}')
    } else if c == 'f' {
        Some('\u{000C}')
    } else if c == 'n' {
        Some('\n')
    } else if c == 'r' {
        Some('\r')
    } else if c == 't' {
        Some('\t')
    } else {
        None
    }
}

/// The decoded contents of a string literal starting right after its
/// opening quote at `i`; returns the contents and the index right after
/// the closing quote.
pub open spec fn parse_str_body(s: Seq<char>, i: int) -> Option<(Seq<char>, int)>
    decreases s.len() - i when 0 <= i <= s.len()
{
    if i >= s.len() {
        None
    } else if s[i] == '"' {
        Some((Seq::empty(), i + 1))
    } else if s[i] == '\\' {
        if i + 1 >= s.len() {
            None
        } else {
            match escape_char(s[i + 1]) {
                Some(d) => match parse_str_body(s, i + 2) {
                    Some((t, j)) => Some((seq![d] + t, j)),
                    None => None,
                },
                None => None,
            }
        }
    } else if (s[i] as u32) < 32 {
        None
    } else {
        match parse_str_body(s, i + 1) {
            Some((t, j)) => Some((seq![s[i]] + t, j)),
            None => None,
        }
    }
}

pub proof fn lemma_parse_str_body(s: Seq<char>, i: int)
    requires
        0 <= i <= s.len(),
    ensures
        match parse_str_body(s, i) {
            Some((t, j)) => i < j <= s.len(),
            None => true,
        },
    decreases s.len() - i,
{
    if i < s.len() && s[i] != '"' {
        if s[i] == '\\' {
            if i + 1 < s.len() {
                lemma_parse_str_body(s, i + 2);
            }
        } else {
            lemma_parse_str_body(s, i + 1);
        }
    }
}

/// A string literal at `i`: a quote, contents, a closing quote.
pub open spec fn parse_string(s: Seq<char>, i: int) -> Option<(Seq<char>, int)> {
    if 0 <= i < s.len() && s[i] == '"' {
        parse_str_body(s, i + 1)
    } else {
        None
    }
}

pub proof fn lemma_parse_string(s: Seq<char>, i: int)
    requires
        0 <= i <= s.len(),
    ensures
        match parse_string(s, i) {
            Some((t, j)) => i < j <= s.len(),
            None => true,
        },
{
    if i < s.len() && s[i] == '"' {
        lemma_parse_str_body(s, i + 1);
    }
}

/// A `true` or `false` literal at `i`.
pub open spec fn parse_bool(s: Seq<char>, i: int) -> Option<(bool, int)> {
    if 0 <= i && i + 4 <= s.len() && s[i] == 't' && s[i + 1] == 'r' && s[i + 2] == 'u' && s[i + 3]
        == 'e' {
        Some((true, i + 4))
    } else if 0 <= i && i + 5 <= s.len() && s[i] == 'f' && s[i + 1] == 'a' && s[i + 2] == 'l' && s[i
        + 3] == 's' && s[i + 4] == 'e' {
        Some((false, i + 5))
    } else {
        None
    }
}

/// A member key at `i`: a string literal, whitespace, `':'`, whitespace;
/// returns the key and the index of the member's value.
pub open spec fn parse_key(s: Seq<char>, i: int) -> Option<(Seq<char>, int)> {
    match parse_string(s, i) {
        Some((k, j)) => {
            let j2 = skip_ws(s, j);
            if j2 < s.len() && s[j2] == ':' {
                Some((k, skip_ws(s, j2 + 1)))
            } else {
                None
            }
        },
        None => None,
    }
}

pub proof fn lemma_parse_key(s: Seq<char>, i: int)
    requires
        0 <= i <= s.len(),
    ensures
        match parse_key(s, i) {
            Some((k, j)) => i < j <= s.len(),
            None => true,
        },
{
    lemma_parse_string(s, i);
    match parse_string(s, i) {
        Some((k, j)) => {
            lemma_skip_ws(s, j);
            let j2 = skip_ws(s, j);
            if j2 < s.len() && s[j2] == ':' {
                lemma_skip_ws(s, j2 + 1);
            }
        },
        None => {},
    }
}

/// One list element at `i` (its opening brace at `i`): an object holding
/// exactly a `name` string and an `enabled` boolean, in either order.
pub open spec fn parse_entry(s: Seq<char>, i: int) -> Option<((Seq<char>, bool), int)> {
    if !(0 <= i < s.len() && s[i] == '{') {
        None
    } else {
        match parse_key(s, skip_ws(s, i + 1)) {
            None => None,
            Some((key1, j1)) => {
                if key1 == "name"@ {
                    match parse_string(s, j1) {
                        None => None,
                        Some((name, j2)) => {
                            let j3 = skip_ws(s, j2);
                            if !(j3 < s.len() && s[j3] == ',') {
                                None
                            } else {
                                match parse_key(s, skip_ws(s, j3 + 1)) {
                                    None => None,
                                    Some((key2, j4)) => {
                                        if key2 != "enabled"@ {
                                            None
                                        } else {
                                            match parse_bool(s, j4) {
                                                None => None,
                                                Some((b, j5)) => {
                                                    let j6 = skip_ws(s, j5);
                                                    if j6 < s.len() && s[j6] == '}' {
                                                        Some(((name, b), j6 + 1))
                                                    } else {
                                                        None
                                                    }
                                                },
                                            }
                                        }
                                    },
                                }
                            }
                        },
                    }
                } else if key1 == "enabled"@ {
                    match parse_bool(s, j1) {
                        None => None,
                        Some((b, j2)) => {
                            let j3 = skip_ws(s, j2);
                            if !(j3 < s.len() && s[j3] == ',') {
                                None
                            } else {
                                match parse_key(s, skip_ws(s, j3 + 1)) {
                                    None => None,
                                    Some((key2, j4)) => {
                                        if key2 != "name"@ {
                                            None
                                        } else {
                                            match parse_string(s, j4) {
                                                None => None,
                                                Some((name, j5)) => {
                                                    let j6 = skip_ws(s, j5);
                                                    if j6 < s.len() && s[j6] == '}' {
                                                        Some(((name, b), j6 + 1))
                                                    } else {
                                                        None
                                                    }
                                                },
                                            }
                                        }
                                    },
                                }
                            }
                        },
                    }
                } else {
                    None
                }
            },
        }
    }
}

pub proof fn lemma_parse_entry(s: Seq<char>, i: int)
    requires
        0 <= i <= s.len(),
    ensures
        match parse_entry(s, i) {
            Some((e, j)) => i < j <= s.len(),
            None => true,
        },
{
    if 0 <= i < s.len() && s[i] == '{' {
        lemma_skip_ws(s, i + 1);
        lemma_parse_key(s, skip_ws(s, i + 1));
        match parse_key(s, skip_ws(s, i + 1)) {
            None => {},
            Some((key1, j1)) => {
                lemma_parse_string(s, j1);
                match parse_string(s, j1) {
                    None => {},
                    Some((name, j2)) => {
                        lemma_skip_ws(s, j2);
                        let j3 = skip_ws(s, j2);
                        if j3 < s.len() && s[j3] == ',' {
                            lemma_skip_ws(s, j3 + 1);
                            lemma_parse_key(s, skip_ws(s, j3 + 1));
                            match parse_key(s, skip_ws(s, j3 + 1)) {
                                None => {},
                                Some((key2, j4)) => {
                                    match parse_bool(s, j4) {
                                        None => {},
                                        Some((b, j5)) => {
                                            lemma_skip_ws(s, j5);
                                        },
                                    }
                                },
                            }
                        }
                    },
                }
                match parse_bool(s, j1) {
                    None => {},
                    Some((b, j2)) => {
                        lemma_skip_ws(s, j2);
                        let j3 = skip_ws(s, j2);
                        if j3 < s.len() && s[j3] == ',' {
                            lemma_skip_ws(s, j3 + 1);
                            lemma_parse_key(s, skip_ws(s, j3 + 1));
                            match parse_key(s, skip_ws(s, j3 + 1)) {
                                None => {},
                                Some((key2, j4)) => {
                                    lemma_parse_string(s, j4);
                                    match parse_string(s, j4) {
                                        None => {},
                                        Some((name, j5)) => {
                                            lemma_skip_ws(s, j5);
                                        },
                                    }
                                },
                            }
                        }
                    },
                }
            },
        }
    }
}

/// The elements after the first one: either `']'` closing the list, or a
/// `','` and a further element, repeatedly.
pub open spec fn parse_entries_rest(s: Seq<char>, i: int) -> Option<(Seq<(Seq<char>, bool)>, int)>
    decreases s.len() - i when 0 <= i <= s.len()
    via parse_entries_rest_dec
{
    let j = skip_ws(s, i);
    if j < s.len() && s[j] == ']' {
        Some((Seq::empty(), j + 1))
    } else if j < s.len() && s[j] == ',' {
        let j1 = skip_ws(s, j + 1);
        match parse_entry(s, j1) {
            None => None,
            Some((e, j2)) => match parse_entries_rest(s, j2) {
                None => None,
                Some((rest, j3)) => Some((seq![e] + rest, j3)),
            },
        }
    } else {
        None
    }
}

#[via_fn]
proof fn parse_entries_rest_dec(s: Seq<char>, i: int) {
    lemma_skip_ws(s, i);
    let j = skip_ws(s, i);
    if j < s.len() && s[j] == ',' {
        lemma_skip_ws(s, j + 1);
        lemma_parse_entry(s, skip_ws(s, j + 1));
    }
}

pub proof fn lemma_parse_entries_rest(s: Seq<char>, i: int)
    requires
        0 <= i <= s.len(),
    ensures
        match parse_entries_rest(s, i) {
            Some((es, j)) => i < j <= s.len(),
            None => true,
        },
    decreases s.len() - i,
{
    lemma_skip_ws(s, i);
    let j = skip_ws(s, i);
    if j < s.len() && s[j] == ',' {
        lemma_skip_ws(s, j + 1);
        let j1 = skip_ws(s, j + 1);
        lemma_parse_entry(s, j1);
        match parse_entry(s, j1) {
            None => {},
            Some((e, j2)) => {
                lemma_parse_entries_rest(s, j2);
            },
        }
    }
}

/// The whole list body after its `'['`: empty, or a first element and
/// then `parse_entries_rest`.
pub open spec fn parse_entries(s: Seq<char>, i: int) -> Option<(Seq<(Seq<char>, bool)>, int)>
    recommends
        0 <= i <= s.len(),
{
    let j = skip_ws(s, i);
    if j < s.len() && s[j] == ']' {
        Some((Seq::empty(), j + 1))
    } else {
        match parse_entry(s, j) {
            None => None,
            Some((e, j1)) => match parse_entries_rest(s, j1) {
                None => None,
                Some((rest, j2)) => Some((seq![e] + rest, j2)),
            },
        }
    }
}

/// The entries of a manifest document, in document order, or `None` where
/// the text is not a well-formed manifest.
pub open spec fn spec_parse_mod_list(s: Seq<char>) -> Option<Seq<(Seq<char>, bool)>> {
    let i0 = skip_ws(s, 0);
    if !(i0 < s.len() && s[i0] == '{') {
        None
    } else {
        match parse_key(s, skip_ws(s, i0 + 1)) {
            None => None,
            Some((key, i1)) => {
                if key != "mods"@ {
                    None
                } else if !(i1 < s.len() && s[i1] == '[') {
                    None
                } else {
                    match parse_entries(s, i1 + 1) {
                        None => None,
                        Some((entries, i2)) => {
                            let i3 = skip_ws(s, i2);
                            if i3 < s.len() && s[i3] == '}' && skip_ws(s, i3 + 1) == s.len() {
                                Some(entries)
                            } else {
                                None
                            }
                        },
                    }
                }
            },
        }
    }
}

/// Executable whitespace check.
fn is_ws_char(c: char) -> (r: bool)
    ensures
        r == is_ws(c),
{
    c == ' ' || c == '\t' || c == '\n' || c == '\r'
}

/// Executable `skip_ws`.
fn exec_skip_ws(s: &str, i: usize, l: usize) -> (r: usize)
    requires
        l == s@.len(),
        i <= l,
    ensures
        r as int == skip_ws(s@, i as int),
        i <= r <= l,
{
    let mut j: usize = i;
    loop
        invariant
            i <= j <= l,
            l == s@.len(),
            skip_ws(s@, i as int) == skip_ws(s@, j as int),
        decreases l - j,
    {
        if j < l && is_ws_char(s.get_char(j)) {
            j = j + 1;
        } else {
            return j;
        }
    }
}

/// Append the character an escape denotes; `false` leaves the string
/// unchanged and says the escape is not accepted.
fn push_escape(acc: &mut String, d: char) -> (ok: bool)
    ensures
        match escape_char(d) {
            Some(e) => ok && final(acc)@ == old(acc)@ + seq![e],
            None => !ok && final(acc)@ == old(acc)@,
        },
{
    if d == '"' {
        acc.append("\"");
        proof {
            reveal_strlit("\"");
            assert("\""@ =~= seq!['"']);
        }
        true
    } else if d == '\\' {
        acc.append("\\");
        proof {
            reveal_strlit("\\");
            assert("\\"@ =~= seq!['\\']);
        }
        true
    } else if d == '/' {
        acc.append("/");
        proof {
            reveal_strlit("/");
            assert("/"@ =~= seq!['/']);
        }
        true
    } else if d == 'b' {
        acc.append("\u{0008}");
        proof {
            reveal_strlit("\u{0008}");
            assert("\u{0008}"@ =~= seq!['\u{0008}']);
        }
        true
    } else if d == 'f' {
        acc.append("\u{000C}");
        proof {
            reveal_strlit("\u{000C}");
            assert("\u{000C}"@ =~= seq!['\u{000C}']);
        }
        true
    } else if d == 'n' {
        acc.append("\n");
        proof {
            reveal_strlit("\n");
            assert("\n"@ =~= seq!['\n']);
        }
        true
    } else if d == 'r' {
        acc.append("\r");
        proof {
            reveal_strlit("\r");
            assert("\r"@ =~= seq!['\r']);
        }
        true
    } else if d == 't' {
        acc.append("\t");
        proof {
            reveal_strlit("\t");
            assert("\t"@ =~= seq!['\t']);
        }
        true
    } else {
        false
    }
}

/// Executable string literal parser.
fn exec_parse_string(s: &str, i: usize, l: usize) -> (r: Option<(String, usize)>)
    requires
        l == s@.len(),
        i <= l,
    ensures
        match r {
            Some(p) => parse_string(s@, i as int) == Some((p.0@, p.1 as int)) && i < p.1 <= l,
            None => parse_string(s@, i as int) is None,
        },
{
    if !(i < l && s.get_char(i) == '"') {
        return None;
    }
    let mut acc = String::new();
    let mut k: usize = i + 1;
    loop
        invariant
            i + 1 <= k <= l,
            l == s@.len(),
            s@[i as int] == '"',
            match parse_str_body(s@, k as int) {
                Some(p) => parse_str_body(s@, i as int + 1) == Some((acc@ + p.0, p.1)),
                None => parse_str_body(s@, i as int + 1) is None,
            },
        decreases l - k,
    {
        if k >= l {
            return None;
        }
        let c = s.get_char(k);
        if c == '"' {
            proof {
                assert(acc@ + Seq::<char>::empty() =~= acc@);
                lemma_parse_str_body(s@, i as int + 1);
            }
            return Some((acc, k + 1));
        }
        if c == '\\' {
            if k + 1 >= l {
                return None;
            }
            let d = s.get_char(k + 1);
            let ghost old_acc = acc@;
            let ok = push_escape(&mut acc, d);
            if !ok {
                return None;
            }
            proof {
                match escape_char(d) {
                    Some(e) => {
                        match parse_str_body(s@, k as int + 2) {
                            Some(p) => {
                                assert((old_acc + seq![e]) + p.0 =~= old_acc + (seq![e] + p.0));
                            },
                            None => {},
                        }
                    },
                    None => {
                        assert(false);
                    },
                }
            }
            k = k + 2;
        } else if (c as u32) < 32 {
            return None;
        } else {
            let ghost old_acc = acc@;
            acc.append(s.substring_char(k, k + 1));
            proof {
                assert(s@.subrange(k as int, k as int + 1) =~= seq![s@[k as int]]);
                match parse_str_body(s@, k as int + 1) {
                    Some(p) => {
                        assert((old_acc + seq![s@[k as int]]) + p.0 =~= old_acc + (seq![s@[k as int]]
                            + p.0));
                    },
                    None => {},
                }
            }
            k = k + 1;
        }
    }
}

/// Executable boolean literal parser.
fn exec_parse_bool(s: &str, i: usize, l: usize) -> (r: Option<(bool, usize)>)
    requires
        l == s@.len(),
        i <= l,
    ensures
        match r {
            Some(p) => parse_bool(s@, i as int) == Some((p.0, p.1 as int)) && i < p.1 <= l,
            None => parse_bool(s@, i as int) is None,
        },
{
    if l - i >= 4 && s.get_char(i) == 't' && s.get_char(i + 1) == 'r' && s.get_char(i + 2) == 'u'
        && s.get_char(i + 3) == 'e' {
        Some((true, i + 4))
    } else if l - i >= 5 && s.get_char(i) == 'f' && s.get_char(i + 1) == 'a' && s.get_char(i + 2)
        == 'l' && s.get_char(i + 3) == 's' && s.get_char(i + 4) == 'e' {
        Some((false, i + 5))
    } else {
        None
    }
}

/// Executable member-key parser.
fn exec_parse_key(s: &str, i: usize, l: usize) -> (r: Option<(String, usize)>)
    requires
        l == s@.len(),
        i <= l,
    ensures
        match r {
            Some(p) => parse_key(s@, i as int) == Some((p.0@, p.1 as int)) && i < p.1 <= l,
            None => parse_key(s@, i as int) is None,
        },
{
    match exec_parse_string(s, i, l) {
        None => None,
        Some((k, j)) => {
            let j2 = exec_skip_ws(s, j, l);
            if j2 < l && s.get_char(j2) == ':' {
                let j3 = exec_skip_ws(s, j2 + 1, l);
                Some((k, j3))
            } else {
                None
            }
        },
    }
}

/// Executable list-element parser.
fn exec_parse_entry(s: &str, i: usize, l: usize) -> (r: Option<(ModListEntry, usize)>)
    requires
        l == s@.len(),
        i <= l,
    ensures
        match r {
            Some(p) => parse_entry(s@, i as int) == Some((p.0@, p.1 as int)) && i < p.1 <= l,
            None => parse_entry(s@, i as int) is None,
        },
{
    if !(i < l && s.get_char(i) == '{') {
        return None;
    }
    let j = exec_skip_ws(s, i + 1, l);
    match exec_parse_key(s, j, l) {
        None => None,
        Some((key1, j1)) => {
            if str_eq(key1.as_str(), "name") {
                match exec_parse_string(s, j1, l) {
                    None => None,
                    Some((name, j2)) => {
                        let j3 = exec_skip_ws(s, j2, l);
                        if !(j3 < l && s.get_char(j3) == ',') {
                            return None;
                        }
                        let j3b = exec_skip_ws(s, j3 + 1, l);
                        match exec_parse_key(s, j3b, l) {
                            None => None,
                            Some((key2, j4)) => {
                                if !str_eq(key2.as_str(), "enabled") {
                                    return None;
                                }
                                match exec_parse_bool(s, j4, l) {
                                    None => None,
                                    Some((b, j5)) => {
                                        let j6 = exec_skip_ws(s, j5, l);
                                        if j6 < l && s.get_char(j6) == '}' {
                                            Some((ModListEntry { name, enabled: b }, j6 + 1))
                                        } else {
                                            None
                                        }
                                    },
                                }
                            },
                        }
                    },
                }
            } else if str_eq(key1.as_str(), "enabled") {
                proof {
                    reveal_strlit("name");
                    reveal_strlit("enabled");
                    assert(key1@ != "name"@);
                }
                match exec_parse_bool(s, j1, l) {
                    None => None,
                    Some((b, j2)) => {
                        let j3 = exec_skip_ws(s, j2, l);
                        if !(j3 < l && s.get_char(j3) == ',') {
                            return None;
                        }
                        let j3b = exec_skip_ws(s, j3 + 1, l);
                        match exec_parse_key(s, j3b, l) {
                            None => None,
                            Some((key2, j4)) => {
                                if !str_eq(key2.as_str(), "name") {
                                    return None;
                                }
                                match exec_parse_string(s, j4, l) {
                                    None => None,
                                    Some((name, j5)) => {
                                        let j6 = exec_skip_ws(s, j5, l);
                                        if j6 < l && s.get_char(j6) == '}' {
                                            Some((ModListEntry { name, enabled: b }, j6 + 1))
                                        } else {
                                            None
                                        }
                                    },
                                }
                            },
                        }
                    },
                }
            } else {
                None
            }
        },
    }
}

/// Executable list parser: the body after `'['`.
fn exec_parse_entries(s: &str, i: usize, l: usize) -> (r: Option<(Vec<ModListEntry>, usize)>)
    requires
        l == s@.len(),
        i <= l,
    ensures
        match r {
            Some(p) => parse_entries(s@, i as int) == Some((entry_models(p.0@), p.1 as int)) && p.1
                <= l,
            None => parse_entries(s@, i as int) is None,
        },
{
    let j = exec_skip_ws(s, i, l);
    if j < l && s.get_char(j) == ']' {
        let v: Vec<ModListEntry> = Vec::new();
        proof {
            assert(entry_models(v@) =~= Seq::<(Seq<char>, bool)>::empty());
        }
        return Some((v, j + 1));
    }
    match exec_parse_entry(s, j, l) {
        None => None,
        Some((e, j1)) => {
            let mut acc: Vec<ModListEntry> = Vec::new();
            let ghost e_model = e@;
            acc.push(e);
            proof {
                assert(entry_models(acc@) =~= seq![e_model]);
            }
            let mut k: usize = j1;
            loop
                invariant
                    k <= l,
                    l == s@.len(),
                    match parse_entries_rest(s@, k as int) {
                        Some(p) => parse_entries(s@, i as int) == Some(
                            (entry_models(acc@) + p.0, p.1),
                        ),
                        None => parse_entries(s@, i as int) is None,
                    },
                decreases l - k,
            {
                let j2 = exec_skip_ws(s, k, l);
                if j2 < l && s.get_char(j2) == ']' {
                    proof {
                        assert(entry_models(acc@) + Seq::<(Seq<char>, bool)>::empty() =~= entry_models(
                            acc@,
                        ));
                        lemma_parse_entries_rest(s@, k as int);
                    }
                    return Some((acc, j2 + 1));
                }
                if !(j2 < l && s.get_char(j2) == ',') {
                    return None;
                }
                let j3 = exec_skip_ws(s, j2 + 1, l);
                match exec_parse_entry(s, j3, l) {
                    None => {
                        return None;
                    },
                    Some((e2, j4)) => {
                        let ghost old_models = entry_models(acc@);
                        let ghost e2_model = e2@;
                        acc.push(e2);
                        proof {
                            assert(entry_models(acc@) =~= old_models + seq![e2_model]);
                            match parse_entries_rest(s@, j4 as int) {
                                Some(p) => {
                                    assert((old_models + seq![e2_model]) + p.0 =~= old_models + (seq![
                                        e2_model,
                                    ] + p.0));
                                },
                                None => {},
                            }
                        }
                        k = j4;
                    },
                }
            }
        },
    }
}

/// Parse a whole manifest document into its entries, in document order.
pub fn try_parse_mod_list(contents: &str) -> (r: Result<ModList, ManifestParseError>)
    ensures
        match r {
            Ok(m) => spec_parse_mod_list(contents@) == Some(m@),
            Err(e) => spec_parse_mod_list(contents@) is None,
        },
{
    let l = contents.unicode_len();
    let i0 = exec_skip_ws(contents, 0, l);
    if !(i0 < l && contents.get_char(i0) == '{') {
        return Err(ManifestParseError);
    }
    let i0b = exec_skip_ws(contents, i0 + 1, l);
    match exec_parse_key(contents, i0b, l) {
        None => Err(ManifestParseError),
        Some((key, i1)) => {
            if !str_eq(key.as_str(), "mods") {
                return Err(ManifestParseError);
            }
            if !(i1 < l && contents.get_char(i1) == '[') {
                return Err(ManifestParseError);
            }
            match exec_parse_entries(contents, i1 + 1, l) {
                None => Err(ManifestParseError),
                Some((entries, i2)) => {
                    let i3 = exec_skip_ws(contents, i2, l);
                    if !(i3 < l && contents.get_char(i3) == '}') {
                        return Err(ManifestParseError);
                    }
                    let i4 = exec_skip_ws(contents, i3 + 1, l);
                    if i4 == l {
                        Ok(ModList { mods: entries })
                    } else {
                        Err(ManifestParseError)
                    }
                },
            }
        },
    }
}

/// The enabled map a list of entries denotes: later entries overwrite
/// earlier ones of the same name.
pub open spec fn enabled_map_of(entries: Seq<(Seq<char>, bool)>) -> Map<Seq<char>, bool>
    decreases entries.len(),
{
    if entries.len() == 0 {
        Map::empty()
    } else {
        enabled_map_of(entries.drop_last()).insert(entries.last().0, entries.last().1)
    }
}

/// No two entries share a name.
pub open spec fn distinct_keys(s: Seq<(Seq<char>, bool)>) -> bool {
    forall|i: int, j: int| 0 <= i < j < s.len() ==> s[i].0 != s[j].0
}

/// The models of a sequence of name/enabled pairs.
pub open spec fn pair_models(s: Seq<(String, bool)>) -> Seq<(Seq<char>, bool)> {
    s.map_values(|p: (String, bool)| (p.0@, p.1))
}

proof fn lemma_enabled_map_contains(s: Seq<(Seq<char>, bool)>, k: Seq<char>)
    ensures
        enabled_map_of(s).contains_key(k) <==> (exists|i: int| 0 <= i < s.len() && s[i].0 == k),
    decreases s.len(),
{
    if s.len() > 0 {
        lemma_enabled_map_contains(s.drop_last(), k);
        if enabled_map_of(s).contains_key(k) {
            if s.last().0 == k {
                assert(s[s.len() - 1].0 == k);
            } else {
                let i = choose|i: int|
                    0 <= i < s.drop_last().len() && s.drop_last()[i].0 == k;
                assert(s.drop_last()[i] == s[i]);
                assert(s[i].0 == k);
            }
        }
        if exists|i: int| 0 <= i < s.len() && s[i].0 == k {
            let i = choose|i: int| 0 <= i < s.len() && s[i].0 == k;
            if i < s.len() - 1 {
                assert(s.drop_last()[i].0 == k);
                assert(enabled_map_of(s.drop_last()).contains_key(k));
            }
        }
    }
}

proof fn lemma_enabled_map_at(s: Seq<(Seq<char>, bool)>, i: int)
    requires
        distinct_keys(s),
        0 <= i < s.len(),
    ensures
        enabled_map_of(s).contains_key(s[i].0),
        enabled_map_of(s)[s[i].0] == s[i].1,
    decreases s.len(),
{
    lemma_enabled_map_contains(s, s[i].0);
    if i < s.len() - 1 {
        assert(distinct_keys(s.drop_last())) by {
            assert(forall|a: int, b: int|
                0 <= a < b < s.len() - 1 ==> s.drop_last()[a] == s[a] && s.drop_last()[b] == s[b]);
        }
        assert(s.drop_last()[i] == s[i]);
        lemma_enabled_map_at(s.drop_last(), i);
        assert(s[i].0 != s.last().0);
    }
}

proof fn lemma_enabled_map_remove(s: Seq<(Seq<char>, bool)>, i: int)
    requires
        distinct_keys(s),
        0 <= i < s.len(),
    ensures
        enabled_map_of(s.remove(i)) == enabled_map_of(s).remove(s[i].0),
    decreases s.len(),
{
    lemma_enabled_map_contains(s.drop_last(), s[i].0);
    if i == s.len() - 1 {
        assert(s.remove(i) =~= s.drop_last());
        // the key is not in the rest, so removing it changes nothing there
        assert(forall|j: int| 0 <= j < s.len() - 1 ==> s.drop_last()[j] == s[j]);
        assert(!enabled_map_of(s.drop_last()).contains_key(s[i].0));
        assert(enabled_map_of(s.drop_last()) =~= enabled_map_of(s).remove(s[i].0));
    } else {
        assert(distinct_keys(s.drop_last())) by {
            assert(forall|a: int, b: int|
                0 <= a < b < s.len() - 1 ==> s.drop_last()[a] == s[a] && s.drop_last()[b] == s[b]);
        }
        lemma_enabled_map_remove(s.drop_last(), i);
        assert(s.remove(i).drop_last() =~= s.drop_last().remove(i));
        assert(s.remove(i).last() == s.last());
        assert(s.drop_last()[i] == s[i]);
        assert(s[i].0 != s.last().0);
        assert(enabled_map_of(s.remove(i)) == enabled_map_of(s.drop_last().remove(i)).insert(
            s.last().0,
            s.last().1,
        ));
        assert(enabled_map_of(s.drop_last()).remove(s[i].0).insert(s.last().0, s.last().1)
            =~= enabled_map_of(s.drop_last()).insert(s.last().0, s.last().1).remove(s[i].0));
    }
}

/// A name-to-enabled map with unique names, as read from the manifest.
pub struct ModListMap {
    entries: Vec<(String, bool)>,
}

impl View for ModListMap {
    type V = Map<Seq<char>, bool>;

    closed spec fn view(&self) -> Map<Seq<char>, bool> {
        enabled_map_of(pair_models(self.entries@))
    }
}

impl ModListMap {
    /// The names are unique; every operation preserves this.
    pub closed spec fn wf(&self) -> bool {
        distinct_keys(pair_models(self.entries@))
    }

    /// The empty map.
    pub fn new() -> (r: ModListMap)
        ensures
            r@ == Map::<Seq<char>, bool>::empty(),
            r.wf(),
    {
        let r = ModListMap { entries: Vec::new() };
        proof {
            assert(pair_models(r.entries@) =~= Seq::<(Seq<char>, bool)>::empty());
        }
        r
    }

    /// Number of names in the map.
    pub fn len(&self) -> (n: usize)
        requires
            self.wf(),
        ensures
            n == self@.dom().len(),
    {
        proof {
            self.lemma_len();
        }
        self.entries.len()
    }

    proof fn lemma_len(&self)
        requires
            self.wf(),
        ensures
            self@.dom().len() == self.entries@.len(),
    {
        lemma_enabled_map_dom_len(pair_models(self.entries@));
    }

    /// Index of the entry holding `name`, if any.
    fn find(&self, name: &str) -> (r: Option<usize>)
        ensures
            match r {
                Some(i) => i < self.entries@.len() && pair_models(self.entries@)[i as int].0
                    == name@,
                None => forall|i: int|
                    0 <= i < self.entries@.len() ==> pair_models(self.entries@)[i].0 != name@,
            },
    {
        let mut i: usize = 0;
        while i < self.entries.len()
            invariant
                i <= self.entries@.len(),
                forall|j: int| 0 <= j < i ==> pair_models(self.entries@)[j].0 != name@,
            decreases self.entries@.len() - i,
        {
            if str_eq(self.entries[i].0.as_str(), name) {
                return Some(i);
            }
            i = i + 1;
        }
        None
    }

    /// Look a name up.
    pub fn get(&self, name: &str) -> (r: Option<bool>)
        requires
            self.wf(),
        ensures
            r == (if self@.contains_key(name@) {
                Some(self@[name@])
            } else {
                None::<bool>
            }),
    {
        proof {
            lemma_enabled_map_contains(pair_models(self.entries@), name@);
        }
        match self.find(name) {
            Some(i) => {
                proof {
                    lemma_enabled_map_at(pair_models(self.entries@), i as int);
                }
                Some(self.entries[i].1)
            },
            None => None,
        }
    }

    /// Insert a name, overwriting the enabled state of an existing one.
    pub fn insert(&mut self, name: String, enabled: bool)
        requires
            old(self).wf(),
        ensures
            final(self)@ == old(self)@.insert(name@, enabled),
            final(self).wf(),
    {
        let ghost orig = pair_models(self.entries@);
        match self.find(name.as_str()) {
            Some(i) => {
                proof {
                    lemma_enabled_map_remove(orig, i as int);
                }
                self.entries.remove(i);
                proof {
                    let mid = pair_models(self.entries@);
                    assert(mid =~= orig.remove(i as int));
                    assert forall|a: int, b: int| 0 <= a < b < mid.len() implies mid[a].0
                        != mid[b].0 by {
                        assert(mid[a] == (if a < i { orig[a] } else { orig[a + 1] }));
                        assert(mid[b] == (if b < i { orig[b] } else { orig[b + 1] }));
                    }
                    assert forall|j: int| 0 <= j < mid.len() implies mid[j].0 != name@ by {
                        assert(mid[j] == (if j < i { orig[j] } else { orig[j + 1] }));
                        assert(orig[i as int].0 == name@);
                    }
                }
            },
            None => {},
        }
        let ghost mid = pair_models(self.entries@);
        proof {
            assert(distinct_keys(mid));
            assert(forall|j: int| 0 <= j < mid.len() ==> mid[j].0 != name@);
        }
        self.entries.push((name, enabled));
        proof {
            let newm = pair_models(self.entries@);
            assert(newm =~= mid.push((name@, enabled)));
            assert(newm.drop_last() =~= mid);
            assert(newm.last() == (name@, enabled));
            assert(self@ =~= old(self)@.insert(name@, enabled));
            assert forall|a: int, b: int| 0 <= a < b < newm.len() implies newm[a].0 != newm[b].0 by {
                if b < newm.len() - 1 {
                    assert(newm[a] == mid[a] && newm[b] == mid[b]);
                } else {
                    assert(newm[a] == mid[a] && newm[b].0 == name@);
                }
            }
        }
    }

    /// Turn the map back into a document body: one entry per name, in the
    /// map's internal order, denoting exactly this map.
    pub fn into_list(self) -> (r: ModList)
        requires
            self.wf(),
        ensures
            enabled_map_of(r@) == self@,
            distinct_keys(r@),
            r@.len() == self@.dom().len(),
    {
        proof {
            self.lemma_len();
        }
        let mut mods: Vec<ModListEntry> = Vec::new();
        let mut i: usize = 0;
        proof {
            assert(entry_models(mods@) =~= pair_models(self.entries@).subrange(0, 0));
        }
        while i < self.entries.len()
            invariant
                i <= self.entries@.len(),
                entry_models(mods@) == pair_models(self.entries@).subrange(0, i as int),
            decreases self.entries@.len() - i,
        {
            let ghost old_mods = mods@;
            let p = &self.entries[i];
            mods.push(ModListEntry { name: p.0.clone(), enabled: p.1 });
            proof {
                assert(entry_models(mods@) =~= pair_models(self.entries@).subrange(0, i + 1)) by {
                    assert(old_mods.len() == entry_models(old_mods).len());
                    assert(entry_models(old_mods) == pair_models(self.entries@).subrange(
                        0,
                        i as int,
                    ));
                    assert(mods@.len() == old_mods.len() + 1);
                    assert(entry_models(mods@).len() == i + 1);
                    assert forall|j: int|
                        0 <= j < i + 1 implies entry_models(mods@)[j] == pair_models(
                        self.entries@,
                    ).subrange(0, i + 1)[j] by {
                        if j < i {
                            assert(mods@[j] == old_mods[j]);
                            assert(entry_models(old_mods)[j] == pair_models(
                                self.entries@,
                            ).subrange(0, i as int)[j]);
                        } else {
                            assert(mods@[j]@ == (self.entries@[j].0@, self.entries@[j].1));
                            assert(pair_models(self.entries@)[j] == (self.entries@[j].0@,
                                self.entries@[j].1));
                        }
                    }
                }
            }
            i = i + 1;
        }
        proof {
            assert(pair_models(self.entries@).subrange(0, self.entries@.len() as int)
                =~= pair_models(self.entries@));
        }
        ModList { mods }
    }

    /// Remove a name; removing an absent name changes nothing.
    pub fn remove_name(&mut self, name: &str)
        requires
            old(self).wf(),
        ensures
            final(self)@ == old(self)@.remove(name@),
            final(self).wf(),
    {
        let ghost orig = pair_models(self.entries@);
        proof {
            lemma_enabled_map_contains(orig, name@);
        }
        match self.find(name) {
            Some(i) => {
                proof {
                    lemma_enabled_map_remove(orig, i as int);
                }
                self.entries.remove(i);
                proof {
                    assert(pair_models(self.entries@) =~= orig.remove(i as int));
                }
            },
            None => {
                proof {
                    assert(!old(self)@.contains_key(name@));
                    assert(self@ =~= old(self)@.remove(name@));
                }
            },
        }
    }
}

proof fn lemma_enabled_map_dom_len(s: Seq<(Seq<char>, bool)>)
    requires
        distinct_keys(s),
    ensures
        enabled_map_of(s).dom().len() == s.len(),
        enabled_map_of(s).dom().finite(),
    decreases s.len(),
{
    if s.len() > 0 {
        assert(distinct_keys(s.drop_last())) by {
            assert(forall|a: int, b: int|
                0 <= a < b < s.len() - 1 ==> s.drop_last()[a] == s[a] && s.drop_last()[b] == s[b]);
        }
        lemma_enabled_map_dom_len(s.drop_last());
        lemma_enabled_map_contains(s.drop_last(), s.last().0);
        assert(forall|j: int| 0 <= j < s.len() - 1 ==> s.drop_last()[j] == s[j]);
        assert(!enabled_map_of(s.drop_last()).contains_key(s.last().0));
        assert(enabled_map_of(s).dom() =~= enabled_map_of(s.drop_last()).dom().insert(s.last().0));
    }
}

impl ModList {
    /// The enabled map of this document: later entries overwrite earlier
    /// ones of the same name.
    pub fn into_map(self) -> (r: ModListMap)
        ensures
            r@ == enabled_map_of(self@),
            r.wf(),
    {
        let mut m = ModListMap::new();
        let mut i: usize = 0;
        proof {
            assert(self@.subrange(0, 0) =~= Seq::<(Seq<char>, bool)>::empty());
        }
        while i < self.mods.len()
            invariant
                i <= self.mods@.len(),
                self@.len() == self.mods@.len(),
                m@ == enabled_map_of(self@.subrange(0, i as int)),
                m.wf(),
            decreases self.mods@.len() - i,
        {
            let e = &self.mods[i];
            m.insert(e.name.clone(), e.enabled);
            proof {
                assert(self@.subrange(0, i + 1).drop_last() =~= self@.subrange(0, i as int));
                assert(self@.subrange(0, i + 1).last() == self@[i as int]);
                assert(self@[i as int] == (e.name@, e.enabled));
            }
            i = i + 1;
        }
        proof {
            assert(self@.subrange(0, self@.len() as int) =~= self@);
        }
        m
    }
}

/// Parse a manifest document straight into its enabled map.
pub fn try_parse_mod_list_map(contents: &str) -> (r: Result<ModListMap, ManifestParseError>)
    ensures
        match r {
            Ok(m) => (match spec_parse_mod_list(contents@) {
                Some(es) => m@ == enabled_map_of(es) && m.wf(),
                None => false,
            }),
            Err(e) => spec_parse_mod_list(contents@) is None,
        },
{
    match try_parse_mod_list(contents) {
        Ok(list) => Ok(list.into_map()),
        Err(e) => Err(e),
    }
}

} // verus!
