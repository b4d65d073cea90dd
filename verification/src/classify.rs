//! The filename classifier: one file name becomes exactly one typed record.
//!
//! Two reserved literal names identify the manifest and the settings blob.
//! Any other name is split at its last `'_'`: the part after it (with a
//! trailing `.zip` stripped) is the version candidate, the part before it is
//! the package name. A name without `'_'` is its own candidate, with an
//! empty package name. A candidate that parses as a semantic version yields
//! a package record; anything else is unrecognized. Classification is total.

use vstd::prelude::*;
use vstd::string::StrSliceExecFns;
use vstd::string::StringExecFns;
use crate::chars::{rfind, lemma_rfind, str_eq, str_rfind};
use crate::semver::{SemanticVersion, SemVerModel, spec_parse_version, parse_version};

verus! {

/// The reserved name of the enabled/disabled manifest document.
pub open spec fn manifest_file_name() -> Seq<char> {
    "mod-list.json"@
}

/// The reserved name of the opaque settings blob.
pub open spec fn settings_file_name() -> Seq<char> {
    "mod-settings.dat"@
}

/// What one directory entry was recognized as.
pub enum ClassifiedRecord {
    /// The enabled/disabled manifest document.
    ListManifest,
    /// The opaque settings file; its content is never read here.
    SettingsBlob,
    /// A package archive `<name>_<version>[.zip]`.
    Package { name: String, version: SemanticVersion },
    /// Anything that matches no known pattern.
    Unrecognized,
}

/// The mathematical value of a `ClassifiedRecord`.
pub enum RecordModel {
    ListManifest,
    SettingsBlob,
    Package { name: Seq<char>, version: SemVerModel },
    Unrecognized,
}

impl View for ClassifiedRecord {
    type V = RecordModel;

    open spec fn view(&self) -> RecordModel {
        match self {
            ClassifiedRecord::ListManifest => RecordModel::ListManifest,
            ClassifiedRecord::SettingsBlob => RecordModel::SettingsBlob,
            ClassifiedRecord::Package { name, version } => RecordModel::Package {
                name: name@,
                version: version@,
            },
            ClassifiedRecord::Unrecognized => RecordModel::Unrecognized,
        }
    }
}

/// The version candidate of a non-reserved name: what follows the last
/// `'_'`, or the whole name where there is none.
pub open spec fn trailing_segment(s: Seq<char>) -> Seq<char> {
    let k = rfind(s, '_');
    if k >= 0 {
        s.subrange(k + 1, s.len() as int)
    } else {
        s
    }
}

/// The package-name part of a non-reserved name: what precedes the last
/// `'_'`, empty where there is none.
pub open spec fn leading_name(s: Seq<char>) -> Seq<char> {
    let k = rfind(s, '_');
    if k >= 0 {
        s.subrange(0, k)
    } else {
        Seq::empty()
    }
}

/// Strip one trailing `.zip`, if present.
pub open spec fn strip_zip(c: Seq<char>) -> Seq<char> {
    if c.len() >= 4 && c.subrange(c.len() - 4, c.len() as int) == ".zip"@ {
        c.subrange(0, c.len() - 4)
    } else {
        c
    }
}

/// The record a file name denotes. Classification is total: every name
/// yields exactly one record, `Unrecognized` in the worst case.
pub open spec fn spec_classify(s: Seq<char>) -> RecordModel {
    if s == manifest_file_name() {
        RecordModel::ListManifest
    } else if s == settings_file_name() {
        RecordModel::SettingsBlob
    } else {
        match spec_parse_version(strip_zip(trailing_segment(s))) {
            Some(v) => RecordModel::Package { name: leading_name(s), version: v },
            None => RecordModel::Unrecognized,
        }
    }
}

/// Does `c` end in `.zip`? (Executable counterpart of the `strip_zip`
/// condition.)
fn has_zip_suffix(c: &str, cl: usize) -> (r: bool)
    requires
        cl == c@.len(),
    ensures
        r == (c@.len() >= 4 && c@.subrange(c@.len() - 4, c@.len() as int) == ".zip"@),
{
    proof {
        reveal_strlit(".zip");
    }
    if cl < 4 {
        return false;
    }
    let r = c.get_char(cl - 4) == '.' && c.get_char(cl - 3) == 'z' && c.get_char(cl - 2) == 'i'
        && c.get_char(cl - 1) == 'p';
    proof {
        let zip = ".zip"@;
        assert(zip.len() == 4);
        let sub = c@.subrange(cl - 4, cl as int);
        assert(sub[0] == c@[cl - 4] && sub[1] == c@[cl - 3] && sub[2] == c@[cl - 2] && sub[3]
            == c@[cl - 1]);
        if r {
            assert(sub =~= zip);
        } else {
            assert(sub != zip);
        }
    }
    r
}

/// Classify one file name.
pub fn classify(name: &str) -> (r: ClassifiedRecord)
    ensures
        r@ == spec_classify(name@),
{
    if str_eq(name, "mod-list.json") {
        return ClassifiedRecord::ListManifest;
    }
    if str_eq(name, "mod-settings.dat") {
        return ClassifiedRecord::SettingsBlob;
    }
    let l = name.unicode_len();
    proof {
        lemma_rfind(name@, '_');
    }
    let pkg_name: String;
    let cand: &str;
    match str_rfind(name, '_', l) {
        Some(k) => {
            pkg_name = name.substring_char(0, k).to_owned();
            cand = name.substring_char(k + 1, l);
        },
        None => {
            pkg_name = String::new();
            cand = name;
        },
    }
    let cl = cand.unicode_len();
    let cand2: &str = if has_zip_suffix(cand, cl) {
        cand.substring_char(0, cl - 4)
    } else {
        cand
    };
    proof {
        assert(cand2@ == strip_zip(trailing_segment(name@)));
    }
    match parse_version(cand2) {
        Some(v) => ClassifiedRecord::Package { name: pkg_name, version: v },
        None => ClassifiedRecord::Unrecognized,
    }
}

/// The two reserved literal names classify as the manifest and the
/// settings blob, whatever a package of that name might hold.
pub proof fn lemma_classify_reserved()
    ensures
        spec_classify(manifest_file_name()) == RecordModel::ListManifest,
        spec_classify(settings_file_name()) == RecordModel::SettingsBlob,
{
    reveal_strlit("mod-list.json");
    reveal_strlit("mod-settings.dat");
    assert(manifest_file_name().len() != settings_file_name().len());
}

/// A name of the form `<name>_<version>.zip`, where the version part
/// contains no `'_'` and parses as a semantic version, classifies as a
/// package of exactly that name and version; the name part keeps any
/// `'_'` it contains.
pub proof fn lemma_classify_package(s: Seq<char>, name: Seq<char>, ver: Seq<char>, v: SemVerModel)
    requires
        s == name + seq!['_'] + ver + ".zip"@,
        s != manifest_file_name(),
        s != settings_file_name(),
        forall|i: int| 0 <= i < ver.len() ==> ver[i] != '_',
        spec_parse_version(ver) == Some(v),
    ensures
        spec_classify(s) == (RecordModel::Package { name: name, version: v }),
{
    reveal_strlit(".zip");
    let zip = ".zip"@;
    assert(zip.len() == 4);
    assert(zip[0] == '.' && zip[1] == 'z' && zip[2] == 'i' && zip[3] == 'p');
    let k = name.len() as int;
    assert(s.len() == name.len() + 1 + ver.len() + 4);
    assert(s[k] == '_');
    assert(forall|j: int| k < j < s.len() ==> s[j] != '_') by {
        assert(forall|j: int| 0 <= j < ver.len() ==> s[k + 1 + j] == ver[j]);
        assert(forall|j: int| 0 <= j < 4 ==> s[k + 1 + ver.len() + j] == zip[j]);
    }
    lemma_rfind(s, '_');
    assert(rfind(s, '_') == k) by {
        if rfind(s, '_') < k {
            assert(s[k] == '_');
        }
    }
    assert(leading_name(s) =~= name);
    let t = trailing_segment(s);
    assert(t =~= ver + zip);
    assert(t.len() >= 4);
    assert(t.subrange(t.len() - 4, t.len() as int) =~= zip);
    assert(strip_zip(t) =~= ver);
}

/// A non-reserved name whose trailing segment (after stripping `.zip`)
/// is not a valid semantic version is unrecognized — never a package.
pub proof fn lemma_classify_unrecognized(s: Seq<char>)
    requires
        s != manifest_file_name(),
        s != settings_file_name(),
        spec_parse_version(strip_zip(trailing_segment(s))) is None,
    ensures
        spec_classify(s) == RecordModel::Unrecognized,
{
}

} // verus!
