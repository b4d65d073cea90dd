//! The reporter: one row per package group, ordered by enabled state
//! (enabled first, then disabled, then unlisted) and then by name, with
//! summary counters.

use vstd::prelude::*;
use vstd::string::StringExecFns;
use crate::chars::{lex_cmp, lemma_lex_cmp_antisym, lemma_lex_cmp_eq, lemma_lex_cmp_range,
    str_lex_cmp};
use crate::inventory::{group_models, group_names, group_wf, Inventory, PackageGroup,
    PackageGroupModel};
use crate::semver::{SemanticVersion, SemVerModel, ver_le, lemma_ver_cmp_range};
use crate::inventory::lemma_sorted_pair;

verus! {

/// One report row: enabled marker, package name, representative (highest)
/// version, and how many distinct versions were found.
pub struct ReportRow {
    pub enabled: Option<bool>,
    pub name: String,
    pub version: SemanticVersion,
    pub version_count: usize,
}

/// The mathematical value of a `ReportRow`.
pub struct ReportRowModel {
    pub enabled: Option<bool>,
    pub name: Seq<char>,
    pub version: SemVerModel,
    pub version_count: int,
}

impl View for ReportRow {
    type V = ReportRowModel;

    open spec fn view(&self) -> ReportRowModel {
        ReportRowModel {
            enabled: self.enabled,
            name: self.name@,
            version: self.version@,
            version_count: self.version_count as int,
        }
    }
}

/// The models of a sequence of rows.
pub open spec fn row_models(s: Seq<ReportRow>) -> Seq<ReportRowModel> {
    s.map_values(|r: ReportRow| r@)
}

/// Sort rank of an enabled state: enabled first, then disabled, then
/// unlisted.
pub open spec fn enabled_rank(e: Option<bool>) -> int {
    match e {
        Some(true) => 0,
        Some(false) => 1,
        None => 2,
    }
}

/// Report order: enabled rank first, then name, ascending by code point.
pub open spec fn row_lt(a: ReportRowModel, b: ReportRowModel) -> bool {
    ||| enabled_rank(a.enabled) < enabled_rank(b.enabled)
    ||| (enabled_rank(a.enabled) == enabled_rank(b.enabled) && lex_cmp(a.name, b.name) < 0)
}

/// The row a group yields: its name, its enabled state, its highest
/// version (the last, the sequence being ascending), and the count of its
/// distinct versions.
pub open spec fn row_of(g: PackageGroupModel) -> ReportRowModel {
    ReportRowModel {
        enabled: g.enabled,
        name: g.name,
        version: g.versions.last(),
        version_count: g.versions.len() as int,
    }
}

/// Strictly ascending under the report order.
pub open spec fn rows_sorted(rows: Seq<ReportRowModel>) -> bool {
    forall|i: int| 0 <= i && i + 1 < rows.len() ==> row_lt(#[trigger] rows[i], rows[i + 1])
}

/// The rows describe exactly the groups, in report order.
pub open spec fn report_ok(rows: Seq<ReportRowModel>, gs: Seq<PackageGroupModel>) -> bool {
    &&& rows.len() == gs.len()
    &&& rows_sorted(rows)
    &&& rows.to_set() == gs.map_values(|g: PackageGroupModel| row_of(g)).to_set()
}

/// The representative version of a group: its highest, which the group
/// invariant places last.
pub fn representative(g: &PackageGroup) -> (r: &SemanticVersion)
    requires
        group_wf(g@),
    ensures
        r@ == g@.versions.last(),
        forall|i: int| 0 <= i < g@.versions.len() ==> ver_le(#[trigger] g@.versions[i], r@),
{
    proof {
        let vs = g@.versions;
        assert forall|i: int| 0 <= i < vs.len() implies ver_le(#[trigger] vs[i], vs.last()) by {
            lemma_ver_cmp_range(vs[i], vs.last());
            if i < vs.len() - 1 {
                lemma_sorted_pair(vs, i, vs.len() - 1);
            } else {
                crate::semver::lemma_ver_cmp_full_eq(vs[i], vs.last());
            }
        }
        assert(g@.versions[g@.versions.len() - 1] == g@.versions.last());
    }
    let n = g.versions.len();
    &g.versions[n - 1]
}

/// Copy a list of strings.
fn clone_strings(v: &Vec<String>) -> (r: Vec<String>)
    ensures
        r.deep_view() == v.deep_view(),
{
    let mut r: Vec<String> = Vec::new();
    let mut i: usize = 0;
    while i < v.len()
        invariant
            i <= v@.len(),
            r@.len() == i,
            forall|j: int| 0 <= j < i ==> #[trigger] r@[j]@ == v@[j]@,
        decreases v@.len() - i,
    {
        r.push(v[i].clone());
        i = i + 1;
    }
    proof {
        assert(r.deep_view() =~= v.deep_view());
    }
    r
}

/// Copy a version.
pub fn clone_version(v: &SemanticVersion) -> (r: SemanticVersion)
    ensures
        r@ == v@,
{
    SemanticVersion {
        major: v.major,
        minor: v.minor,
        patch: v.patch,
        prerelease: clone_strings(&v.prerelease),
        build: clone_strings(&v.build),
    }
}

/// Does row `a` sort strictly before row `b`?
fn row_before(a: &ReportRow, b: &ReportRow) -> (r: bool)
    ensures
        r == row_lt(a@, b@),
{
    let ra: u8 = match a.enabled {
        Some(true) => 0,
        Some(false) => 1,
        None => 2,
    };
    let rb: u8 = match b.enabled {
        Some(true) => 0,
        Some(false) => 1,
        None => 2,
    };
    if ra < rb {
        true
    } else if ra > rb {
        false
    } else {
        str_lex_cmp(a.name.as_str(), b.name.as_str()) < 0
    }
}

/// Splicing a row between those below it and those above it keeps the
/// sequence strictly sorted and adds exactly it to the set.
proof fn lemma_insert_row(olds: Seq<ReportRowModel>, news: Seq<ReportRowModel>, v: ReportRowModel, k: int)
    requires
        rows_sorted(olds),
        0 <= k <= olds.len(),
        news.len() == olds.len() + 1,
        forall|j: int| 0 <= j < k ==> #[trigger] news[j] == olds[j],
        news[k] == v,
        forall|j: int| k < j < news.len() ==> #[trigger] news[j] == olds[j - 1],
        forall|j: int| 0 <= j < k ==> row_lt(#[trigger] olds[j], v),
        k < olds.len() ==> row_lt(v, olds[k]),
    ensures
        rows_sorted(news),
        news.to_set() == olds.to_set().insert(v),
{
    assert forall|i: int| 0 <= i && i + 1 < news.len() implies row_lt(
        #[trigger] news[i],
        news[i + 1],
    ) by {
        if i + 1 < k {
            assert(news[i] == olds[i] && news[i + 1] == olds[i + 1]);
        } else if i + 1 == k {
            assert(news[i] == olds[i] && news[i + 1] == v);
        } else if i == k {
            assert(news[i] == v && news[i + 1] == olds[i]);
        } else {
            assert(news[i] == olds[i - 1] && news[i + 1] == olds[i]);
        }
    }
    assert forall|x: ReportRowModel| #[trigger] news.to_set().contains(x) implies olds.to_set().insert(
        v,
    ).contains(x) by {
        let j = choose|j: int| 0 <= j < news.len() && news[j] == x;
        if j < k {
            assert(olds[j] == x);
        } else if j > k {
            assert(olds[j - 1] == x);
        }
    }
    assert forall|x: ReportRowModel| olds.to_set().insert(v).contains(x) implies #[trigger] news.to_set().contains(
        x,
    ) by {
        if x == v {
            assert(news[k] == x);
        } else {
            let j = choose|j: int| 0 <= j < olds.len() && olds[j] == x;
            if j < k {
                assert(news[j] == x);
            } else {
                assert(news[j + 1] == x);
            }
        }
    }
    assert(news.to_set() =~= olds.to_set().insert(v));
}

/// Produce the report rows of an inventory, in report order: enabled
/// groups first, disabled next, unlisted last, ties broken by name.
#[verifier::rlimit(100)]
pub fn report_rows(inv: &Inventory) -> (rows: Vec<ReportRow>)
    requires
        forall|i: int|
            0 <= i < inv.groups@.len() ==> group_wf(#[trigger] group_models(inv.groups@)[i]),
        group_names(group_models(inv.groups@)).no_duplicates(),
    ensures
        report_ok(row_models(rows@), group_models(inv.groups@)),
{
    let ghost gs = group_models(inv.groups@);
    let ghost all_rows = gs.map_values(|g: PackageGroupModel| row_of(g));
    let mut rows: Vec<ReportRow> = Vec::new();
    let mut g: usize = 0;
    proof {
        assert(row_models(rows@).to_set() =~= gs.subrange(0, 0).map_values(
            |x: PackageGroupModel| row_of(x),
        ).to_set()) by {
            assert(gs.subrange(0, 0).map_values(|x: PackageGroupModel| row_of(x)).len() == 0);
            assert(row_models(rows@).len() == 0);
        }
    }
    while g < inv.groups.len()
        invariant
            g <= inv.groups@.len(),
            gs == group_models(inv.groups@),
            forall|i: int| 0 <= i < gs.len() ==> group_wf(#[trigger] gs[i]),
            group_names(gs).no_duplicates(),
            rows@.len() == g,
            rows_sorted(row_models(rows@)),
            row_models(rows@).to_set() == gs.subrange(0, g as int).map_values(
                |x: PackageGroupModel| row_of(x),
            ).to_set(),
        decreases inv.groups@.len() - g,
    {
        let grp = &inv.groups[g];
        let rep = clone_version(representative(grp));
        let row = ReportRow {
            enabled: grp.enabled,
            name: grp.name.clone(),
            version: rep,
            version_count: grp.versions.len(),
        };
        proof {
            assert(gs[g as int] == grp@);
            assert(row@ == row_of(gs[g as int]));
        }
        // the new row's name differs from every name already placed
        let ghost olds = row_models(rows@);
        proof {
            assert forall|j: int| 0 <= j < olds.len() implies #[trigger] olds[j].name != row@.name
                by {
                assert(olds.to_set().contains(olds[j]));
                let f = |x: PackageGroupModel| row_of(x);
                let mapped = gs.subrange(0, g as int).map_values(f);
                assert(mapped.contains(olds[j]));
                let w = choose|w: int| 0 <= w < mapped.len() && mapped[w] == olds[j];
                assert(olds[j] == row_of(gs[w]));
                assert(group_names(gs)[w] == gs[w].name);
                assert(group_names(gs)[g as int] == gs[g as int].name);
            }
        }
        let mut k: usize = 0;
        loop
            invariant_except_break
                k <= rows@.len(),
                row_models(rows@) == olds,
                rows_sorted(olds),
                forall|j: int| 0 <= j < olds.len() ==> #[trigger] olds[j].name != row@.name,
                forall|j: int| 0 <= j < k ==> row_lt(#[trigger] olds[j], row@),
            ensures
                k <= rows@.len(),
                row_models(rows@) == olds,
                forall|j: int| 0 <= j < k ==> row_lt(#[trigger] olds[j], row@),
                k < olds.len() ==> row_lt(row@, olds[k as int]),
            decreases rows@.len() - k,
        {
            if k == rows.len() {
                break;
            }
            if row_before(&rows[k], &row) {
                k = k + 1;
            } else {
                // not below the new row, and names differ, so it is above
                proof {
                    lemma_lex_cmp_antisym(olds[k as int].name, row@.name);
                    lemma_lex_cmp_eq(olds[k as int].name, row@.name);
                    lemma_lex_cmp_range(olds[k as int].name, row@.name);
                    assert(row_lt(row@, olds[k as int]));
                }
                break;
            }
        }
        let ghost rowm = row@;
        let ghost oldraw = rows@;
        rows.insert(k, row);
        proof {
            let news = row_models(rows@);
            oldraw.insert_ensures(k as int, row);
            assert(news.len() == olds.len() + 1);
            assert forall|j: int| 0 <= j < k implies #[trigger] news[j] == olds[j] by {
                assert(rows@[j] == oldraw[j]);
            }
            assert(news[k as int] == rowm) by {
                assert(rows@[k as int] == oldraw.insert(k as int, row)[k as int]);
            }
            assert forall|j: int| k < j < news.len() implies #[trigger] news[j] == olds[j - 1] by {
                assert(rows@[j] == oldraw[j - 1]);
            }
            lemma_insert_row(olds, news, rowm, k as int);
            assert(gs.subrange(0, g + 1).drop_last() =~= gs.subrange(0, g as int));
            let f = |x: PackageGroupModel| row_of(x);
            assert(gs.subrange(0, g + 1).map_values(f).drop_last() =~= gs.subrange(
                0,
                g as int,
            ).map_values(f));
            assert(gs.subrange(0, g + 1).map_values(f).last() == rowm);
            assert(gs.subrange(0, g + 1).map_values(f) =~= gs.subrange(0, g as int).map_values(
                f,
            ).push(rowm));
            assert(gs.subrange(0, g as int).map_values(f).push(rowm).to_set() =~= gs.subrange(
                0,
                g as int,
            ).map_values(f).to_set().insert(rowm)) by {
                let s = gs.subrange(0, g as int).map_values(f);
                assert forall|x: ReportRowModel| #[trigger] s.push(rowm).to_set().contains(x)
                    implies s.to_set().insert(rowm).contains(x) by {
                    let j = choose|j: int| 0 <= j < s.push(rowm).len() && s.push(rowm)[j] == x;
                    if j < s.len() {
                        assert(s[j] == x);
                    }
                }
                assert forall|x: ReportRowModel| s.to_set().insert(rowm).contains(x)
                    implies #[trigger] s.push(rowm).to_set().contains(x) by {
                    if x == rowm {
                        assert(s.push(rowm)[s.len() as int] == x);
                    } else {
                        let j = choose|j: int| 0 <= j < s.len() && s[j] == x;
                        assert(s.push(rowm)[j] == x);
                    }
                }
            }
        }
        g = g + 1;
    }
    proof {
        assert(gs.subrange(0, gs.len() as int) =~= gs);
    }
    rows
}

/// Summary counters of a run.
pub struct Summary {
    /// How many entries classified as packages.
    pub package_count: usize,
    /// How many entries did not classify as packages.
    pub non_package_count: usize,
    /// A manifest was found (always, in a built inventory).
    pub manifest_found: bool,
    /// A settings blob was found.
    pub settings_found: bool,
    /// How many entries are retained as unrecognized.
    pub unrecognized_count: usize,
}

/// The summary an inventory denotes.
pub fn summarize(inv: &Inventory) -> (s: Summary)
    requires
        inv.package_count <= inv.file_count,
    ensures
        s.package_count == inv.package_count,
        s.non_package_count == inv.file_count - inv.package_count,
        s.manifest_found,
        s.settings_found == (inv.settings is Some),
        s.unrecognized_count == inv.unrecognized@.len(),
{
    Summary {
        package_count: inv.package_count,
        non_package_count: inv.file_count - inv.package_count,
        manifest_found: true,
        settings_found: inv.settings.is_some(),
        unrecognized_count: inv.unrecognized.len(),
    }
}

} // verus!
