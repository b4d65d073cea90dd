//! The inventory builder: classified directory entries are reconciled with
//! the enabled map into package groups, a manifest reference, an optional
//! settings reference, and the retained unrecognized entries.

use vstd::prelude::*;
use crate::chars::str_eq;
use crate::classify::{classify, spec_classify, ClassifiedRecord, RecordModel};
use crate::mod_list::ModListMap;
use crate::semver::{SemanticVersion, SemVerModel, ver_cmp_full, ver_le, version_cmp_full};
use crate::semver::{lemma_ver_cmp_antisym, lemma_ver_cmp_full_eq, lemma_ver_cmp_full_trans,
    lemma_ver_cmp_range};

verus! {

/// One directory entry together with what it was classified as.
pub struct ModFile {
    pub file_name: String,
    pub record: ClassifiedRecord,
}

/// The mathematical value of a `ModFile`.
pub struct ModFileModel {
    pub file_name: Seq<char>,
    pub record: RecordModel,
}

impl View for ModFile {
    type V = ModFileModel;

    open spec fn view(&self) -> ModFileModel {
        ModFileModel { file_name: self.file_name@, record: self.record@ }
    }
}

/// The models of a sequence of files.
pub open spec fn file_models(s: Seq<ModFile>) -> Seq<ModFileModel> {
    s.map_values(|f: ModFile| f@)
}

/// Classify every directory entry, in order.
pub fn classify_all(names: &Vec<String>) -> (r: Vec<ModFile>)
    ensures
        r@.len() == names@.len(),
        forall|i: int|
            0 <= i < names@.len() ==> #[trigger] r@[i]@ == (ModFileModel {
                file_name: names@[i]@,
                record: spec_classify(names@[i]@),
            }),
{
    let mut r: Vec<ModFile> = Vec::new();
    let mut i: usize = 0;
    while i < names.len()
        invariant
            i <= names@.len(),
            r@.len() == i,
            forall|j: int|
                0 <= j < i ==> #[trigger] r@[j]@ == (ModFileModel {
                    file_name: names@[j]@,
                    record: spec_classify(names@[j]@),
                }),
        decreases names@.len() - i,
    {
        let name = names[i].clone();
        let record = classify(name.as_str());
        r.push(ModFile { file_name: name, record });
        i = i + 1;
    }
    r
}

/// The first index at or after `i` whose record is the list manifest, or
/// the length where there is none.
pub open spec fn first_manifest_from(files: Seq<ModFileModel>, i: int) -> int
    decreases files.len() - i when 0 <= i <= files.len()
{
    if i < files.len() {
        if files[i].record is ListManifest {
            i
        } else {
            first_manifest_from(files, i + 1)
        }
    } else {
        i
    }
}

pub proof fn lemma_first_manifest_from(files: Seq<ModFileModel>, i: int)
    requires
        0 <= i <= files.len(),
    ensures
        i <= first_manifest_from(files, i) <= files.len(),
        first_manifest_from(files, i) < files.len() ==> files[first_manifest_from(
            files,
            i,
        )].record is ListManifest,
        forall|j: int| i <= j < first_manifest_from(files, i) ==> !(files[j].record is ListManifest),
    decreases files.len() - i,
{
    if i < files.len() && !(files[i].record is ListManifest) {
        lemma_first_manifest_from(files, i + 1);
    }
}

/// The first index at or after `i` whose record is the settings blob, or
/// the length where there is none.
pub open spec fn first_settings_from(files: Seq<ModFileModel>, i: int) -> int
    decreases files.len() - i when 0 <= i <= files.len()
{
    if i < files.len() {
        if files[i].record is SettingsBlob {
            i
        } else {
            first_settings_from(files, i + 1)
        }
    } else {
        i
    }
}

pub proof fn lemma_first_settings_from(files: Seq<ModFileModel>, i: int)
    requires
        0 <= i <= files.len(),
    ensures
        i <= first_settings_from(files, i) <= files.len(),
        first_settings_from(files, i) < files.len() ==> files[first_settings_from(
            files,
            i,
        )].record is SettingsBlob,
        forall|j: int| i <= j < first_settings_from(files, i) ==> !(files[j].record is SettingsBlob),
    decreases files.len() - i,
{
    if i < files.len() && !(files[i].record is SettingsBlob) {
        lemma_first_settings_from(files, i + 1);
    }
}

/// A file is retained as unrecognized: it classified as such, or it is a
/// manifest or settings duplicate beyond the first.
pub open spec fn retained_unrecognized(files: Seq<ModFileModel>, i: int) -> bool {
    ||| files[i].record is Unrecognized
    ||| (files[i].record is ListManifest && i != first_manifest_from(files, 0))
    ||| (files[i].record is SettingsBlob && i != first_settings_from(files, 0))
}

/// The retained unrecognized files from index `i` on, in order.
pub open spec fn unrec_models(files: Seq<ModFileModel>, i: int) -> Seq<ModFileModel>
    decreases files.len() - i when 0 <= i <= files.len()
{
    if i >= files.len() {
        Seq::empty()
    } else if retained_unrecognized(files, i) {
        seq![files[i]] + unrec_models(files, i + 1)
    } else {
        unrec_models(files, i + 1)
    }
}

/// The package records from index `i` on: name and version, in order.
pub open spec fn packages_from(files: Seq<ModFileModel>, i: int) -> Seq<(Seq<char>, SemVerModel)>
    decreases files.len() - i when 0 <= i <= files.len()
{
    if i >= files.len() {
        Seq::empty()
    } else {
        (match files[i].record {
            RecordModel::Package { name, version } => seq![(name, version)],
            _ => Seq::empty(),
        }) + packages_from(files, i + 1)
    }
}

/// The names of a package sequence.
pub open spec fn package_names(pkgs: Seq<(Seq<char>, SemVerModel)>) -> Seq<Seq<char>> {
    pkgs.map_values(|p: (Seq<char>, SemVerModel)| p.0)
}

/// Each name at its first occurrence, in order.
pub open spec fn first_occurrences(s: Seq<Seq<char>>) -> Seq<Seq<char>>
    decreases s.len(),
{
    if s.len() == 0 {
        Seq::empty()
    } else {
        let d = first_occurrences(s.drop_last());
        if s.drop_last().contains(s.last()) {
            d
        } else {
            d.push(s.last())
        }
    }
}

/// `first_occurrences` keeps exactly the elements, each once.
pub proof fn lemma_first_occurrences(s: Seq<Seq<char>>)
    ensures
        forall|x: Seq<char>| #[trigger]
            first_occurrences(s).contains(x) <==> s.contains(x),
        first_occurrences(s).no_duplicates(),
    decreases s.len(),
{
    if s.len() > 0 {
        lemma_first_occurrences(s.drop_last());
        let d = first_occurrences(s.drop_last());
        assert forall|x: Seq<char>| #[trigger] first_occurrences(s).contains(x) implies s.contains(
            x,
        ) by {
            if d.contains(x) {
                assert(s.drop_last().contains(x));
                let i = choose|i: int| 0 <= i < s.len() - 1 && s.drop_last()[i] == x;
                assert(s[i] == x);
            } else {
                assert(s[s.len() - 1] == x);
            }
        }
        if !s.drop_last().contains(s.last()) {
            assert(!d.contains(s.last()));
            assert forall|a: int, b: int|
                0 <= a < b < first_occurrences(s).len() implies first_occurrences(s)[a]
                != first_occurrences(s)[b] by {
                if b < d.len() {
                    assert(first_occurrences(s)[a] == d[a] && first_occurrences(s)[b] == d[b]);
                } else {
                    assert(first_occurrences(s)[a] == d[a]);
                    assert(first_occurrences(s)[b] == s.last());
                    assert(d.contains(d[a]));
                }
            }
        }
        assert forall|x: Seq<char>| s.contains(x) implies #[trigger] first_occurrences(s).contains(
            x,
        ) by {
            let i = choose|i: int| 0 <= i < s.len() && s[i] == x;
            if i < s.len() - 1 {
                assert(s.drop_last()[i] == x);
                assert(d.contains(x));
                if !s.drop_last().contains(s.last()) {
                    let j = choose|j: int| 0 <= j < d.len() && d[j] == x;
                    assert(first_occurrences(s)[j] == x);
                }
            } else {
                if s.drop_last().contains(s.last()) {
                    assert(d.contains(x));
                } else {
                    assert(first_occurrences(s).last() == x);
                }
            }
        }
    }
}

/// The versions discovered for one package name.
pub open spec fn versions_of(pkgs: Seq<(Seq<char>, SemVerModel)>, name: Seq<char>) -> Set<
    SemVerModel,
> {
    Set::new(
        |v: SemVerModel| exists|i: int| 0 <= i < pkgs.len() && pkgs[i] == (name, v),
    )
}

/// Strictly ascending under the full (tie-broken) version order.
pub open spec fn strictly_sorted_full(vs: Seq<SemVerModel>) -> bool {
    forall|i: int| 0 <= i && i + 1 < vs.len() ==> ver_cmp_full(#[trigger] vs[i], vs[i + 1]) < 0
}

/// In a strictly sorted sequence every earlier element compares below
/// every later one.
pub proof fn lemma_sorted_pair(vs: Seq<SemVerModel>, i: int, j: int)
    requires
        strictly_sorted_full(vs),
        0 <= i < j < vs.len(),
    ensures
        ver_cmp_full(vs[i], vs[j]) < 0,
    decreases j - i,
{
    if j == i + 1 {
    } else {
        lemma_sorted_pair(vs, i, j - 1);
        lemma_ver_cmp_full_trans(vs[i], vs[j - 1], vs[j]);
    }
}

/// All discovered versions of one package, ascending, with the resolved
/// enabled state.
pub struct PackageGroup {
    pub name: String,
    pub versions: Vec<SemanticVersion>,
    pub enabled: Option<bool>,
}

/// The mathematical value of a `PackageGroup`.
pub struct PackageGroupModel {
    pub name: Seq<char>,
    pub versions: Seq<SemVerModel>,
    pub enabled: Option<bool>,
}

impl View for PackageGroup {
    type V = PackageGroupModel;

    open spec fn view(&self) -> PackageGroupModel {
        PackageGroupModel {
            name: self.name@,
            versions: self.versions@.map_values(|v: SemanticVersion| v@),
            enabled: self.enabled,
        }
    }
}

/// The group invariant: at least one version, strictly ascending (so also
/// non-decreasing under precedence, and free of duplicates).
pub open spec fn group_wf(g: PackageGroupModel) -> bool {
    g.versions.len() > 0 && strictly_sorted_full(g.versions)
}

/// The models of a sequence of groups.
pub open spec fn group_models(s: Seq<PackageGroup>) -> Seq<PackageGroupModel> {
    s.map_values(|g: PackageGroup| g@)
}

/// The names of a sequence of group models.
pub open spec fn group_names(s: Seq<PackageGroupModel>) -> Seq<Seq<char>> {
    s.map_values(|g: PackageGroupModel| g.name)
}

/// Insert a version into its place in a strictly sorted sequence; a
/// version already present (same value) is dropped.
#[verifier::rlimit(50)]
fn insert_version(versions: &mut Vec<SemanticVersion>, v: SemanticVersion)
    requires
        strictly_sorted_full(old(versions)@.map_values(|x: SemanticVersion| x@)),
    ensures
        strictly_sorted_full(final(versions)@.map_values(|x: SemanticVersion| x@)),
        final(versions)@.map_values(|x: SemanticVersion| x@).to_set() == old(
            versions,
        )@.map_values(|x: SemanticVersion| x@).to_set().insert(v@),
        final(versions)@.len() >= 1,
{
    let ghost olds = old(versions)@.map_values(|x: SemanticVersion| x@);
    let mut k: usize = 0;
    loop
        invariant_except_break
            k <= versions@.len(),
            versions@.map_values(|x: SemanticVersion| x@) == olds,
            strictly_sorted_full(olds),
            forall|j: int| 0 <= j < k ==> ver_cmp_full(#[trigger] olds[j], v@) < 0,
        ensures
            k <= versions@.len(),
            versions@.map_values(|x: SemanticVersion| x@) == olds,
            forall|j: int| 0 <= j < k ==> ver_cmp_full(#[trigger] olds[j], v@) < 0,
            k < olds.len() ==> ver_cmp_full(olds[k as int], v@) > 0,
        decreases versions@.len() - k,
    {
        if k == versions.len() {
            break;
        }
        let c = version_cmp_full(&versions[k], &v);
        if c == 0 {
            // already present
            proof {
                lemma_ver_cmp_full_eq(olds[k as int], v@);
                assert(olds.contains(v@));
                assert(olds.to_set() =~= olds.to_set().insert(v@));
            }
            return ;
        }
        if c > 0 {
            break;
        }
        k = k + 1;
    }
    // every earlier element is below v, and the element at k (if any) above
    proof {
        assert(k <= olds.len());
        assert(forall|j: int| 0 <= j < k ==> ver_cmp_full(#[trigger] olds[j], v@) < 0);
        if k < versions@.len() {
            lemma_ver_cmp_antisym(olds[k as int], v@);
            assert(ver_cmp_full(v@, olds[k as int]) < 0);
        }
    }
    versions.insert(k, v);
    proof {
        let news = versions@.map_values(|x: SemanticVersion| x@);
        old(versions)@.insert_ensures(k as int, v);
        assert(news.len() == olds.len() + 1);
        assert forall|j: int| 0 <= j < k implies #[trigger] news[j] == olds[j] by {
            assert(versions@[j] == old(versions)@[j]);
        }
        assert(news[k as int] == v@) by {
            assert(versions@[k as int] == v);
        }
        assert forall|j: int| k < j < news.len() implies #[trigger] news[j] == olds[j - 1] by {
            assert(versions@[j] == old(versions)@[j - 1]);
        }
        lemma_insert_sorted(olds, news, v@, k as int);
    }
}

/// Splicing a version between the elements below it and those above it
/// keeps the sequence strictly sorted and adds exactly it to the set.
proof fn lemma_insert_sorted(olds: Seq<SemVerModel>, news: Seq<SemVerModel>, v: SemVerModel, k: int)
    requires
        strictly_sorted_full(olds),
        0 <= k <= olds.len(),
        news.len() == olds.len() + 1,
        forall|j: int| 0 <= j < k ==> #[trigger] news[j] == olds[j],
        news[k] == v,
        forall|j: int| k < j < news.len() ==> #[trigger] news[j] == olds[j - 1],
        forall|j: int| 0 <= j < k ==> ver_cmp_full(#[trigger] olds[j], v) < 0,
        k < olds.len() ==> ver_cmp_full(v, olds[k]) < 0,
    ensures
        strictly_sorted_full(news),
        news.to_set() == olds.to_set().insert(v),
{
    assert forall|i: int| 0 <= i && i + 1 < news.len() implies ver_cmp_full(
        #[trigger] news[i],
        news[i + 1],
    ) < 0 by {
        if i + 1 < k {
            assert(news[i] == olds[i] && news[i + 1] == olds[i + 1]);
        } else if i + 1 == k {
            assert(news[i] == olds[i] && news[i + 1] == v);
            assert(ver_cmp_full(olds[i], v) < 0);
        } else if i == k {
            assert(news[i] == v && news[i + 1] == olds[i]);
            assert(ver_cmp_full(v, olds[i]) < 0);
        } else {
            assert(news[i] == olds[i - 1] && news[i + 1] == olds[i]);
        }
    }
    assert forall|x: SemVerModel| #[trigger] news.to_set().contains(x) implies olds.to_set().insert(
        v,
    ).contains(x) by {
        let j = choose|j: int| 0 <= j < news.len() && news[j] == x;
        if j < k {
            assert(olds[j] == x);
        } else if j > k {
            assert(olds[j - 1] == x);
        }
    }
    assert forall|x: SemVerModel| olds.to_set().insert(v).contains(x) implies #[trigger] news.to_set().contains(
        x,
    ) by {
        if x == v {
            assert(news[k] == x);
        } else {
            let j = choose|j: int| 0 <= j < olds.len() && olds[j] == x;
            if j < k {
                assert(news[j] == x);
            } else {
                assert(news[j + 1] == x);
            }
        }
    }
    assert(news.to_set() =~= olds.to_set().insert(v));
}

/// What the enabled map answers for a name: `None` where the name is
/// absent (a reportable anomaly, not an error).
pub open spec fn lookup(m: Map<Seq<char>, bool>, name: Seq<char>) -> Option<bool> {
    if m.contains_key(name) {
        Some(m[name])
    } else {
        None
    }
}

/// The groups describe exactly the packages `pkgs` under the map `emap`:
/// one group per name in first-encounter order, each holding exactly the
/// versions discovered for its name, strictly ascending, with the resolved
/// enabled state.
pub open spec fn groups_ok(
    gs: Seq<PackageGroupModel>,
    pkgs: Seq<(Seq<char>, SemVerModel)>,
    emap: Map<Seq<char>, bool>,
) -> bool {
    &&& group_names(gs) == first_occurrences(package_names(pkgs))
    &&& forall|i: int| 0 <= i < gs.len() ==> group_wf(#[trigger] gs[i])
    &&& forall|i: int|
        0 <= i < gs.len() ==> (#[trigger] gs[i]).versions.to_set() == versions_of(pkgs, gs[i].name)
    &&& forall|i: int| 0 <= i < gs.len() ==> (#[trigger] gs[i]).enabled == lookup(emap, gs[i].name)
}

/// No file classified as the list manifest.
#[derive(Debug)]
pub struct MissingManifest;

/// The reconciled result of one run over a directory.
pub struct Inventory {
    /// One group per discovered package name.
    pub groups: Vec<PackageGroup>,
    /// The manifest file: the first entry classified as such.
    pub manifest: ModFile,
    /// The settings file, where one was found.
    pub settings: Option<ModFile>,
    /// Unrecognized entries, and manifest or settings duplicates, in order.
    pub unrecognized: Vec<ModFile>,
    /// The enabled map, with the built-in package name removed.
    pub enabled_map: ModListMap,
    /// How many entries classified as packages.
    pub package_count: usize,
    /// How many entries there were in all.
    pub file_count: usize,
}

/// The inventory is exactly what the classified files and the enabled map
/// determine.
pub open spec fn inventory_ok(
    inv: Inventory,
    files: Seq<ModFileModel>,
    emap0: Map<Seq<char>, bool>,
    builtin: Seq<char>,
) -> bool {
    let emap = emap0.remove(builtin);
    let pkgs = packages_from(files, 0);
    &&& first_manifest_from(files, 0) < files.len()
    &&& inv.manifest@ == files[first_manifest_from(files, 0)]
    &&& (match inv.settings {
        Some(sf) => first_settings_from(files, 0) < files.len() && sf@ == files[first_settings_from(
            files,
            0,
        )],
        None => first_settings_from(files, 0) == files.len(),
    })
    &&& file_models(inv.unrecognized@) == unrec_models(files, 0)
    &&& inv.enabled_map@ == emap
    &&& inv.enabled_map.wf()
    &&& inv.package_count == pkgs.len()
    &&& inv.file_count == files.len()
    &&& groups_ok(group_models(inv.groups@), pkgs, emap)
}

/// Index of the group named `name`, if any.
fn find_group(groups: &Vec<PackageGroup>, name: &str) -> (r: Option<usize>)
    ensures
        match r {
            Some(g) => g < groups@.len() && group_models(groups@)[g as int].name == name@,
            None => forall|j: int|
                0 <= j < groups@.len() ==> group_models(groups@)[j].name != name@,
        },
{
    let mut i: usize = 0;
    while i < groups.len()
        invariant
            i <= groups@.len(),
            forall|j: int| 0 <= j < i ==> group_models(groups@)[j].name != name@,
        decreases groups@.len() - i,
    {
        if str_eq(groups[i].name.as_str(), name) {
            return Some(i);
        }
        i = i + 1;
    }
    None
}

/// Build the inventory: select the first manifest and settings entries,
/// retain the rest as unrecognized, drop the built-in name from the
/// enabled map, and group the packages. Fails exactly where no entry
/// classified as the list manifest.
#[verifier::rlimit(100)]
pub fn build_inventory(files: Vec<ModFile>, enabled: ModListMap, builtin: &str) -> (r: Result<
    Inventory,
    MissingManifest,
>)
    requires
        enabled.wf(),
    ensures
        match r {
            Ok(inv) => inventory_ok(inv, file_models(files@), enabled@, builtin@),
            Err(e) => first_manifest_from(file_models(files@), 0) == file_models(files@).len(),
        },
{
    let total_files = files.len();
    let ghost models = file_models(files@);
    let ghost fm = first_manifest_from(models, 0);
    let ghost fs = first_settings_from(models, 0);
    proof {
        lemma_first_manifest_from(models, 0);
        lemma_first_settings_from(models, 0);
    }
    let mut emap = enabled;
    emap.remove_name(builtin);
    let mut groups: Vec<PackageGroup> = Vec::new();
    let mut manifest: Option<ModFile> = None;
    let mut settings: Option<ModFile> = None;
    let mut unrecognized: Vec<ModFile> = Vec::new();
    let mut package_count: usize = 0;
    let mut rest = files;
    let ghost mut i: int = 0;
    let ghost mut done: Seq<(Seq<char>, SemVerModel)> = Seq::empty();
    proof {
        assert(file_models(rest@) =~= models.skip(0));
        assert(Seq::<(Seq<char>, SemVerModel)>::empty() + packages_from(models, 0)
            =~= packages_from(models, 0));
        assert(group_names(group_models(groups@)) =~= Seq::<Seq<char>>::empty());
        assert(package_names(done) =~= Seq::<Seq<char>>::empty());
        assert(file_models(unrecognized@) =~= Seq::<ModFileModel>::empty());
        assert(file_models(unrecognized@) + unrec_models(models, 0) =~= unrec_models(models, 0));
    }
    while rest.len() > 0
        invariant
            0 <= i <= models.len(),
            file_models(rest@) == models.skip(i),
            emap.wf(),
            emap@ == enabled@.remove(builtin@),
            match manifest {
                Some(m) => fm < i && m@ == models[fm],
                None => fm >= i,
            },
            match settings {
                Some(sf) => fs < i && sf@ == models[fs],
                None => fs >= i,
            },
            unrec_models(models, 0) == file_models(unrecognized@) + unrec_models(models, i),
            packages_from(models, 0) == done + packages_from(models, i),
            package_count == done.len(),
            done.len() <= i,
            groups_ok(group_models(groups@), done, emap@),
            models.len() == total_files,
            fm == first_manifest_from(models, 0),
            fs == first_settings_from(models, 0),
        decreases rest@.len(),
    {
        proof {
            lemma_first_manifest_from(models, 0);
            lemma_first_settings_from(models, 0);
            assert(models.skip(i).len() == rest@.len());
            assert(i < models.len());
            assert(models.skip(i)[0] == models[i]);
            assert(file_models(rest@)[0] == rest@[0]@);
        }
        let f = rest.remove(0);
        proof {
            assert(f@ == models[i]);
            assert(file_models(rest@) =~= models.skip(i + 1)) by {
                assert(forall|j: int|
                    0 <= j < rest@.len() ==> #[trigger] file_models(rest@)[j] == models.skip(i)[j
                        + 1]);
            }
        }
        let ghost old_unrec = file_models(unrecognized@);
        let ModFile { file_name, record } = f;
        match record {
            ClassifiedRecord::ListManifest => {
                if manifest.is_none() {
                    proof {
                        assert(fm == i);
                        assert(!retained_unrecognized(models, i));
                        assert(unrec_models(models, i) == unrec_models(models, i + 1));
                    }
                    manifest = Some(ModFile { file_name, record: ClassifiedRecord::ListManifest });
                } else {
                    proof {
                        assert(retained_unrecognized(models, i));
                        assert(unrec_models(models, i) == seq![models[i]] + unrec_models(
                            models,
                            i + 1,
                        ));
                    }
                    unrecognized.push(ModFile { file_name, record: ClassifiedRecord::ListManifest });
                    proof {
                        assert(file_models(unrecognized@) =~= old_unrec + seq![models[i]]);
                        assert((old_unrec + seq![models[i]]) + unrec_models(models, i + 1)
                            =~= old_unrec + (seq![models[i]] + unrec_models(models, i + 1)));
                    }
                }
                proof {
                    assert(packages_from(models, i) == Seq::<(Seq<char>, SemVerModel)>::empty()
                        + packages_from(models, i + 1));
                    assert(Seq::<(Seq<char>, SemVerModel)>::empty() + packages_from(models, i + 1)
                        =~= packages_from(models, i + 1));
                }
            },
            ClassifiedRecord::SettingsBlob => {
                if settings.is_none() {
                    proof {
                        assert(fs == i);
                        assert(!retained_unrecognized(models, i));
                        assert(unrec_models(models, i) == unrec_models(models, i + 1));
                    }
                    settings = Some(ModFile { file_name, record: ClassifiedRecord::SettingsBlob });
                } else {
                    proof {
                        assert(retained_unrecognized(models, i));
                        assert(unrec_models(models, i) == seq![models[i]] + unrec_models(
                            models,
                            i + 1,
                        ));
                    }
                    unrecognized.push(ModFile { file_name, record: ClassifiedRecord::SettingsBlob });
                    proof {
                        assert(file_models(unrecognized@) =~= old_unrec + seq![models[i]]);
                        assert((old_unrec + seq![models[i]]) + unrec_models(models, i + 1)
                            =~= old_unrec + (seq![models[i]] + unrec_models(models, i + 1)));
                    }
                }
                proof {
                    assert(Seq::<(Seq<char>, SemVerModel)>::empty() + packages_from(models, i + 1)
                        =~= packages_from(models, i + 1));
                }
            },
            ClassifiedRecord::Unrecognized => {
                proof {
                    assert(retained_unrecognized(models, i));
                    assert(unrec_models(models, i) == seq![models[i]] + unrec_models(models, i + 1));
                }
                unrecognized.push(ModFile { file_name, record: ClassifiedRecord::Unrecognized });
                proof {
                    assert(file_models(unrecognized@) =~= old_unrec + seq![models[i]]);
                    assert((old_unrec + seq![models[i]]) + unrec_models(models, i + 1) =~= old_unrec
                        + (seq![models[i]] + unrec_models(models, i + 1)));
                    assert(Seq::<(Seq<char>, SemVerModel)>::empty() + packages_from(models, i + 1)
                        =~= packages_from(models, i + 1));
                }
            },
            ClassifiedRecord::Package { name, version } => {
                let ghost p = (name@, version@);
                let ghost old_done = done;
                let ghost old_gs = group_models(groups@);
                proof {
                    assert(!retained_unrecognized(models, i));
                    assert(unrec_models(models, i) == unrec_models(models, i + 1));
                    assert(packages_from(models, i) == seq![p] + packages_from(models, i + 1));
                    assert((old_done + seq![p]) + packages_from(models, i + 1) =~= old_done + (seq![
                        p,
                    ] + packages_from(models, i + 1)));
                    done = old_done.push(p);
                    assert(old_done + seq![p] =~= done);
                    assert(package_names(done) =~= package_names(old_done).push(p.0));
                    assert(package_names(done).drop_last() =~= package_names(old_done));
                    lemma_first_occurrences(package_names(old_done));
                }
                package_count = package_count + 1;
                match find_group(&groups, name.as_str()) {
                    Some(g) => {
                        proof {
                            assert(group_names(old_gs)[g as int] == name@);
                            assert(group_names(old_gs).contains(name@));
                            assert(package_names(old_done).contains(name@));
                            assert(first_occurrences(package_names(done)) == first_occurrences(
                                package_names(old_done),
                            ));
                        }
                        let mut grp = groups.remove(g);
                        proof {
                            groups@.insert_ensures(g as int, grp);
                        }
                        insert_version(&mut grp.versions, version);
                        let ghost newg = grp@;
                        groups.insert(g, grp);
                        proof {
                            old_gs[g as int].versions.to_set();
                            assert(group_models(groups@) =~= old_gs.update(g as int, newg)) by {
                                assert forall|j: int|
                                    0 <= j < old_gs.len() implies #[trigger] group_models(groups@)[j]
                                    == old_gs.update(g as int, newg)[j] by {
                                    if j < g {
                                    } else if j == g {
                                    } else {
                                    }
                                }
                            }
                            let gs = group_models(groups@);
                            assert(group_names(gs) =~= group_names(old_gs));
                            assert(newg.name == name@);
                            assert(newg.versions.to_set() == versions_of(old_done, name@).insert(
                                version@,
                            ));
                            lemma_versions_of_push(old_done, p, name@);
                            assert(newg.versions.to_set() == versions_of(done, name@));
                            assert forall|j: int| 0 <= j < gs.len() implies (#[trigger] gs[j]).versions.to_set()
                                == versions_of(done, gs[j].name) by {
                                if j != g {
                                    assert(gs[j] == old_gs[j]);
                                    lemma_first_occurrences(package_names(old_done));
                                    assert(group_names(old_gs).no_duplicates());
                                    assert(group_names(old_gs)[j] == gs[j].name);
                                    assert(gs[j].name != name@);
                                    lemma_versions_of_push_other(old_done, p, gs[j].name);
                                }
                            }
                        }
                    },
                    None => {
                        proof {
                            assert forall|j: int|
                                0 <= j < group_names(old_gs).len() implies #[trigger] group_names(
                                old_gs,
                            )[j] != name@ by {
                                assert(group_names(old_gs)[j] == old_gs[j].name);
                            }
                            assert(!group_names(old_gs).contains(name@));
                            assert(!package_names(old_done).contains(name@));
                            assert(first_occurrences(package_names(done)) == first_occurrences(
                                package_names(old_done),
                            ).push(name@));
                        }
                        let enab = emap.get(name.as_str());
                        let mut vs: Vec<SemanticVersion> = Vec::new();
                        vs.push(version);
                        let grp = PackageGroup { name, versions: vs, enabled: enab };
                        let ghost newg = grp@;
                        groups.push(grp);
                        proof {
                            assert(newg.versions =~= seq![version@]);
                            assert(group_models(groups@) =~= old_gs.push(newg));
                            let gs = group_models(groups@);
                            assert(group_names(gs) =~= group_names(old_gs).push(name@));
                            assert(newg.versions.to_set() =~= versions_of(done, name@)) by {
                                lemma_versions_of_push(old_done, p, name@);
                                assert(versions_of(old_done, name@) =~= Set::<SemVerModel>::empty())
                                    by {
                                    assert forall|v: SemVerModel|
                                        !(#[trigger] versions_of(old_done, name@).contains(v)) by {
                                        if versions_of(old_done, name@).contains(v) {
                                            let j = choose|j: int|
                                                0 <= j < old_done.len() && old_done[j] == (name@, v);
                                            assert(package_names(old_done)[j] == name@);
                                        }
                                    }
                                }
                                assert(newg.versions[0] == version@);
                                assert forall|x: SemVerModel| #[trigger] newg.versions.to_set().contains(
                                    x,
                                ) implies x == version@ by {
                                    let j = choose|j: int|
                                        0 <= j < newg.versions.len() && newg.versions[j] == x;
                                }
                                assert(newg.versions.contains(version@));
                            }
                            assert forall|j: int| 0 <= j < gs.len() implies (#[trigger] gs[j]).versions.to_set()
                                == versions_of(done, gs[j].name) by {
                                if j < old_gs.len() {
                                    assert(gs[j] == old_gs[j]);
                                    assert(group_names(old_gs)[j] == gs[j].name);
                                    assert(gs[j].name != name@);
                                    lemma_versions_of_push_other(old_done, p, gs[j].name);
                                } else {
                                    assert(gs[j] == newg);
                                }
                            }
                            assert(group_wf(newg));
                        }
                    },
                }
            },
        }
        proof {
            i = i + 1;
        }
    }
    proof {
        assert(models.skip(i).len() == 0);
        assert(i == models.len());
        assert(unrec_models(models, i) =~= Seq::<ModFileModel>::empty());
        assert(file_models(unrecognized@) + Seq::<ModFileModel>::empty() =~= file_models(
            unrecognized@,
        ));
        assert(packages_from(models, i) =~= Seq::<(Seq<char>, SemVerModel)>::empty());
        assert(done + Seq::<(Seq<char>, SemVerModel)>::empty() =~= done);
    }
    match manifest {
        None => {
            proof {
                assert(fm >= models.len());
                assert(fm == models.len());
            }
            Err(MissingManifest)
        },
        Some(m) => {
            Ok(
                Inventory {
                    groups,
                    manifest: m,
                    settings,
                    unrecognized,
                    enabled_map: emap,
                    package_count,
                    file_count: total_files,
                },
            )
        },
    }
}

/// Within every well-formed group the versions are non-decreasing under
/// semantic-version precedence, and the representative — the last — is
/// maximal: no version of the group exceeds it.
pub proof fn lemma_group_version_order(g: PackageGroupModel)
    requires
        group_wf(g),
    ensures
        forall|i: int, j: int|
            0 <= i <= j < g.versions.len() ==> ver_le(
                #[trigger] g.versions[i],
                #[trigger] g.versions[j],
            ),
        forall|i: int|
            0 <= i < g.versions.len() ==> ver_le(#[trigger] g.versions[i], g.versions.last()),
{
    let vs = g.versions;
    assert forall|i: int, j: int| 0 <= i <= j < vs.len() implies ver_le(
        #[trigger] vs[i],
        #[trigger] vs[j],
    ) by {
        lemma_ver_cmp_range(vs[i], vs[j]);
        if i < j {
            lemma_sorted_pair(vs, i, j);
        } else {
            lemma_ver_cmp_full_eq(vs[i], vs[j]);
        }
    }
    assert(vs[vs.len() - 1] == vs.last());
}

/// Two strictly ascending sequences carrying the same set of versions are
/// the same sequence: the sorted, duplicate-free form is canonical.
/// In two strictly ascending sequences over the same set, the last
/// elements agree: each is the maximum of that set.
proof fn lemma_sorted_last_eq(a: Seq<SemVerModel>, b: Seq<SemVerModel>)
    requires
        strictly_sorted_full(a),
        strictly_sorted_full(b),
        a.to_set() == b.to_set(),
        a.len() > 0,
        b.len() > 0,
    ensures
        a.last() == b.last(),
{
    assert(a.contains(a.last())) by {
        assert(a[a.len() - 1] == a.last());
    }
    assert(a.to_set().contains(a.last()));
    assert(b.to_set().contains(a.last()));
    assert(b.contains(a.last()));
    assert(b.contains(b.last())) by {
        assert(b[b.len() - 1] == b.last());
    }
    assert(b.to_set().contains(b.last()));
    assert(a.to_set().contains(b.last()));
    assert(a.contains(b.last()));
    let jx = choose|j: int| 0 <= j < b.len() && b[j] == a.last();
    let jy = choose|j: int| 0 <= j < a.len() && a[j] == b.last();
    lemma_ver_cmp_antisym(a.last(), b.last());
    lemma_ver_cmp_full_eq(a.last(), b.last());
    if a.last() != b.last() {
        assert(jx < b.len() - 1) by {
            if jx == b.len() - 1 {
                assert(b[jx] == b.last());
            }
        }
        lemma_sorted_pair(b, jx, b.len() - 1);
        assert(jy < a.len() - 1) by {
            if jy == a.len() - 1 {
                assert(a[jy] == a.last());
            }
        }
        lemma_sorted_pair(a, jy, a.len() - 1);
    }
}

/// Two strictly ascending sequences carrying the same set of versions are
/// the same sequence: the sorted, duplicate-free form is canonical.
pub proof fn lemma_strictly_sorted_unique(a: Seq<SemVerModel>, b: Seq<SemVerModel>)
    requires
        strictly_sorted_full(a),
        strictly_sorted_full(b),
        a.to_set() == b.to_set(),
    ensures
        a == b,
    decreases a.len(),
{
    if a.len() == 0 || b.len() == 0 {
        if a.len() == 0 && b.len() > 0 {
            assert(b.contains(b[0]));
            assert(b.to_set().contains(b[0]));
            assert(a.to_set().contains(b[0]));
            assert(a.contains(b[0]));
        }
        if b.len() == 0 && a.len() > 0 {
            assert(a.contains(a[0]));
            assert(a.to_set().contains(a[0]));
            assert(b.to_set().contains(a[0]));
            assert(b.contains(a[0]));
        }
        assert(a =~= b);
    } else {
        lemma_sorted_last_eq(a, b);
        assert(strictly_sorted_full(a.drop_last())) by {
            assert(forall|i: int|
                0 <= i < a.len() - 1 ==> #[trigger] a.drop_last()[i] == a[i]);
        }
        assert(strictly_sorted_full(b.drop_last())) by {
            assert(forall|i: int|
                0 <= i < b.len() - 1 ==> #[trigger] b.drop_last()[i] == b[i]);
        }
        lemma_drop_last_set(a);
        lemma_drop_last_set(b);
        assert(a.last() == b.last());
        assert(a.to_set().remove(a.last()) == b.to_set().remove(b.last()));
        assert(a.drop_last().to_set() == b.drop_last().to_set());
        lemma_strictly_sorted_unique(a.drop_last(), b.drop_last());
        assert(a.len() == b.len());
        assert forall|i: int| 0 <= i < a.len() implies a[i] == b[i] by {
            if i < a.len() - 1 {
                assert(a.drop_last()[i] == a[i]);
                assert(b.drop_last()[i] == b[i]);
            } else {
                assert(a[a.len() - 1] == a.last());
                assert(b[b.len() - 1] == b.last());
            }
        }
        assert(a =~= b);
    }
}

/// Dropping the last element of a strictly ascending sequence removes
/// exactly it from the set.
proof fn lemma_drop_last_set(a: Seq<SemVerModel>)
    requires
        strictly_sorted_full(a),
        a.len() > 0,
    ensures
        a.drop_last().to_set() == a.to_set().remove(a.last()),
{
    let x = a.last();
    assert forall|z: SemVerModel| #[trigger] a.drop_last().to_set().contains(z)
        implies a.to_set().remove(x).contains(z) by {
        let i = choose|i: int| 0 <= i < a.drop_last().len() && a.drop_last()[i] == z;
        assert(a[i] == z);
        lemma_sorted_pair(a, i, a.len() - 1);
        lemma_ver_cmp_full_eq(z, x);
    }
    assert forall|z: SemVerModel| #[trigger] a.to_set().remove(x).contains(z)
        implies a.drop_last().to_set().contains(z) by {
        let i = choose|i: int| 0 <= i < a.len() && a[i] == z;
        assert(i < a.len() - 1) by {
            if i == a.len() - 1 {
                assert(z == x);
            }
        }
        assert(a.drop_last()[i] == z);
    }
    assert(a.drop_last().to_set() =~= a.to_set().remove(x));
}

/// One direction of grouping determinism: every group of a run stands in
/// the other run's groups, given the same package set and enabled map.
proof fn lemma_grouping_subset(
    gs1: Seq<PackageGroupModel>,
    gs2: Seq<PackageGroupModel>,
    pkgs1: Seq<(Seq<char>, SemVerModel)>,
    pkgs2: Seq<(Seq<char>, SemVerModel)>,
    emap: Map<Seq<char>, bool>,
)
    requires
        groups_ok(gs1, pkgs1, emap),
        groups_ok(gs2, pkgs2, emap),
        pkgs1.to_set() == pkgs2.to_set(),
    ensures
        forall|g: PackageGroupModel| #[trigger]
            gs1.to_set().contains(g) ==> gs2.to_set().contains(g),
{
    lemma_first_occurrences(package_names(pkgs1));
    lemma_first_occurrences(package_names(pkgs2));
    assert forall|g: PackageGroupModel| #[trigger] gs1.to_set().contains(g)
        implies gs2.to_set().contains(g) by {
        let i = choose|i: int| 0 <= i < gs1.len() && gs1[i] == g;
        assert(group_names(gs1)[i] == g.name);
        assert(group_names(gs1).contains(g.name));
        assert(package_names(pkgs1).contains(g.name));
        let w = choose|w: int| 0 <= w < pkgs1.len() && package_names(pkgs1)[w] == g.name;
        assert(pkgs1[w].0 == g.name);
        assert(pkgs1.to_set().contains(pkgs1[w])) by {
            assert(pkgs1.contains(pkgs1[w]));
        }
        assert(pkgs2.contains(pkgs1[w]));
        let u = choose|u: int| 0 <= u < pkgs2.len() && pkgs2[u] == pkgs1[w];
        assert(package_names(pkgs2)[u] == g.name);
        assert(package_names(pkgs2).contains(g.name));
        assert(group_names(gs2).contains(g.name));
        let j = choose|j: int| 0 <= j < group_names(gs2).len() && group_names(gs2)[j] == g.name;
        assert(gs2[j].name == g.name);
        assert(versions_of(pkgs1, g.name) =~= versions_of(pkgs2, g.name)) by {
            assert forall|v: SemVerModel| #[trigger] versions_of(pkgs1, g.name).contains(v)
                implies versions_of(pkgs2, g.name).contains(v) by {
                let t = choose|t: int| 0 <= t < pkgs1.len() && pkgs1[t] == (g.name, v);
                assert(pkgs1.contains(pkgs1[t]));
                assert(pkgs1.to_set().contains(pkgs1[t]));
                assert(pkgs2.to_set().contains(pkgs1[t]));
                assert(pkgs2.contains(pkgs1[t]));
                let t2 = choose|t2: int| 0 <= t2 < pkgs2.len() && pkgs2[t2] == (g.name, v);
            }
            assert forall|v: SemVerModel| #[trigger] versions_of(pkgs2, g.name).contains(v)
                implies versions_of(pkgs1, g.name).contains(v) by {
                let t = choose|t: int| 0 <= t < pkgs2.len() && pkgs2[t] == (g.name, v);
                assert(pkgs2.contains(pkgs2[t]));
                assert(pkgs2.to_set().contains(pkgs2[t]));
                assert(pkgs1.to_set().contains(pkgs2[t]));
                assert(pkgs1.contains(pkgs2[t]));
                let t2 = choose|t2: int| 0 <= t2 < pkgs1.len() && pkgs1[t2] == (g.name, v);
            }
        }
        lemma_strictly_sorted_unique(gs1[i].versions, gs2[j].versions);
        assert(gs2[j] == g);
        assert(gs2.contains(gs2[j]));
    }
}

/// Grouping is idempotent and order-blind: two runs whose inputs carry
/// the same set of packages, reconciled against the same enabled map,
/// yield identical sets of package groups (the canonical sorted version
/// lists make each group unique for its name).
pub proof fn lemma_grouping_set_determined(
    gs1: Seq<PackageGroupModel>,
    gs2: Seq<PackageGroupModel>,
    pkgs1: Seq<(Seq<char>, SemVerModel)>,
    pkgs2: Seq<(Seq<char>, SemVerModel)>,
    emap: Map<Seq<char>, bool>,
)
    requires
        groups_ok(gs1, pkgs1, emap),
        groups_ok(gs2, pkgs2, emap),
        pkgs1.to_set() == pkgs2.to_set(),
    ensures
        gs1.to_set() == gs2.to_set(),
{
    lemma_grouping_subset(gs1, gs2, pkgs1, pkgs2, emap);
    lemma_grouping_subset(gs2, gs1, pkgs2, pkgs1, emap);
    assert(gs1.to_set() =~= gs2.to_set());
}

/// There are never more packages than files.
pub proof fn lemma_packages_from_len(files: Seq<ModFileModel>, i: int)
    requires
        0 <= i <= files.len(),
    ensures
        packages_from(files, i).len() <= files.len() - i,
    decreases files.len() - i,
{
    if i < files.len() {
        lemma_packages_from_len(files, i + 1);
    }
}

/// Does any entry classify as the list manifest?
pub fn has_manifest(files: &Vec<ModFile>) -> (r: bool)
    ensures
        r == (first_manifest_from(file_models(files@), 0) < file_models(files@).len()),
{
    let ghost models = file_models(files@);
    let mut i: usize = 0;
    while i < files.len()
        invariant
            i <= models.len(),
            models == file_models(files@),
            forall|j: int| 0 <= j < i ==> !((#[trigger] models[j]).record is ListManifest),
        decreases models.len() - i,
    {
        let hit = match &files[i].record {
            ClassifiedRecord::ListManifest => true,
            _ => false,
        };
        if hit {
            proof {
                lemma_first_manifest_from(models, 0);
                assert(models[i as int].record is ListManifest);
            }
            return true;
        }
        i = i + 1;
    }
    proof {
        lemma_first_manifest_from(models, 0);
        if first_manifest_from(models, 0) < models.len() {
            assert(models[first_manifest_from(models, 0)].record is ListManifest);
        }
    }
    false
}

/// Appending a package of name `name` adds exactly its version to that
/// name's version set.
proof fn lemma_versions_of_push(
    pkgs: Seq<(Seq<char>, SemVerModel)>,
    p: (Seq<char>, SemVerModel),
    name: Seq<char>,
)
    requires
        p.0 == name,
    ensures
        versions_of(pkgs.push(p), name) == versions_of(pkgs, name).insert(p.1),
{
    let a = versions_of(pkgs.push(p), name);
    let b = versions_of(pkgs, name).insert(p.1);
    assert forall|v: SemVerModel| #[trigger] a.contains(v) implies b.contains(v) by {
        let j = choose|j: int| 0 <= j < pkgs.push(p).len() && pkgs.push(p)[j] == (name, v);
        if j < pkgs.len() {
            assert(pkgs[j] == (name, v));
        }
    }
    assert forall|v: SemVerModel| #[trigger] b.contains(v) implies a.contains(v) by {
        if v == p.1 {
            assert(pkgs.push(p)[pkgs.len() as int] == (name, v));
        } else {
            let j = choose|j: int| 0 <= j < pkgs.len() && pkgs[j] == (name, v);
            assert(pkgs.push(p)[j] == (name, v));
        }
    }
    assert(a =~= b);
}

/// Appending a package of another name leaves a name's version set as it
/// was.
proof fn lemma_versions_of_push_other(
    pkgs: Seq<(Seq<char>, SemVerModel)>,
    p: (Seq<char>, SemVerModel),
    name: Seq<char>,
)
    requires
        p.0 != name,
    ensures
        versions_of(pkgs.push(p), name) == versions_of(pkgs, name),
{
    let a = versions_of(pkgs.push(p), name);
    let b = versions_of(pkgs, name);
    assert forall|v: SemVerModel| #[trigger] a.contains(v) implies b.contains(v) by {
        let j = choose|j: int| 0 <= j < pkgs.push(p).len() && pkgs.push(p)[j] == (name, v);
        assert(j < pkgs.len());
        assert(pkgs[j] == (name, v));
    }
    assert forall|v: SemVerModel| #[trigger] b.contains(v) implies a.contains(v) by {
        let j = choose|j: int| 0 <= j < pkgs.len() && pkgs[j] == (name, v);
        assert(pkgs.push(p)[j] == (name, v));
    }
    assert(a =~= b);
}

} // verus!
