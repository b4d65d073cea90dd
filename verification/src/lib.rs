//! Inventory of an add-on ("mod") directory: classify file names into typed
//! records, read the `mod-list.json` manifest, group package archives by
//! name, sort their versions, and produce a deterministic, sorted report.
//!
//! The pipeline is pure: the caller enumerates the directory and reads the
//! manifest bytes; [`run`] takes the file names and the manifest text and
//! returns the report rows and summary counters, or the error the input
//! determines.

use vstd::prelude::*;

pub mod chars;
pub mod classify;
pub mod inventory;
pub mod mod_list;
pub mod report;
pub mod semver;

use crate::classify::spec_classify;
use crate::inventory::{build_inventory, classify_all, file_models, first_manifest_from,
    first_occurrences, group_models, group_names, has_manifest, inventory_ok,
    lemma_first_occurrences, lemma_packages_from_len, package_names, packages_from, Inventory,
    ModFileModel};
use crate::mod_list::{enabled_map_of, spec_parse_mod_list, try_parse_mod_list_map};
use crate::report::{report_ok, report_rows, row_models, summarize, ReportRow, Summary};

verus! {

/// What a run can fail with: no manifest file in the directory, or a
/// manifest that does not parse.
#[derive(Debug)]
pub enum RunError {
    MissingManifest,
    ManifestParse,
}

/// Everything one run produces: the reconciled inventory, the ordered
/// report rows, and the summary counters.
pub struct RunOutput {
    pub inventory: Inventory,
    pub rows: Vec<ReportRow>,
    pub summary: Summary,
}

/// The classified models the directory's names denote.
pub open spec fn name_models(names: Seq<String>) -> Seq<ModFileModel> {
    names.map_values(
        |n: String| ModFileModel { file_name: n@, record: spec_classify(n@) },
    )
}

/// One whole run: classify the names, read the manifest, build the
/// inventory, and report. `manifest_contents` is the text of the file the
/// classifier names the manifest, or `None` where it could not be read;
/// `builtin` is the host application's own package name, which is dropped
/// from the enabled map. Fails with `MissingManifest` exactly where no
/// name classifies as the manifest or its contents are absent, and with
/// `ManifestParse` exactly where the contents do not parse.
pub fn run(names: &Vec<String>, manifest_contents: Option<&str>, builtin: &str) -> (r: Result<
    RunOutput,
    RunError,
>)
    ensures
        ({
            let models = name_models(names@);
            match r {
                Err(RunError::MissingManifest) => first_manifest_from(models, 0) == models.len()
                    || manifest_contents is None,
                Err(RunError::ManifestParse) => first_manifest_from(models, 0) < models.len()
                    && manifest_contents is Some && spec_parse_mod_list(
                    manifest_contents->0@,
                ) is None,
                Ok(out) => {
                    &&& first_manifest_from(models, 0) < models.len()
                    &&& manifest_contents is Some
                    &&& spec_parse_mod_list(manifest_contents->0@) is Some
                    &&& inventory_ok(
                        out.inventory,
                        models,
                        enabled_map_of(spec_parse_mod_list(manifest_contents->0@)->0),
                        builtin@,
                    )
                    &&& report_ok(row_models(out.rows@), group_models(out.inventory.groups@))
                    &&& out.summary.package_count == out.inventory.package_count
                    &&& out.summary.non_package_count == out.inventory.file_count
                        - out.inventory.package_count
                    &&& out.summary.manifest_found
                    &&& out.summary.settings_found == (out.inventory.settings is Some)
                    &&& out.summary.unrecognized_count == out.inventory.unrecognized@.len()
                },
            }
        }),
{
    let files = classify_all(names);
    proof {
        assert(file_models(files@) =~= name_models(names@));
    }
    if !has_manifest(&files) {
        proof {
            crate::inventory::lemma_first_manifest_from(name_models(names@), 0);
        }
        return Err(RunError::MissingManifest);
    }
    let contents = match manifest_contents {
        Some(c) => c,
        None => {
            return Err(RunError::MissingManifest);
        },
    };
    let map = match try_parse_mod_list_map(contents) {
        Ok(m) => m,
        Err(e) => {
            return Err(RunError::ManifestParse);
        },
    };
    let inv = match build_inventory(files, map, builtin) {
        Ok(i) => i,
        Err(e) => {
            // unreachable: a manifest entry was just found
            proof {
                assert(false);
            }
            return Err(RunError::MissingManifest);
        },
    };
    proof {
        let models = name_models(names@);
        let pkgs = packages_from(models, 0);
        lemma_first_occurrences(package_names(pkgs));
        assert(group_names(group_models(inv.groups@)).no_duplicates());
        lemma_packages_from_len(models, 0);
    }
    let rows = report_rows(&inv);
    let summary = summarize(&inv);
    Ok(RunOutput { inventory: inv, rows, summary })
}

} // verus!
