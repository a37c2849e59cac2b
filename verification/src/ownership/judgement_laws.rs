//! What counts as a defect, stated of the files, packages, teams and rules of a project.

use crate::lists;
use crate::ownership::file_owner_finder;
use crate::ownership::file_owner_finder::OwnerView;
use crate::ownership::mapper::OwnerMatcherView;
use crate::ownership::rule_laws::law_an_attributed_path_has_an_owner;
use crate::ownership::validator;
use crate::ownership::validator::ErrorView;
use crate::path;
use crate::path_utils;
use crate::project::{PackageView, ProjectFileView, ProjectView};
use vstd::prelude::*;

verus! {

/// Each annotation that names no team is a defect, in the order of the files.
pub proof fn law_every_annotation_is_judged(project: ProjectView, files: Seq<ProjectFileView>)
    ensures
        validator::annotation_errors(project, files) == files.filter(
            |f: ProjectFileView|
                f.owner is Some && (forall|i: int|
                    0 <= i < project.teams.len() ==> (#[trigger] project.teams[i]).name != f.owner->0),
        ).map_values(
            |f: ProjectFileView|
                ErrorView::InvalidTeam {
                    name: f.owner->0,
                    path: path_utils::relative_text(project.base_path, f.path),
                },
        ),
    decreases files.len(),
{
    let p = |f: ProjectFileView|
        f.owner is Some && (forall|i: int|
            0 <= i < project.teams.len() ==> (#[trigger] project.teams[i]).name != f.owner->0);
    let g = |f: ProjectFileView|
        ErrorView::InvalidTeam { name: f.owner->0, path: path_utils::relative_text(project.base_path, f.path) };
    lists::lemma_filter_map_step(files, p, g);
    if files.len() > 0 {
        law_every_annotation_is_judged(project, files.drop_last());
    }
}

/// Each manifest that names no team is a defect, in the order of the packages.
pub proof fn law_every_manifest_is_judged(project: ProjectView, packages: Seq<PackageView>)
    ensures
        validator::package_errors(project, packages) == packages.filter(
            |p: PackageView|
                forall|i: int| 0 <= i < project.teams.len() ==> (#[trigger] project.teams[i]).name != p.owner,
        ).map_values(
            |p: PackageView|
                ErrorView::InvalidTeam {
                    name: p.owner,
                    path: path_utils::relative_text(project.base_path, p.path),
                },
        ),
    decreases packages.len(),
{
    let p = |p: PackageView|
        forall|i: int| 0 <= i < project.teams.len() ==> (#[trigger] project.teams[i]).name != p.owner;
    let g = |p: PackageView|
        ErrorView::InvalidTeam { name: p.owner, path: path_utils::relative_text(project.base_path, p.path) };
    lists::lemma_filter_map_step(packages, p, g);
    if packages.len() > 0 {
        law_every_manifest_is_judged(project, packages.drop_last());
    }
}

/// Each path that does not have one owner is a defect, in the order of the paths.
pub proof fn law_every_path_is_judged(rules: Seq<OwnerMatcherView>, paths: Seq<Seq<char>>)
    ensures
        validator::ownership_errors(rules, paths) == paths.filter(
            |p: Seq<char>| file_owner_finder::owners_of(rules, p).len() != 1,
        ).map_values(
            |p: Seq<char>|
                if file_owner_finder::owners_of(rules, p).len() == 0 {
                    ErrorView::FileWithoutOwner { path: p }
                } else {
                    ErrorView::FileWithMultipleOwners { path: p, owners: file_owner_finder::owners_of(rules, p) }
                },
        ),
    decreases paths.len(),
{
    let p = |p: Seq<char>| file_owner_finder::owners_of(rules, p).len() != 1;
    let g = |p: Seq<char>|
        if file_owner_finder::owners_of(rules, p).len() == 0 {
            ErrorView::FileWithoutOwner { path: p }
        } else {
            ErrorView::FileWithMultipleOwners { path: p, owners: file_owner_finder::owners_of(rules, p) }
        };
    lists::lemma_filter_map_step(paths, p, g);
    if paths.len() > 0 {
        law_every_path_is_judged(rules, paths.drop_last());
    }
}

/// Each path of a list with its owners is a defect unless it has just one.
pub proof fn law_every_attribution_is_judged(list: Seq<(Seq<char>, Seq<OwnerView>)>)
    ensures
        validator::attributed_errors(list) == list.filter(
            |a: (Seq<char>, Seq<OwnerView>)| a.1.len() != 1,
        ).map_values(
            |a: (Seq<char>, Seq<OwnerView>)|
                if a.1.len() == 0 {
                    ErrorView::FileWithoutOwner { path: a.0 }
                } else {
                    ErrorView::FileWithMultipleOwners { path: a.0, owners: a.1 }
                },
        ),
    decreases list.len(),
{
    let p = |a: (Seq<char>, Seq<OwnerView>)| a.1.len() != 1;
    let g = |a: (Seq<char>, Seq<OwnerView>)|
        if a.1.len() == 0 {
            ErrorView::FileWithoutOwner { path: a.0 }
        } else {
            ErrorView::FileWithMultipleOwners { path: a.0, owners: a.1 }
        };
    lists::lemma_filter_map_step(list, p, g);
    if list.len() > 0 {
        law_every_attribution_is_judged(list.drop_last());
    }
}

/// Each path stands in an attribution with the owners that the rules give it.
pub proof fn law_every_path_is_attributed(rules: Seq<OwnerMatcherView>, paths: Seq<Seq<char>>)
    ensures
        validator::attribution(rules, paths).len() == paths.len(),
        forall|i: int|
            0 <= i < paths.len() ==> (#[trigger] validator::attribution(rules, paths)[i]).0 == paths[i]
                && validator::attribution(rules, paths)[i].1 == file_owner_finder::owners_of(rules, paths[i]),
{
}

proof fn lemma_parts(a: Seq<ErrorView>, b: Seq<ErrorView>, c: Seq<ErrorView>, e: ErrorView)
    ensures
        (a + b + c).contains(e) <==> a.contains(e) || b.contains(e) || c.contains(e),
{
    lists::lemma_concat_contains(a, b, e);
    lists::lemma_concat_contains(a + b, c, e);
}

proof fn lemma_annotation_errors(project: ProjectView, files: Seq<ProjectFileView>, e: ErrorView)
    ensures
        validator::annotation_errors(project, files).contains(e) <==> exists|i: int|
            0 <= i < files.len() && (#[trigger] files[i]).owner is Some && (forall|k: int|
                0 <= k < project.teams.len() ==> (#[trigger] project.teams[k]).name != files[i].owner->0) && e == (
            ErrorView::InvalidTeam {
                name: files[i].owner->0,
                path: path_utils::relative_text(project.base_path, files[i].path),
            }),
{
    let p = |f: ProjectFileView|
        f.owner is Some && (forall|i: int|
            0 <= i < project.teams.len() ==> (#[trigger] project.teams[i]).name != f.owner->0);
    let g = |f: ProjectFileView|
        ErrorView::InvalidTeam { name: f.owner->0, path: path_utils::relative_text(project.base_path, f.path) };
    law_every_annotation_is_judged(project, files);
    lists::lemma_filter_map_contains(files, p, g, e);
    if validator::annotation_errors(project, files).contains(e) {
        let i = choose|i: int| 0 <= i < files.len() && p(#[trigger] files[i]) && g(files[i]) == e;
        assert(files[i].owner is Some);
    }
    if exists|i: int|
        0 <= i < files.len() && (#[trigger] files[i]).owner is Some && (forall|k: int|
            0 <= k < project.teams.len() ==> (#[trigger] project.teams[k]).name != files[i].owner->0) && e == (
        ErrorView::InvalidTeam {
            name: files[i].owner->0,
            path: path_utils::relative_text(project.base_path, files[i].path),
        }) {
        let i = choose|i: int|
            0 <= i < files.len() && (#[trigger] files[i]).owner is Some && (forall|k: int|
                0 <= k < project.teams.len() ==> (#[trigger] project.teams[k]).name != files[i].owner->0) && e == (
            ErrorView::InvalidTeam {
                name: files[i].owner->0,
                path: path_utils::relative_text(project.base_path, files[i].path),
            });
        assert(p(files[i]) && g(files[i]) == e);
    }
}

proof fn lemma_package_errors(project: ProjectView, packages: Seq<PackageView>, e: ErrorView)
    ensures
        validator::package_errors(project, packages).contains(e) <==> exists|i: int|
            0 <= i < packages.len() && (forall|k: int|
                0 <= k < project.teams.len() ==> (#[trigger] project.teams[k]).name != (
                #[trigger] packages[i]).owner) && e == (ErrorView::InvalidTeam {
                name: packages[i].owner,
                path: path_utils::relative_text(project.base_path, packages[i].path),
            }),
{
    let p = |p: PackageView|
        forall|i: int| 0 <= i < project.teams.len() ==> (#[trigger] project.teams[i]).name != p.owner;
    let g = |p: PackageView|
        ErrorView::InvalidTeam { name: p.owner, path: path_utils::relative_text(project.base_path, p.path) };
    law_every_manifest_is_judged(project, packages);
    lists::lemma_filter_map_contains(packages, p, g, e);
    if exists|i: int| 0 <= i < packages.len() && p(#[trigger] packages[i]) && g(packages[i]) == e {
        let i = choose|i: int| 0 <= i < packages.len() && p(#[trigger] packages[i]) && g(packages[i]) == e;
        assert(packages[i].owner == packages[i].owner);
    }
}

proof fn lemma_ownership_errors(rules: Seq<OwnerMatcherView>, paths: Seq<Seq<char>>, e: ErrorView)
    ensures
        validator::ownership_errors(rules, paths).contains(e) <==> match e {
            ErrorView::FileWithoutOwner { path } => paths.contains(path) && file_owner_finder::owners_of(
                rules,
                path,
            ).len() == 0,
            ErrorView::FileWithMultipleOwners { path, owners } => paths.contains(path) && owners
                == file_owner_finder::owners_of(rules, path) && owners.len() > 1,
            _ => false,
        },
{
    let p = |p: Seq<char>| file_owner_finder::owners_of(rules, p).len() != 1;
    let g = |p: Seq<char>|
        if file_owner_finder::owners_of(rules, p).len() == 0 {
            ErrorView::FileWithoutOwner { path: p }
        } else {
            ErrorView::FileWithMultipleOwners { path: p, owners: file_owner_finder::owners_of(rules, p) }
        };
    law_every_path_is_judged(rules, paths);
    lists::lemma_filter_map_contains(paths, p, g, e);
    if validator::ownership_errors(rules, paths).contains(e) {
        let i = choose|i: int| 0 <= i < paths.len() && p(#[trigger] paths[i]) && g(paths[i]) == e;
        assert(paths.contains(paths[i]));
    }
    match e {
        ErrorView::FileWithoutOwner { path } => {
            if paths.contains(path) && file_owner_finder::owners_of(rules, path).len() == 0 {
                let i = choose|i: int| 0 <= i < paths.len() && paths[i] == path;
                assert(p(paths[i]) && g(paths[i]) == e);
            }
        },
        ErrorView::FileWithMultipleOwners { path, owners } => {
            if paths.contains(path) && owners == file_owner_finder::owners_of(rules, path) && owners.len() > 1 {
                let i = choose|i: int| 0 <= i < paths.len() && paths[i] == path;
                assert(p(paths[i]) && g(paths[i]) == e);
            }
        },
        _ => {},
    }
}

/// A judgement of the whole project reports a path as without an owner exactly if a file of
/// the project has this relative path and no rule attributes it to a team.
pub proof fn law_files_without_owner(project: ProjectView, rules: Seq<OwnerMatcherView>, p: Seq<char>)
    ensures
        validator::project_errors(project, rules).contains(ErrorView::FileWithoutOwner { path: p }) <==> (exists|i: int|
            0 <= i < project.files.len() && path_utils::relative_text(
                project.base_path,
                (#[trigger] project.files[i]).path,
            ) == p) && (forall|k: int| 0 <= k < rules.len() ==> (#[trigger] rules[k]).owner(p) is None),
{
    let e = ErrorView::FileWithoutOwner { path: p };
    lemma_project_errors(project, rules, e);
    law_an_attributed_path_has_an_owner(rules, p);
    lemma_relative_files(project, p);
}

/// A judgement of the whole project reports a path with these owners exactly if a file of the
/// project has this relative path and these are the owners that the rules give it, more than
/// one.
pub proof fn law_files_with_several_owners(
    project: ProjectView,
    rules: Seq<OwnerMatcherView>,
    p: Seq<char>,
    owners: Seq<OwnerView>,
)
    ensures
        validator::project_errors(project, rules).contains(ErrorView::FileWithMultipleOwners { path: p, owners })
            <==> (exists|i: int|
            0 <= i < project.files.len() && path_utils::relative_text(
                project.base_path,
                (#[trigger] project.files[i]).path,
            ) == p) && owners == file_owner_finder::owners_of(rules, p) && owners.len() > 1,
{
    lemma_project_errors(project, rules, ErrorView::FileWithMultipleOwners { path: p, owners });
    lemma_relative_files(project, p);
}

proof fn lemma_relative_files(project: ProjectView, p: Seq<char>)
    ensures
        project.relative_files().contains(p) <==> exists|i: int|
            0 <= i < project.files.len() && path_utils::relative_text(
                project.base_path,
                (#[trigger] project.files[i]).path,
            ) == p,
{
    let all = project.relative_files();
    if all.contains(p) {
        let i = choose|i: int| 0 <= i < all.len() && all[i] == p;
        assert(path_utils::relative_text(project.base_path, project.files[i].path) == p);
    }
    if exists|i: int|
        0 <= i < project.files.len() && path_utils::relative_text(project.base_path, (#[trigger] project.files[i]).path)
            == p {
        let i = choose|i: int|
            0 <= i < project.files.len() && path_utils::relative_text(
                project.base_path,
                (#[trigger] project.files[i]).path,
            ) == p;
        assert(all[i] == p);
    }
}

proof fn lemma_project_errors(project: ProjectView, rules: Seq<OwnerMatcherView>, e: ErrorView)
    ensures
        validator::project_errors(project, rules).contains(e) <==> validator::annotation_errors(
            project,
            project.files,
        ).contains(e) || validator::package_errors(project, project.packages).contains(e) || match e {
            ErrorView::FileWithoutOwner { path } => project.relative_files().contains(path)
                && file_owner_finder::owners_of(rules, path).len() == 0,
            ErrorView::FileWithMultipleOwners { path, owners } => project.relative_files().contains(path) && owners
                == file_owner_finder::owners_of(rules, path) && owners.len() > 1,
            _ => false,
        },
        !(e is InvalidTeam) ==> !validator::annotation_errors(project, project.files).contains(e)
            && !validator::package_errors(project, project.packages).contains(e),
{
    lemma_annotation_errors(project, project.files, e);
    lemma_package_errors(project, project.packages, e);
    lemma_ownership_errors(rules, project.relative_files(), e);
    lemma_parts(
        validator::annotation_errors(project, project.files),
        validator::package_errors(project, project.packages),
        validator::ownership_errors(rules, project.relative_files()),
        e,
    );
}

/// A judgement of the whole project reports a reference to a missing team exactly if no team
/// has that name and a file is annotated with it, or a manifest names it, at that path.
pub proof fn law_references_to_missing_teams(
    project: ProjectView,
    rules: Seq<OwnerMatcherView>,
    name: Seq<char>,
    p: Seq<char>,
)
    ensures
        validator::project_errors(project, rules).contains(ErrorView::InvalidTeam { name, path: p }) <==> (forall|k: int|
            0 <= k < project.teams.len() ==> (#[trigger] project.teams[k]).name != name) && ((exists|i: int|
            0 <= i < project.files.len() && (#[trigger] project.files[i]).owner == Some(name)
                && path_utils::relative_text(project.base_path, project.files[i].path) == p) || (exists|i: int|
            0 <= i < project.packages.len() && (#[trigger] project.packages[i]).owner == name
                && path_utils::relative_text(project.base_path, project.packages[i].path) == p)),
{
    let e = ErrorView::InvalidTeam { name, path: p };
    lemma_project_errors(project, rules, e);
    lemma_annotation_errors(project, project.files, e);
    lemma_package_errors(project, project.packages, e);
    if forall|k: int| 0 <= k < project.teams.len() ==> (#[trigger] project.teams[k]).name != name {
        if exists|i: int|
            0 <= i < project.files.len() && (#[trigger] project.files[i]).owner == Some(name)
                && path_utils::relative_text(project.base_path, project.files[i].path) == p {
            let i = choose|i: int|
                0 <= i < project.files.len() && (#[trigger] project.files[i]).owner == Some(name)
                    && path_utils::relative_text(project.base_path, project.files[i].path) == p;
            assert(project.files[i].owner is Some);
        }
        if exists|i: int|
            0 <= i < project.packages.len() && (#[trigger] project.packages[i]).owner == name
                && path_utils::relative_text(project.base_path, project.packages[i].path) == p {
            let i = choose|i: int|
                0 <= i < project.packages.len() && (#[trigger] project.packages[i]).owner == name
                    && path_utils::relative_text(project.base_path, project.packages[i].path) == p;
            assert(project.packages[i].owner == name);
        }
    }
}

/// A judgement of the whole project without its CODEOWNERS file says nothing of that file.
pub proof fn law_the_project_alone_is_never_stale(project: ProjectView, rules: Seq<OwnerMatcherView>, e: ErrorView)
    requires
        e is CodeownershipFileIsStale,
    ensures
        !validator::project_errors(project, rules).contains(e),
{
    lemma_project_errors(project, rules, e);
}

/// A CODEOWNERS file is stale exactly if it is not the generated one, letter for letter. It is
/// one defect, which names the command and the lines that differ.
pub proof fn law_any_difference_is_stale(executable_name: Seq<char>, current: Seq<char>, generated: Seq<char>)
    ensures
        validator::staleness_errors(executable_name, current, current).len() == 0,
        current != generated ==> validator::staleness_errors(executable_name, current, generated) == seq![
            ErrorView::CodeownershipFileIsStale {
                executable_name,
                diff: validator::diff_text(current, generated),
            },
        ],
{
}

/// Of a list of paths the different ones are kept, each in its first spelling and in order:
/// those of a beginning of the list come first.
pub proof fn law_first_spellings_are_kept(list: Seq<Seq<char>>, p: Seq<char>, n: int)
    requires
        0 <= n <= list.len(),
    ensures
        validator::distinct_paths(list).contains(p) <==> exists|i: int|
            0 <= i < list.len() && #[trigger] list[i] == p && (forall|j: int|
                0 <= j < i ==> path::components(#[trigger] list[j]) != path::components(p)),
        validator::distinct_paths(list.take(n)).is_prefix_of(validator::distinct_paths(list)),
        forall|i: int, j: int|
            0 <= i < j < validator::distinct_paths(list).len() ==> path::components(
                #[trigger] validator::distinct_paths(list)[i],
            ) != path::components(#[trigger] validator::distinct_paths(list)[j]),
    decreases list.len(),
{
    let d = validator::distinct_paths(list);
    if list.len() == 0 {
        assert(list.take(n) =~= list);
    } else {
        let init = list.drop_last();
        let before = validator::distinct_paths(init);
        let last = list.last();
        assert(list[list.len() - 1] == last);
        assert forall|i: int| 0 <= i < init.len() implies #[trigger] init[i] == list[i] by {}
        law_first_spellings_are_kept(init, p, if n < list.len() { n } else { 0 });
        if n < list.len() {
            assert(init.take(n) =~= list.take(n));
        } else {
            assert(list.take(n) =~= list);
        }
        lemma_named(init, last);
        if before.contains(p) {
            let k = choose|k: int| 0 <= k < before.len() && before[k] == p;
            assert(d[k] == p);
            let i = choose|i: int|
                0 <= i < init.len() && #[trigger] init[i] == p && (forall|j: int|
                    0 <= j < i ==> path::components(#[trigger] init[j]) != path::components(p));
            assert(list[i] == p);
            assert forall|j: int| 0 <= j < i implies path::components(#[trigger] list[j]) != path::components(p) by {
                assert(init[j] == list[j]);
            }
        }
        if d.contains(p) && !before.contains(p) {
            let k = choose|k: int| 0 <= k < d.len() && d[k] == p;
            if k < before.len() {
                assert(before[k] == p);
            }
            assert(p == last);
            assert forall|j: int| 0 <= j < list.len() - 1 implies path::components(#[trigger] list[j])
                != path::components(p) by {
                assert(init[j] == list[j]);
            }
            assert(list[list.len() - 1] == p);
        }
        if exists|i: int|
            0 <= i < list.len() && #[trigger] list[i] == p && (forall|j: int|
                0 <= j < i ==> path::components(#[trigger] list[j]) != path::components(p)) {
            let i = choose|i: int|
                0 <= i < list.len() && #[trigger] list[i] == p && (forall|j: int|
                    0 <= j < i ==> path::components(#[trigger] list[j]) != path::components(p));
            if i < init.len() {
                assert(init[i] == p);
                assert forall|j: int| 0 <= j < i implies path::components(#[trigger] init[j])
                    != path::components(p) by {
                    assert(init[j] == list[j]);
                }
                assert(before.contains(p));
            } else {
                if validator::names_path(before, last) {
                    let j = choose|j: int| 0 <= j < init.len() && path::components(#[trigger] init[j])
                        == path::components(last);
                    assert(path::components(list[j]) == path::components(p));
                }
                assert(d.last() == p);
            }
        }
        assert forall|i: int, j: int| 0 <= i < j < d.len() implies path::components(#[trigger] d[i])
            != path::components(#[trigger] d[j]) by {
            if j < before.len() {
                assert(before[i] == d[i] && before[j] == d[j]);
            } else {
                assert(d[i] == before[i] && d[j] == last);
                assert(!path::same_path(before[i], last));
            }
        }
    }
}

/// The different paths name just the paths that the list names.
proof fn lemma_named(list: Seq<Seq<char>>, p: Seq<char>)
    ensures
        validator::names_path(validator::distinct_paths(list), p) <==> exists|j: int|
            0 <= j < list.len() && path::components(#[trigger] list[j]) == path::components(p),
    decreases list.len(),
{
    if list.len() > 0 {
        let init = list.drop_last();
        let before = validator::distinct_paths(init);
        let d = validator::distinct_paths(list);
        lemma_named(init, p);
        lemma_named(init, list.last());
        assert(list[list.len() - 1] == list.last());
        if validator::names_path(d, p) {
            let k = choose|k: int| 0 <= k < d.len() && path::same_path(#[trigger] d[k], p);
            if k < before.len() {
                assert(path::same_path(before[k], p));
                let j = choose|j: int| 0 <= j < init.len() && path::components(#[trigger] init[j])
                    == path::components(p);
                assert(list[j] == init[j]);
            } else {
                assert(path::components(list[list.len() - 1]) == path::components(p));
            }
        }
        if exists|j: int| 0 <= j < list.len() && path::components(#[trigger] list[j]) == path::components(p) {
            let j = choose|j: int| 0 <= j < list.len() && path::components(#[trigger] list[j]) == path::components(p);
            if j < init.len() {
                assert(path::components(init[j]) == path::components(p));
                let k = choose|k: int| 0 <= k < before.len() && path::same_path(#[trigger] before[k], p);
                assert(path::same_path(d[k], p));
            } else if validator::names_path(before, list.last()) {
                let k = choose|k: int| 0 <= k < before.len() && path::same_path(#[trigger] before[k], list.last());
                assert(path::same_path(d[k], p));
            } else {
                assert(path::same_path(d[d.len() - 1], p));
            }
        }
    }
}

/// A judgement of some paths reports one as without an owner exactly if it is a first spelling
/// among the paths that have to have an owner, and no rule attributes it to a team.
pub proof fn law_named_paths_without_owner(
    project: ProjectView,
    rules: Seq<OwnerMatcherView>,
    owned: Seq<Seq<char>>,
    supplied: Seq<Seq<char>>,
    p: Seq<char>,
)
    ensures
        validator::scoped_errors(project, rules, owned, supplied).contains(ErrorView::FileWithoutOwner { path: p }) <==> (
        exists|i: int|
            0 <= i < owned.len() && #[trigger] owned[i] == p && (forall|j: int|
                0 <= j < i ==> path::components(#[trigger] owned[j]) != path::components(p))) && (forall|k: int|
            0 <= k < rules.len() ==> (#[trigger] rules[k]).owner(p) is None),
{
    lemma_scoped_errors(project, rules, owned, supplied, ErrorView::FileWithoutOwner { path: p });
    law_an_attributed_path_has_an_owner(rules, p);
    law_first_spellings_are_kept(owned, p, 0);
}

/// A judgement of some paths reports one with these owners exactly if it is a first spelling
/// among the paths that have to have an owner, and these are the owners that the rules give
/// it, more than one.
pub proof fn law_named_paths_with_several_owners(
    project: ProjectView,
    rules: Seq<OwnerMatcherView>,
    owned: Seq<Seq<char>>,
    supplied: Seq<Seq<char>>,
    p: Seq<char>,
    owners: Seq<OwnerView>,
)
    ensures
        validator::scoped_errors(project, rules, owned, supplied).contains(
            ErrorView::FileWithMultipleOwners { path: p, owners },
        ) <==> (exists|i: int|
            0 <= i < owned.len() && #[trigger] owned[i] == p && (forall|j: int|
                0 <= j < i ==> path::components(#[trigger] owned[j]) != path::components(p))) && owners
            == file_owner_finder::owners_of(rules, p) && owners.len() > 1,
{
    lemma_scoped_errors(project, rules, owned, supplied, ErrorView::FileWithMultipleOwners { path: p, owners });
    law_first_spellings_are_kept(owned, p, 0);
}

proof fn lemma_scoped_errors(
    project: ProjectView,
    rules: Seq<OwnerMatcherView>,
    owned: Seq<Seq<char>>,
    supplied: Seq<Seq<char>>,
    e: ErrorView,
)
    ensures
        validator::scoped_errors(project, rules, owned, supplied).contains(e) <==> validator::annotation_errors(
            project,
            project.files_named(owned),
        ).contains(e) || validator::package_errors(project, project.packages_in_scope(supplied)).contains(e) || match e {
            ErrorView::FileWithoutOwner { path } => validator::distinct_paths(owned).contains(path)
                && file_owner_finder::owners_of(rules, path).len() == 0,
            ErrorView::FileWithMultipleOwners { path, owners } => validator::distinct_paths(owned).contains(path)
                && owners == file_owner_finder::owners_of(rules, path) && owners.len() > 1,
            _ => false,
        },
        !(e is InvalidTeam) ==> !validator::annotation_errors(project, project.files_named(owned)).contains(e)
            && !validator::package_errors(project, project.packages_in_scope(supplied)).contains(e),
{
    let files = project.files_named(owned);
    let packages = project.packages_in_scope(supplied);
    lemma_annotation_errors(project, files, e);
    lemma_package_errors(project, packages, e);
    lemma_ownership_errors(rules, validator::distinct_paths(owned), e);
    lemma_parts(
        validator::annotation_errors(project, files),
        validator::package_errors(project, packages),
        validator::ownership_errors(rules, validator::distinct_paths(owned)),
        e,
    );
}

/// A judgement of some paths reports a reference to a missing team exactly if no team has that
/// name and either a file with an owner to have is annotated with it, or the manifest of a
/// package names it in whose directory one of the supplied paths lies.
pub proof fn law_named_references_to_missing_teams(
    project: ProjectView,
    rules: Seq<OwnerMatcherView>,
    owned: Seq<Seq<char>>,
    supplied: Seq<Seq<char>>,
    name: Seq<char>,
    p: Seq<char>,
)
    ensures
        validator::scoped_errors(project, rules, owned, supplied).contains(ErrorView::InvalidTeam { name, path: p }) <==> (
        forall|k: int| 0 <= k < project.teams.len() ==> (#[trigger] project.teams[k]).name != name) && ((exists|
            i: int,
            j: int,
        |
            0 <= i < project.files.len() && 0 <= j < owned.len() && (#[trigger] project.files[i]).owner == Some(name)
                && path_utils::relative_text(project.base_path, project.files[i].path) == p && path::components(
                #[trigger] owned[j],
            ) == path::components(p)) || (exists|i: int, j: int|
            0 <= i < project.packages.len() && 0 <= j < supplied.len() && (#[trigger] project.packages[i]).owner == name
                && path_utils::relative_text(project.base_path, project.packages[i].path) == p && path::parent_text(
                project.packages[i].path,
            ) is Some && path::components(
                path_utils::relative_text(project.base_path, path::parent_text(project.packages[i].path)->0),
            ).is_prefix_of(path::components(#[trigger] supplied[j])))),
{
    let e = ErrorView::InvalidTeam { name, path: p };
    let named = |f: ProjectFileView| validator::names_path(owned, project.relative(f.path));
    let held = |q: PackageView| project.in_scope(q, supplied);
    let files = project.files_named(owned);
    let packages = project.packages_in_scope(supplied);
    lemma_scoped_errors(project, rules, owned, supplied, e);
    lemma_annotation_errors(project, files, e);
    lemma_package_errors(project, packages, e);
    if validator::annotation_errors(project, files).contains(e) {
        let i = choose|i: int|
            0 <= i < files.len() && (#[trigger] files[i]).owner is Some && (forall|k: int|
                0 <= k < project.teams.len() ==> (#[trigger] project.teams[k]).name != files[i].owner->0) && e == (
            ErrorView::InvalidTeam {
                name: files[i].owner->0,
                path: path_utils::relative_text(project.base_path, files[i].path),
            });
        assert(files.contains(files[i]));
        project.files.lemma_filter_pred(named, i);
        project.files.lemma_filter_contains_rev(named, files[i]);
        let k = choose|k: int| 0 <= k < project.files.len() && project.files[k] == files[i];
        let j = choose|j: int| 0 <= j < owned.len() && path::same_path(#[trigger] owned[j], p);
        assert(project.files[k].owner == Some(name) && path::components(owned[j]) == path::components(p));
    }
    if validator::package_errors(project, packages).contains(e) {
        let i = choose|i: int|
            0 <= i < packages.len() && (forall|k: int|
                0 <= k < project.teams.len() ==> (#[trigger] project.teams[k]).name != (
                #[trigger] packages[i]).owner) && e == (ErrorView::InvalidTeam {
                name: packages[i].owner,
                path: path_utils::relative_text(project.base_path, packages[i].path),
            });
        assert(packages.contains(packages[i]));
        project.packages.lemma_filter_pred(held, i);
        project.packages.lemma_filter_contains_rev(held, packages[i]);
        let k = choose|k: int| 0 <= k < project.packages.len() && project.packages[k] == packages[i];
        let dir = path::parent_text(packages[i].path)->0;
        let j = choose|j: int|
            0 <= j < supplied.len() && path::starts_with(#[trigger] supplied[j], project.relative(dir));
        lemma_starts_with(supplied[j], project.relative(dir));
        assert(project.packages[k].owner == name);
        assert(path::components(project.relative(dir)).is_prefix_of(path::components(supplied[j])));
    }
    if forall|k: int| 0 <= k < project.teams.len() ==> (#[trigger] project.teams[k]).name != name {
        if exists|i: int, j: int|
            0 <= i < project.files.len() && 0 <= j < owned.len() && (#[trigger] project.files[i]).owner == Some(name)
                && path_utils::relative_text(project.base_path, project.files[i].path) == p && path::components(
                #[trigger] owned[j],
            ) == path::components(p) {
            let (i, j) = choose|i: int, j: int|
                0 <= i < project.files.len() && 0 <= j < owned.len() && (#[trigger] project.files[i]).owner == Some(
                    name,
                ) && path_utils::relative_text(project.base_path, project.files[i].path) == p && path::components(
                    #[trigger] owned[j],
                ) == path::components(p);
            assert(path::same_path(owned[j], project.relative(project.files[i].path)));
            assert(named(project.files[i]));
            project.files.lemma_filter_contains(named, i);
            let k = choose|k: int| 0 <= k < files.len() && files[k] == project.files[i];
            assert(files[k].owner is Some);
        }
        if exists|i: int, j: int|
            0 <= i < project.packages.len() && 0 <= j < supplied.len() && (#[trigger] project.packages[i]).owner == name
                && path_utils::relative_text(project.base_path, project.packages[i].path) == p && path::parent_text(
                project.packages[i].path,
            ) is Some && path::components(
                path_utils::relative_text(project.base_path, path::parent_text(project.packages[i].path)->0),
            ).is_prefix_of(path::components(#[trigger] supplied[j])) {
            let (i, j) = choose|i: int, j: int|
                0 <= i < project.packages.len() && 0 <= j < supplied.len() && (#[trigger] project.packages[i]).owner
                    == name && path_utils::relative_text(project.base_path, project.packages[i].path) == p
                    && path::parent_text(project.packages[i].path) is Some && path::components(
                    path_utils::relative_text(project.base_path, path::parent_text(project.packages[i].path)->0),
                ).is_prefix_of(path::components(#[trigger] supplied[j]));
            let dir = path::parent_text(project.packages[i].path)->0;
            lemma_starts_with(supplied[j], project.relative(dir));
            assert(path::starts_with(supplied[j], project.relative(dir)));
            assert(held(project.packages[i]));
            project.packages.lemma_filter_contains(held, i);
            let k = choose|k: int| 0 <= k < packages.len() && packages[k] == project.packages[i];
            assert(packages[k].owner == name);
        }
    }
}

proof fn lemma_starts_with(p: Seq<char>, base: Seq<char>)
    ensures
        path::starts_with(p, base) <==> path::components(base).is_prefix_of(path::components(p)),
{
    let a = path::components(base);
    let b = path::components(p);
    if a.len() <= b.len() {
        assert(b.take(a.len() as int) =~= b.subrange(0, a.len() as int));
    }
}

/// The defects of a project are those of its annotations, of its manifests and of its paths,
/// in this order, each in the order of the project.
pub proof fn law_the_order_of_defects(
    project: ProjectView,
    rules: Seq<OwnerMatcherView>,
    owned: Seq<Seq<char>>,
    supplied: Seq<Seq<char>>,
)
    ensures
        ({
            let missing = |name: Seq<char>|
                forall|i: int| 0 <= i < project.teams.len() ==> (#[trigger] project.teams[i]).name != name;
            let all = validator::project_errors(project, rules);
            let some = validator::scoped_errors(project, rules, owned, supplied);
            let annotated = project.files.filter(|f: ProjectFileView| f.owner is Some && missing(f.owner->0)).len();
            let packaged = project.packages.filter(|p: PackageView| missing(p.owner)).len();
            &&& annotated + packaged <= all.len()
            &&& forall|i: int|
                0 <= i < all.len() ==> (i < annotated + packaged <==> (#[trigger] all[i]) is InvalidTeam)
            &&& forall|i: int, j: int|
                0 <= i < j < some.len() && (#[trigger] some[j]) is InvalidTeam ==> (#[trigger] some[i]) is InvalidTeam
        }),
{
    let missing = |name: Seq<char>|
        forall|i: int| 0 <= i < project.teams.len() ==> (#[trigger] project.teams[i]).name != name;
    lemma_teams_then_owners(project, rules, project.files, project.packages, project.relative_files());
    lemma_teams_then_owners(
        project,
        rules,
        project.files_named(owned),
        project.packages_in_scope(supplied),
        validator::distinct_paths(owned),
    );
    law_every_annotation_is_judged(project, project.files);
    law_every_manifest_is_judged(project, project.packages);
    let p = |f: ProjectFileView|
        f.owner is Some && (forall|i: int|
            0 <= i < project.teams.len() ==> (#[trigger] project.teams[i]).name != f.owner->0);
    let q = |p: PackageView|
        forall|i: int| 0 <= i < project.teams.len() ==> (#[trigger] project.teams[i]).name != p.owner;
    assert(p =~= (|f: ProjectFileView| f.owner is Some && missing(f.owner->0)));
    assert(q =~= (|p: PackageView| missing(p.owner)));
}

proof fn lemma_teams_then_owners(
    project: ProjectView,
    rules: Seq<OwnerMatcherView>,
    files: Seq<ProjectFileView>,
    packages: Seq<PackageView>,
    paths: Seq<Seq<char>>,
)
    ensures
        ({
            let a = validator::annotation_errors(project, files);
            let b = validator::package_errors(project, packages);
            let all = a + b + validator::ownership_errors(rules, paths);
            forall|i: int|
                0 <= i < all.len() ==> (i < a.len() + b.len() <==> (#[trigger] all[i]) is InvalidTeam)
        }),
{
    let a = validator::annotation_errors(project, files);
    let b = validator::package_errors(project, packages);
    let c = validator::ownership_errors(rules, paths);
    let all = a + b + c;
    assert forall|i: int| 0 <= i < all.len() implies (i < a.len() + b.len() <==> (
    #[trigger] all[i]) is InvalidTeam) by {
        if i < a.len() {
            assert(all[i] == a[i]);
            assert(a.contains(a[i]));
            lemma_annotation_errors(project, files, a[i]);
        } else if i < a.len() + b.len() {
            let e = b[i - a.len()];
            assert(all[i] == e);
            assert(b.contains(e));
            lemma_package_errors(project, packages, e);
        } else {
            let e = c[i - a.len() - b.len()];
            assert(all[i] == e);
            assert(c.contains(e));
            lemma_ownership_errors(rules, paths, e);
        }
    }
}

} // verus!
