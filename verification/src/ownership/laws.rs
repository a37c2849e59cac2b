//! What holds of every judgement of a project.

use crate::order;
use crate::ownership::file_owner_finder;
use crate::ownership::mapper::OwnerMatcherView;
use crate::ownership::validator;
use crate::ownership::validator::ErrorView;
use crate::path;
use crate::project::{PackageView, ProjectFileView, ProjectView};
use crate::text;
use vstd::multiset::Multiset;
use vstd::prelude::*;
use vstd::string::*;

verus! {

/// The path that a defect is about. A stale CODEOWNERS file is about none.
pub open spec fn error_path(e: ErrorView) -> Seq<char> {
    match e {
        ErrorView::InvalidTeam { path, .. } => path,
        ErrorView::FileWithoutOwner { path } => path,
        ErrorView::FileWithMultipleOwners { path, .. } => path,
        ErrorView::CodeownershipFileIsStale { .. } => Seq::empty(),
    }
}

/// No path stands twice in a list, in whatever spelling.
pub open spec fn paths_differ(list: Seq<Seq<char>>) -> bool {
    forall|i: int, j: int|
        0 <= i < j < list.len() ==> !path::same_path(#[trigger] list[i], #[trigger] list[j])
}

proof fn lemma_filter_all<A>(s: Seq<A>, pred: spec_fn(A) -> bool)
    requires
        forall|i: int| 0 <= i < s.len() ==> pred(#[trigger] s[i]),
    ensures
        s.filter(pred) == s,
    decreases s.len(),
{
    reveal(Seq::filter);
    if s.len() > 0 {
        let init = s.drop_last();
        assert forall|i: int| 0 <= i < init.len() implies pred(#[trigger] init[i]) by {
            assert(init[i] == s[i]);
        }
        lemma_filter_all(init, pred);
        assert(pred(s[s.len() - 1]));
        assert(s =~= init.push(s.last()));
    } else {
        assert(s.filter(pred) =~= s);
    }
}

proof fn lemma_distinct_of_different(list: Seq<Seq<char>>)
    requires
        paths_differ(list),
    ensures
        validator::distinct_paths(list) == list,
    decreases list.len(),
{
    if list.len() > 0 {
        let init = list.drop_last();
        assert forall|i: int, j: int| 0 <= i < j < init.len() implies !path::same_path(
            #[trigger] init[i],
            #[trigger] init[j],
        ) by {
            assert(init[i] == list[i] && init[j] == list[j]);
        }
        lemma_distinct_of_different(init);
        if validator::names_path(init, list.last()) {
            let i = choose|i: int| 0 <= i < init.len() && path::same_path(#[trigger] init[i], list.last());
            assert(path::same_path(list[i], list[list.len() - 1]));
        }
        assert(list =~= init.push(list.last()));
    }
}

/// Judging every file of the project by name, with every package in scope, finds what
/// judging the whole project finds, apart from a stale CODEOWNERS file.
pub proof fn law_every_path_is_the_whole_project(
    project: ProjectView,
    rules: Seq<OwnerMatcherView>,
    supplied: Seq<Seq<char>>,
)
    requires
        paths_differ(project.relative_files()),
        forall|i: int| 0 <= i < project.packages.len() ==> project.in_scope(#[trigger] project.packages[i], supplied),
    ensures
        validator::scoped_errors(project, rules, project.relative_files(), supplied) == validator::project_errors(
            project,
            rules,
        ),
{
    let all = project.relative_files();
    let named = |f: ProjectFileView| validator::names_path(all, project.relative(f.path));
    assert forall|i: int| 0 <= i < project.files.len() implies named(#[trigger] project.files[i]) by {
        assert(path::same_path(all[i], project.relative(project.files[i].path)));
    }
    lemma_filter_all(project.files, named);
    lemma_filter_all(project.packages, |p: PackageView| project.in_scope(p, supplied));
    lemma_distinct_of_different(all);
}

proof fn lemma_annotation_error(project: ProjectView, files: Seq<ProjectFileView>, e: ErrorView)
    ensures
        validator::annotation_errors(project, files).contains(e) <==> exists|i: int|
            0 <= i < files.len() && (#[trigger] files[i]).owner is Some && !validator::team_exists(
                project.teams,
                files[i].owner->0,
            ) && e == (ErrorView::InvalidTeam { name: files[i].owner->0, path: project.relative(files[i].path) }),
    decreases files.len(),
{
    if files.len() > 0 {
        let init = files.drop_last();
        lemma_annotation_error(project, init, e);
        let before = validator::annotation_errors(project, init);
        let now = validator::annotation_errors(project, files);
        let last = files.len() - 1;
        assert(files[last] == files.last());
        assert forall|i: int| 0 <= i < init.len() implies #[trigger] init[i] == files[i] by {}
        if before.contains(e) {
            let k = choose|k: int| 0 <= k < before.len() && before[k] == e;
            assert(now[k] == e);
        }
        if now.contains(e) && !before.contains(e) {
            let k = choose|k: int| 0 <= k < now.len() && now[k] == e;
            if k < before.len() {
                assert(before[k] == e);
            }
        }
        if now.len() > before.len() {
            assert(now[before.len() as int] == now.last());
        }
        if exists|i: int|
            0 <= i < files.len() && (#[trigger] files[i]).owner is Some && !validator::team_exists(
                project.teams,
                files[i].owner->0,
            ) && e == (ErrorView::InvalidTeam { name: files[i].owner->0, path: project.relative(files[i].path) }) {
            let i = choose|i: int|
                0 <= i < files.len() && (#[trigger] files[i]).owner is Some && !validator::team_exists(
                    project.teams,
                    files[i].owner->0,
                ) && e == (ErrorView::InvalidTeam {
                    name: files[i].owner->0,
                    path: project.relative(files[i].path),
                });
            if i < init.len() {
                assert(init[i] == files[i]);
            }
        }
    }
}

proof fn lemma_package_error(project: ProjectView, packages: Seq<PackageView>, e: ErrorView)
    ensures
        validator::package_errors(project, packages).contains(e) <==> exists|i: int|
            0 <= i < packages.len() && !validator::team_exists(project.teams, (#[trigger] packages[i]).owner) && e == (
            ErrorView::InvalidTeam { name: packages[i].owner, path: project.relative(packages[i].path) }),
    decreases packages.len(),
{
    if packages.len() > 0 {
        let init = packages.drop_last();
        lemma_package_error(project, init, e);
        let before = validator::package_errors(project, init);
        let now = validator::package_errors(project, packages);
        assert(packages[packages.len() - 1] == packages.last());
        assert forall|i: int| 0 <= i < init.len() implies #[trigger] init[i] == packages[i] by {}
        if before.contains(e) {
            let k = choose|k: int| 0 <= k < before.len() && before[k] == e;
            assert(now[k] == e);
        }
        if now.contains(e) && !before.contains(e) {
            let k = choose|k: int| 0 <= k < now.len() && now[k] == e;
            if k < before.len() {
                assert(before[k] == e);
            }
        }
        if now.len() > before.len() {
            assert(now[before.len() as int] == now.last());
        }
        if exists|i: int|
            0 <= i < packages.len() && !validator::team_exists(project.teams, (#[trigger] packages[i]).owner) && e == (
            ErrorView::InvalidTeam { name: packages[i].owner, path: project.relative(packages[i].path) }) {
            let i = choose|i: int|
                0 <= i < packages.len() && !validator::team_exists(project.teams, (#[trigger] packages[i]).owner) && e
                    == (ErrorView::InvalidTeam { name: packages[i].owner, path: project.relative(packages[i].path) });
            if i < init.len() {
                assert(init[i] == packages[i]);
            }
        }
    }
}

/// What is said of a path by its owners.
pub open spec fn ownership_error(rules: Seq<OwnerMatcherView>, p: Seq<char>) -> Option<ErrorView> {
    let owners = file_owner_finder::owners_of(rules, p);
    if owners.len() == 0 {
        Some(ErrorView::FileWithoutOwner { path: p })
    } else if owners.len() > 1 {
        Some(ErrorView::FileWithMultipleOwners { path: p, owners })
    } else {
        None
    }
}

proof fn lemma_ownership_error(rules: Seq<OwnerMatcherView>, paths: Seq<Seq<char>>, e: ErrorView)
    ensures
        validator::ownership_errors(rules, paths).contains(e) <==> exists|i: int|
            0 <= i < paths.len() && ownership_error(rules, #[trigger] paths[i]) == Some(e),
    decreases paths.len(),
{
    if paths.len() > 0 {
        let init = paths.drop_last();
        lemma_ownership_error(rules, init, e);
        let before = validator::ownership_errors(rules, init);
        let now = validator::ownership_errors(rules, paths);
        assert(paths[paths.len() - 1] == paths.last());
        if before.contains(e) {
            let k = choose|k: int| 0 <= k < before.len() && before[k] == e;
            assert(now[k] == e);
            let i = choose|i: int| 0 <= i < init.len() && ownership_error(rules, #[trigger] init[i]) == Some(e);
            assert(paths[i] == init[i]);
        }
        if now.contains(e) && !before.contains(e) {
            let k = choose|k: int| 0 <= k < now.len() && now[k] == e;
            if k < before.len() {
                assert(before[k] == e);
            }
        }
        if now.len() > before.len() {
            assert(now[before.len() as int] == now.last());
        }
        if exists|i: int| 0 <= i < paths.len() && ownership_error(rules, #[trigger] paths[i]) == Some(e) {
            let i = choose|i: int| 0 <= i < paths.len() && ownership_error(rules, #[trigger] paths[i]) == Some(e);
            if i < init.len() {
                assert(init[i] == paths[i]);
            }
        }
    }
}

proof fn lemma_distinct_paths(list: Seq<Seq<char>>)
    ensures
        paths_differ(validator::distinct_paths(list)),
        forall|p: Seq<char>|
            #[trigger] validator::names_path(validator::distinct_paths(list), p) <==> validator::names_path(list, p),
        forall|i: int| 0 <= i < validator::distinct_paths(list).len() ==> list.contains(
            #[trigger] validator::distinct_paths(list)[i],
        ),
    decreases list.len(),
{
    let d = validator::distinct_paths(list);
    if list.len() > 0 {
        let init = list.drop_last();
        let before = validator::distinct_paths(init);
        lemma_distinct_paths(init);
        assert(list[list.len() - 1] == list.last());
        assert forall|p: Seq<char>| #[trigger] validator::names_path(d, p) <==> validator::names_path(list, p) by {
            if validator::names_path(d, p) {
                let k = choose|k: int| 0 <= k < d.len() && path::same_path(#[trigger] d[k], p);
                if k < before.len() {
                    assert(path::same_path(before[k], p));
                    assert(validator::names_path(init, p));
                    let i = choose|i: int| 0 <= i < init.len() && path::same_path(#[trigger] init[i], p);
                    assert(path::same_path(list[i], p));
                } else {
                    assert(path::same_path(list[list.len() - 1], p));
                }
            }
            if validator::names_path(list, p) {
                let i = choose|i: int| 0 <= i < list.len() && path::same_path(#[trigger] list[i], p);
                if i < init.len() {
                    assert(path::same_path(init[i], p));
                    assert(validator::names_path(before, p));
                    let k = choose|k: int| 0 <= k < before.len() && path::same_path(#[trigger] before[k], p);
                    assert(path::same_path(d[k], p));
                } else if validator::names_path(before, list.last()) {
                    let k = choose|k: int| 0 <= k < before.len() && path::same_path(#[trigger] before[k], list.last());
                    assert(path::same_path(d[k], p));
                } else {
                    assert(path::same_path(d[before.len() as int], p));
                }
            }
        }
        assert forall|i: int, j: int| 0 <= i < j < d.len() implies !path::same_path(
            #[trigger] d[i],
            #[trigger] d[j],
        ) by {
            if j == before.len() {
                assert(before[i] == d[i]);
                if path::same_path(d[i], d[j]) {
                    assert(validator::names_path(before, list.last()));
                }
            } else {
                assert(before[i] == d[i] && before[j] == d[j]);
            }
        }
        assert forall|i: int| 0 <= i < d.len() implies list.contains(#[trigger] d[i]) by {
            if i < before.len() {
                assert(init.contains(before[i]));
                let k = choose|k: int| 0 <= k < init.len() && init[k] == before[i];
                assert(list[k] == d[i]);
            }
        }
    }
}

/// A path that is named several times, in whatever spelling, is one defect at most.
pub proof fn law_a_path_is_one_defect(rules: Seq<OwnerMatcherView>, paths: Seq<Seq<char>>, i: int, j: int)
    requires
        0 <= i < j < validator::ownership_errors(rules, validator::distinct_paths(paths)).len(),
    ensures
        ({
            let errors = validator::ownership_errors(rules, validator::distinct_paths(paths));
            !path::same_path(error_path(errors[i]), error_path(errors[j]))
        }),
{
    lemma_distinct_paths(paths);
    lemma_errors_differ(rules, validator::distinct_paths(paths));
}

proof fn lemma_errors_differ(rules: Seq<OwnerMatcherView>, paths: Seq<Seq<char>>)
    requires
        paths_differ(paths),
    ensures
        ({
            let errors = validator::ownership_errors(rules, paths);
            &&& forall|i: int, j: int|
                0 <= i < j < errors.len() ==> !path::same_path(
                    error_path(#[trigger] errors[i]),
                    error_path(#[trigger] errors[j]),
                )
            &&& forall|i: int| 0 <= i < errors.len() ==> paths.contains(error_path(#[trigger] errors[i]))
        }),
    decreases paths.len(),
{
    if paths.len() > 0 {
        let init = paths.drop_last();
        assert forall|i: int, j: int| 0 <= i < j < init.len() implies !path::same_path(
            #[trigger] init[i],
            #[trigger] init[j],
        ) by {
            assert(init[i] == paths[i] && init[j] == paths[j]);
        }
        lemma_errors_differ(rules, init);
        let before = validator::ownership_errors(rules, init);
        let errors = validator::ownership_errors(rules, paths);
        assert(paths[paths.len() - 1] == paths.last());
        assert forall|i: int| 0 <= i < errors.len() implies paths.contains(error_path(#[trigger] errors[i])) by {
            if i < before.len() {
                assert(errors[i] == before[i]);
                assert(init.contains(error_path(before[i])));
                let k = choose|k: int| 0 <= k < init.len() && init[k] == error_path(before[i]);
                assert(paths[k] == error_path(errors[i]));
            }
        }
        assert forall|i: int, j: int| 0 <= i < j < errors.len() implies !path::same_path(
            error_path(#[trigger] errors[i]),
            error_path(#[trigger] errors[j]),
        ) by {
            assert(errors[i] == before[i]);
            if j == before.len() {
                assert(init.contains(error_path(before[i])));
                let k = choose|k: int| 0 <= k < init.len() && init[k] == error_path(before[i]);
                assert(paths[k] == init[k]);
                assert(!path::same_path(paths[k], paths[paths.len() - 1]));
            } else {
                assert(errors[j] == before[j]);
            }
        }
    }
}

/// Every path that has to have an owner is judged, also one that the project does not list:
/// it is reported, in its first spelling, exactly if it does not have one owner.
pub proof fn law_every_owned_path_is_judged(
    project: ProjectView,
    rules: Seq<OwnerMatcherView>,
    owned: Seq<Seq<char>>,
    supplied: Seq<Seq<char>>,
    i: int,
)
    requires
        0 <= i < owned.len(),
        forall|j: int| 0 <= j < i ==> !path::same_path(#[trigger] owned[j], owned[i]),
    ensures
        match ownership_error(rules, owned[i]) {
            Some(e) => validator::scoped_errors(project, rules, owned, supplied).contains(e),
            None => forall|k: int|
                0 <= k < validator::ownership_errors(rules, validator::distinct_paths(owned)).len()
                    ==> !path::same_path(
                    error_path(
                        #[trigger] validator::ownership_errors(rules, validator::distinct_paths(owned))[k],
                    ),
                    owned[i],
                ),
        },
{
    let d = validator::distinct_paths(owned);
    let errors = validator::ownership_errors(rules, d);
    lemma_distinct_paths(owned);
    let k = lemma_first_spelling(owned, i);
    match ownership_error(rules, owned[i]) {
        Some(e) => {
            lemma_ownership_error(rules, d, e);
            assert(ownership_error(rules, d[k]) == Some(e));
            let front = validator::annotation_errors(project, project.files_named(owned)) + validator::package_errors(
                project,
                project.packages_in_scope(supplied),
            );
            let m = choose|m: int| 0 <= m < errors.len() && errors[m] == e;
            assert((front + errors)[front.len() + m] == e);
        },
        None => {
            assert forall|m: int| 0 <= m < errors.len() implies !path::same_path(
                error_path(#[trigger] errors[m]),
                owned[i],
            ) by {
                lemma_ownership_error(rules, d, errors[m]);
                assert(errors.contains(errors[m]));
                let l = choose|l: int| 0 <= l < d.len() && ownership_error(rules, #[trigger] d[l]) == Some(errors[m]);
                if path::same_path(d[l], d[k]) && l < k {
                    assert(!path::same_path(d[l], d[k]));
                }
                if path::same_path(d[l], d[k]) && k < l {
                    assert(!path::same_path(d[k], d[l]));
                }
            }
        },
    }
}

/// Where the first spelling of a path stands among the different ones.
proof fn lemma_first_spelling(list: Seq<Seq<char>>, i: int) -> (k: int)
    requires
        0 <= i < list.len(),
        forall|j: int| 0 <= j < i ==> !path::same_path(#[trigger] list[j], list[i]),
    ensures
        0 <= k < validator::distinct_paths(list).len(),
        validator::distinct_paths(list)[k] == list[i],
    decreases list.len(),
{
    let init = list.drop_last();
    let before = validator::distinct_paths(init);
    if i < init.len() {
        assert(init[i] == list[i]);
        assert forall|j: int| 0 <= j < i implies !path::same_path(#[trigger] init[j], init[i]) by {
            assert(init[j] == list[j]);
        }
        let k = lemma_first_spelling(init, i);
        k
    } else {
        lemma_distinct_paths(init);
        if validator::names_path(before, list.last()) {
            assert(validator::names_path(init, list.last()));
            let j = choose|j: int| 0 <= j < init.len() && path::same_path(#[trigger] init[j], list.last());
            assert(path::same_path(list[j], list[i]));
        }
        before.len() as int
    }
}

/// A file that two teams own is reported with both of them, in a judgement of the whole
/// project as in one of some of its paths.
pub proof fn law_two_owners_are_reported(
    rules: Seq<OwnerMatcherView>,
    paths: Seq<Seq<char>>,
    i: int,
    a: file_owner_finder::Claim,
    b: file_owner_finder::Claim,
)
    requires
        0 <= i < paths.len(),
        file_owner_finder::effective_claims(file_owner_finder::claims_to(rules, paths[i])).contains(a),
        file_owner_finder::effective_claims(file_owner_finder::claims_to(rules, paths[i])).contains(b),
        a.0 != b.0,
    ensures
        ({
            let owners = file_owner_finder::owners_of(rules, paths[i]);
            &&& file_owner_finder::owns(owners, a.0)
            &&& file_owner_finder::owns(owners, b.0)
            &&& validator::ownership_errors(rules, paths).contains(
                ErrorView::FileWithMultipleOwners { path: paths[i], owners },
            )
        }),
{
    let claims = file_owner_finder::effective_claims(file_owner_finder::claims_to(rules, paths[i]));
    let owners = file_owner_finder::owners_of(rules, paths[i]);
    file_owner_finder::law_grouping_keeps_every_claim(claims);
    assert(file_owner_finder::owns_by(owners, a));
    assert(file_owner_finder::owns_by(owners, b));
    let x = choose|x: int|
        0 <= x < owners.len() && (#[trigger] owners[x]).team_name == a.0 && owners[x].sources.contains(a.1);
    let y = choose|y: int|
        0 <= y < owners.len() && (#[trigger] owners[y]).team_name == b.0 && owners[y].sources.contains(b.1);
    assert(owners[x].team_name != owners[y].team_name);
    let e = ErrorView::FileWithMultipleOwners { path: paths[i], owners };
    assert(ownership_error(rules, paths[i]) == Some(e));
    lemma_ownership_error(rules, paths, e);
}

/// A file that one team alone claims, in however many ways, is not reported.
pub proof fn law_one_owner_is_no_defect(rules: Seq<OwnerMatcherView>, p: Seq<char>, a: file_owner_finder::Claim)
    requires
        file_owner_finder::effective_claims(file_owner_finder::claims_to(rules, p)).contains(a),
        forall|i: int|
            0 <= i < file_owner_finder::effective_claims(file_owner_finder::claims_to(rules, p)).len()
                ==> (#[trigger] file_owner_finder::effective_claims(file_owner_finder::claims_to(rules, p))[i]).0
                == a.0,
    ensures
        ownership_error(rules, p) is None,
{
    let claims = file_owner_finder::effective_claims(file_owner_finder::claims_to(rules, p));
    let owners = file_owner_finder::owners_of(rules, p);
    file_owner_finder::law_grouping_keeps_every_claim(claims);
    assert(file_owner_finder::owns_by(owners, a));
    lemma_sources_not_empty(claims);
    if owners.len() > 1 {
        let c0 = (owners[0].team_name, owners[0].sources[0]);
        let c1 = (owners[1].team_name, owners[1].sources[0]);
        assert(owners[0].sources.contains(c0.1));
        assert(owners[1].sources.contains(c1.1));
        assert(file_owner_finder::owns_by(owners, c0));
        assert(file_owner_finder::owns_by(owners, c1));
        let i = choose|i: int| 0 <= i < claims.len() && claims[i] == c0;
        let j = choose|j: int| 0 <= j < claims.len() && claims[j] == c1;
        assert(claims[i].0 == a.0 && claims[j].0 == a.0);
        assert(owners[0].team_name != owners[1].team_name);
    }
}

proof fn lemma_sources_not_empty(claims: Seq<file_owner_finder::Claim>)
    ensures
        forall|i: int|
            0 <= i < file_owner_finder::grouped(claims).len() ==> (#[trigger] file_owner_finder::grouped(
                claims,
            )[i]).sources.len() > 0,
    decreases claims.len(),
{
    if claims.len() > 0 {
        lemma_sources_not_empty(claims.drop_last());
        lemma_with_source_not_empty(
            file_owner_finder::grouped(claims.drop_last()),
            claims.last().0,
            claims.last().1,
        );
    }
}

proof fn lemma_with_source_not_empty(
    owners: Seq<file_owner_finder::OwnerView>,
    team: Seq<char>,
    source: crate::ownership::mapper::SourceView,
)
    requires
        forall|i: int| 0 <= i < owners.len() ==> (#[trigger] owners[i]).sources.len() > 0,
    ensures
        forall|i: int|
            0 <= i < file_owner_finder::with_source(owners, team, source).len() ==> (
            #[trigger] file_owner_finder::with_source(owners, team, source)[i]).sources.len() > 0,
    decreases owners.len(),
{
    if owners.len() > 0 {
        let rest = owners.skip(1);
        assert forall|i: int| 0 <= i < rest.len() implies (#[trigger] rest[i]).sources.len() > 0 by {
            assert(rest[i] == owners[i + 1]);
        }
        assert(owners[0].sources.len() > 0);
        lemma_with_source_not_empty(rest, team, source);
        let w = file_owner_finder::with_source(owners, team, source);
        assert forall|i: int| 0 <= i < w.len() implies (#[trigger] w[i]).sources.len() > 0 by {
            if i > 0 && owners[0].team_name != team {
                assert(w[i] == file_owner_finder::with_source(rest, team, source)[i - 1]);
            }
        }
    }
}

/// An annotation that names no team is reported with the name that it gives: in a judgement
/// of the whole project, and in one of some paths if the file is among them.
pub proof fn law_an_invalid_annotation_is_named(
    project: ProjectView,
    rules: Seq<OwnerMatcherView>,
    owned: Seq<Seq<char>>,
    supplied: Seq<Seq<char>>,
    i: int,
)
    requires
        0 <= i < project.files.len(),
        project.files[i].owner is Some,
        !validator::team_exists(project.teams, project.files[i].owner->0),
    ensures
        ({
            let e = ErrorView::InvalidTeam {
                name: project.files[i].owner->0,
                path: project.relative(project.files[i].path),
            };
            &&& validator::project_errors(project, rules).contains(e)
            &&& validator::names_path(owned, project.relative(project.files[i].path))
                ==> validator::scoped_errors(project, rules, owned, supplied).contains(e)
        }),
{
    let file = project.files[i];
    let e = ErrorView::InvalidTeam { name: file.owner->0, path: project.relative(file.path) };
    lemma_annotation_error(project, project.files, e);
    let found = validator::annotation_errors(project, project.files);
    assert(found.contains(e));
    let k = choose|k: int| 0 <= k < found.len() && found[k] == e;
    assert(validator::project_errors(project, rules)[k] == e);
    if validator::names_path(owned, project.relative(file.path)) {
        let named = |f: ProjectFileView| validator::names_path(owned, project.relative(f.path));
        project.files.lemma_filter_contains(named, i);
        let files = project.files_named(owned);
        assert(files.contains(file));
        let j = choose|j: int| 0 <= j < files.len() && files[j] == file;
        lemma_annotation_error(project, files, e);
        let some = validator::annotation_errors(project, files);
        assert(files[j].owner is Some);
        assert(some.contains(e));
        let l = choose|l: int| 0 <= l < some.len() && some[l] == e;
        assert(validator::scoped_errors(project, rules, owned, supplied)[l] == e);
    }
}

/// A package in scope whose manifest names no team is reported, and every reference to a
/// missing team that a judgement of some paths reports, that of the whole project reports.
pub proof fn law_scoped_team_errors(
    project: ProjectView,
    rules: Seq<OwnerMatcherView>,
    owned: Seq<Seq<char>>,
    supplied: Seq<Seq<char>>,
    i: int,
    e: ErrorView,
)
    ensures
        0 <= i < project.packages.len() && project.in_scope(project.packages[i], supplied) && !validator::team_exists(
            project.teams,
            project.packages[i].owner,
        ) ==> validator::scoped_errors(project, rules, owned, supplied).contains(
            ErrorView::InvalidTeam {
                name: project.packages[i].owner,
                path: project.relative(project.packages[i].path),
            },
        ),
        validator::annotation_errors(project, project.files_named(owned)).contains(e)
            ==> validator::project_errors(project, rules).contains(e),
        validator::package_errors(project, project.packages_in_scope(supplied)).contains(e)
            ==> validator::project_errors(project, rules).contains(e),
{
    let files = project.files_named(owned);
    let packages = project.packages_in_scope(supplied);
    let named = |f: ProjectFileView| validator::names_path(owned, project.relative(f.path));
    let held = |p: PackageView| project.in_scope(p, supplied);
    if 0 <= i < project.packages.len() && project.in_scope(project.packages[i], supplied) && !validator::team_exists(
        project.teams,
        project.packages[i].owner,
    ) {
        let package = project.packages[i];
        let w = ErrorView::InvalidTeam { name: package.owner, path: project.relative(package.path) };
        project.packages.lemma_filter_contains(held, i);
        assert(packages.contains(package));
        let j = choose|j: int| 0 <= j < packages.len() && packages[j] == package;
        lemma_package_error(project, packages, w);
        let found = validator::package_errors(project, packages);
        assert(!validator::team_exists(project.teams, packages[j].owner));
        assert(found.contains(w));
        let k = choose|k: int| 0 <= k < found.len() && found[k] == w;
        let front = validator::annotation_errors(project, files);
        assert(validator::scoped_errors(project, rules, owned, supplied)[front.len() + k] == w);
    }
    if validator::annotation_errors(project, files).contains(e) {
        lemma_annotation_error(project, files, e);
        lemma_annotation_error(project, project.files, e);
        let j = choose|j: int|
            0 <= j < files.len() && (#[trigger] files[j]).owner is Some && !validator::team_exists(
                project.teams,
                files[j].owner->0,
            ) && e == (ErrorView::InvalidTeam { name: files[j].owner->0, path: project.relative(files[j].path) });
        assert(files.contains(files[j]));
        project.files.lemma_filter_contains_rev(named, files[j]);
        let k = choose|k: int| 0 <= k < project.files.len() && project.files[k] == files[j];
        assert(project.files[k].owner is Some);
        let found = validator::annotation_errors(project, project.files);
        assert(found.contains(e));
        let l = choose|l: int| 0 <= l < found.len() && found[l] == e;
        assert(validator::project_errors(project, rules)[l] == e);
    }
    if validator::package_errors(project, packages).contains(e) {
        lemma_package_error(project, packages, e);
        lemma_package_error(project, project.packages, e);
        let j = choose|j: int|
            0 <= j < packages.len() && !validator::team_exists(project.teams, (#[trigger] packages[j]).owner) && e == (
            ErrorView::InvalidTeam { name: packages[j].owner, path: project.relative(packages[j].path) });
        assert(packages.contains(packages[j]));
        project.packages.lemma_filter_contains_rev(held, packages[j]);
        let k = choose|k: int| 0 <= k < project.packages.len() && project.packages[k] == packages[j];
        assert(!validator::team_exists(project.teams, project.packages[k].owner));
        let front = validator::annotation_errors(project, project.files);
        let found = validator::package_errors(project, project.packages);
        assert(found.contains(e));
        let l = choose|l: int| 0 <= l < found.len() && found[l] == e;
        assert(validator::project_errors(project, rules)[front.len() + l] == e);
    }
}

/// A package that holds none of the supplied paths is not judged: with none in scope,
/// only files are.
pub proof fn law_unrelated_packages_are_not_judged(
    project: ProjectView,
    rules: Seq<OwnerMatcherView>,
    owned: Seq<Seq<char>>,
    supplied: Seq<Seq<char>>,
)
    requires
        forall|i: int| 0 <= i < project.packages.len() ==> !project.in_scope(#[trigger] project.packages[i], supplied),
    ensures
        validator::scoped_errors(project, rules, owned, supplied) == validator::annotation_errors(
            project,
            project.files_named(owned),
        ) + validator::ownership_errors(rules, validator::distinct_paths(owned)),
{
    let held = |p: PackageView| project.in_scope(p, supplied);
    lemma_filter_none(project.packages, held);
    assert(project.packages_in_scope(supplied) =~= Seq::empty());
    assert(validator::scoped_errors(project, rules, owned, supplied) =~= validator::annotation_errors(
        project,
        project.files_named(owned),
    ) + validator::ownership_errors(rules, validator::distinct_paths(owned)));
}

proof fn lemma_filter_none<A>(s: Seq<A>, pred: spec_fn(A) -> bool)
    requires
        forall|i: int| 0 <= i < s.len() ==> !pred(#[trigger] s[i]),
    ensures
        s.filter(pred).len() == 0,
    decreases s.len(),
{
    reveal(Seq::filter);
    if s.len() > 0 {
        let init = s.drop_last();
        assert forall|i: int| 0 <= i < init.len() implies !pred(#[trigger] init[i]) by {
            assert(init[i] == s[i]);
        }
        lemma_filter_none(init, pred);
        assert(!pred(s[s.len() - 1]));
    }
}

/// With no path named there is nothing to report.
pub proof fn law_no_paths_no_defects(project: ProjectView, rules: Seq<OwnerMatcherView>)
    ensures
        validator::scoped_errors(project, rules, Seq::empty(), Seq::empty()).len() == 0,
{
    let none = Seq::<Seq<char>>::empty();
    assert forall|i: int| 0 <= i < project.packages.len() implies !project.in_scope(
        #[trigger] project.packages[i],
        none,
    ) by {}
    law_unrelated_packages_are_not_judged(project, rules, none, none);
    lemma_filter_none(
        project.files,
        |f: ProjectFileView| validator::names_path(none, project.relative(f.path)),
    );
}

/// A package at the root of the project holds every path.
pub proof fn law_root_package_holds_every_path(
    project: ProjectView,
    package: PackageView,
    supplied: Seq<Seq<char>>,
    i: int,
)
    requires
        path::parent_text(package.path) is Some,
        path::same_path(path::parent_text(package.path)->0, project.base_path),
        0 <= i < supplied.len(),
    ensures
        project.in_scope(package, supplied),
{
    let dir = path::parent_text(package.path)->0;
    let k = path::components(project.base_path).len() as int;
    assert(path::components(dir).subrange(0, k) =~= path::components(dir));
    assert(path::starts_with(dir, project.base_path));
    path::lemma_text_after(dir, k);
    let rel = project.relative(dir);
    assert(path::components(rel) =~= Seq::empty());
    assert(path::components(supplied[i]).subrange(0, 0) =~= Seq::empty());
    assert(path::starts_with(supplied[i], rel));
}

/// Naming the manifest of a package puts the package in scope.
pub proof fn law_a_manifest_selects_its_package(project: ProjectView, package: PackageView, supplied: Seq<Seq<char>>, i: int)
    requires
        path::starts_with(package.path, project.base_path),
        path::components(package.path).len() > path::components(project.base_path).len(),
        path::parent_text(package.path) is Some,
        0 <= i < supplied.len(),
        path::same_path(supplied[i], project.relative(package.path)),
    ensures
        project.in_scope(package, supplied),
{
    let cs = path::components(package.path);
    let n = cs.len() as int;
    let dir = path::parent_text(package.path)->0;
    path::lemma_text_upto(package.path, n - 1);
    let k = path::components(project.base_path).len() as int;
    assert(path::components(dir) == cs.take(n - 1));
    assert(cs.take(n - 1).subrange(0, k) =~= cs.subrange(0, k));
    assert(path::starts_with(dir, project.base_path));
    path::lemma_text_after(dir, k);
    path::lemma_text_after(package.path, k);
    let rel = project.relative(dir);
    assert(path::components(rel) == cs.take(n - 1).skip(k));
    assert(path::components(supplied[i]) == cs.skip(k));
    assert(cs.skip(k).subrange(0, n - 1 - k) =~= cs.take(n - 1).skip(k));
    assert(path::starts_with(supplied[i], rel));
}

/// A package holds a path exactly if the path begins with the components of the package's
/// directory; that its text begins alike does not count.
pub proof fn law_scope_goes_by_components(project: ProjectView, package: PackageView, p: Seq<char>)
    requires
        path::parent_text(package.path) is Some,
    ensures
        ({
            let dir = path::components(project.relative(path::parent_text(package.path)->0));
            project.in_scope(package, seq![p]) <==> dir.len() <= path::components(p).len() && (forall|k: int|
                0 <= k < dir.len() ==> #[trigger] dir[k] == path::components(p)[k])
        }),
{
    let rel = project.relative(path::parent_text(package.path)->0);
    let dir = path::components(rel);
    let cs = path::components(p);
    assert(seq![p][0] == p);
    if project.in_scope(package, seq![p]) {
        assert(path::starts_with(p, rel));
        assert forall|k: int| 0 <= k < dir.len() implies #[trigger] dir[k] == cs[k] by {
            assert(cs.subrange(0, dir.len() as int)[k] == cs[k]);
        }
    }
    if dir.len() <= cs.len() && (forall|k: int| 0 <= k < dir.len() ==> #[trigger] dir[k] == cs[k]) {
        assert(cs.subrange(0, dir.len() as int) =~= dir);
        assert(path::starts_with(seq![p][0], rel));
    }
}

proof fn lemma_no_infos(errors: Seq<ErrorView>)
    requires
        forall|i: int| 0 <= i < errors.len() ==> !(#[trigger] errors[i] is CodeownershipFileIsStale),
    ensures
        validator::infos(errors).len() == 0,
    decreases errors.len(),
{
    if errors.len() > 0 {
        let init = errors.drop_last();
        assert forall|i: int| 0 <= i < init.len() implies !(#[trigger] init[i] is CodeownershipFileIsStale) by {
            assert(init[i] == errors[i]);
        }
        lemma_no_infos(init);
        assert(!(errors[errors.len() - 1] is CodeownershipFileIsStale));
    }
}

proof fn lemma_kinds(
    project: ProjectView,
    rules: Seq<OwnerMatcherView>,
    files: Seq<ProjectFileView>,
    packages: Seq<PackageView>,
    paths: Seq<Seq<char>>,
)
    ensures
        ({
            let errors = validator::annotation_errors(project, files) + validator::package_errors(project, packages)
                + validator::ownership_errors(rules, paths);
            forall|i: int| 0 <= i < errors.len() ==> !(#[trigger] errors[i] is CodeownershipFileIsStale)
        }),
{
    let a = validator::annotation_errors(project, files);
    let b = validator::package_errors(project, packages);
    let c = validator::ownership_errors(rules, paths);
    let errors = a + b + c;
    assert forall|i: int| 0 <= i < errors.len() implies !(#[trigger] errors[i] is CodeownershipFileIsStale) by {
        let e = errors[i];
        if i < a.len() {
            assert(a[i] == e);
            assert(a.contains(e));
            lemma_annotation_error(project, files, e);
        } else if i < a.len() + b.len() {
            assert(b[i - a.len()] == e);
            assert(b.contains(e));
            lemma_package_error(project, packages, e);
        } else {
            assert(c[i - a.len() - b.len()] == e);
            assert(c.contains(e));
            lemma_ownership_error(rules, paths, e);
        }
    }
}

/// What is wrong with the project itself is never that the CODEOWNERS file is stale, and
/// there is nothing to say beside the report.
pub proof fn law_whole_runs_judge_the_project_alone(project: ProjectView, rules: Seq<OwnerMatcherView>)
    ensures
        forall|i: int|
            0 <= i < validator::project_errors(project, rules).len() ==> !(#[trigger] validator::project_errors(
                project,
                rules,
            )[i] is CodeownershipFileIsStale),
        validator::infos(validator::project_errors(project, rules)).len() == 0,
{
    lemma_kinds(project, rules, project.files, project.packages, project.relative_files());
    lemma_no_infos(validator::project_errors(project, rules));
}

/// A judgement of some paths never finds the CODEOWNERS file stale, and has nothing to say
/// beside its report.
pub proof fn law_scoped_runs_have_no_infos(
    project: ProjectView,
    rules: Seq<OwnerMatcherView>,
    owned: Seq<Seq<char>>,
    supplied: Seq<Seq<char>>,
)
    ensures
        validator::infos(validator::scoped_errors(project, rules, owned, supplied)).len() == 0,
{
    lemma_kinds(
        project,
        rules,
        project.files_named(owned),
        project.packages_in_scope(supplied),
        validator::distinct_paths(owned),
    );
    lemma_no_infos(validator::scoped_errors(project, rules, owned, supplied));
}

/// The lines by which a stale CODEOWNERS file has to change are told beside the report and
/// not in it: under its headline nothing stands.
pub proof fn law_the_diff_is_told_beside_the_report(
    project: ProjectView,
    rules: Seq<OwnerMatcherView>,
    executable_name: Seq<char>,
    current: Seq<char>,
    generated: Seq<char>,
)
    ensures
        ({
            let stale = validator::staleness_errors(executable_name, current, generated);
            &&& validator::infos(validator::project_errors(project, rules) + stale) == if generated == current
                || validator::diff_text(current, generated).len() == 0 {
                Seq::empty()
            } else {
                seq![
                    "The following changes are required (- current, + expected):\n"@ + validator::diff_text(
                        current,
                        generated,
                    ),
                ]
            }
            &&& forall|i: int| 0 <= i < stale.len() ==> (#[trigger] stale[i]).messages().len() == 0
        }),
{
    let errors = validator::project_errors(project, rules);
    let stale = validator::staleness_errors(executable_name, current, generated);
    lemma_kinds(project, rules, project.files, project.packages, project.relative_files());
    lemma_no_infos(errors);
    let all = errors + stale;
    if generated == current {
        assert(all =~= errors);
        assert(validator::infos(all) =~= Seq::empty());
    } else {
        assert(all.drop_last() =~= errors);
        assert(all.last() == stale[0]);
        if validator::diff_text(current, generated).len() == 0 {
            assert(validator::infos(all) =~= Seq::empty());
        } else {
            assert(validator::infos(all) =~= seq![
                "The following changes are required (- current, + expected):\n"@ + validator::diff_text(
                    current,
                    generated,
                ),
            ]);
        }
    }
}

proof fn lemma_messages_without(errors: Seq<ErrorView>, category: Seq<char>, i: int)
    requires
        0 <= i < errors.len(),
    ensures
        validator::messages_under(errors, category).to_multiset() == validator::messages_under(
            errors.remove(i),
            category,
        ).to_multiset().add(
            if errors[i].category() == category {
                errors[i].messages().to_multiset()
            } else {
                Multiset::empty()
            },
        ),
    decreases errors.len(),
{
    broadcast use vstd::multiset::group_multiset_axioms;

    let last = errors.last();
    let init = errors.drop_last();
    vstd::seq_lib::lemma_multiset_commutative(validator::messages_under(init, category), last.messages());
    if i == errors.len() - 1 {
        assert(errors.remove(i) =~= init);
    } else {
        lemma_messages_without(init, category, i);
        let less = errors.remove(i);
        assert(less.drop_last() =~= init.remove(i));
        assert(less.last() == last);
        assert(init[i] == errors[i]);
        vstd::seq_lib::lemma_multiset_commutative(validator::messages_under(init.remove(i), category), last.messages());
    }
    assert(validator::messages_under(errors, category).to_multiset() =~= validator::messages_under(
        errors.remove(i),
        category,
    ).to_multiset().add(
        if errors[i].category() == category {
            errors[i].messages().to_multiset()
        } else {
            Multiset::empty()
        },
    ));
}

proof fn lemma_messages_forget_the_order(a: Seq<ErrorView>, b: Seq<ErrorView>, category: Seq<char>)
    requires
        a.to_multiset() == b.to_multiset(),
    ensures
        validator::messages_under(a, category).to_multiset() == validator::messages_under(b, category).to_multiset(),
    decreases a.len(),
{
    a.to_multiset_ensures();
    b.to_multiset_ensures();
    if a.len() > 0 {
        let e = a.last();
        let last = a.len() - 1;
        assert(a[last] == e);
        assert(a.contains(e));
        assert(b.to_multiset().count(e) > 0);
        assert(b.contains(e));
        let k = choose|k: int| 0 <= k < b.len() && b[k] == e;
        assert(a.remove(last) =~= a.drop_last());
        assert(a.remove(last).to_multiset() =~= b.remove(k).to_multiset());
        lemma_messages_forget_the_order(a.remove(last), b.remove(k), category);
        lemma_messages_without(a, category, last);
        lemma_messages_without(b, category, k);
    }
}

proof fn lemma_distinct(list: Seq<Seq<char>>)
    ensures
        text::distinct(list).no_duplicates(),
        forall|t: Seq<char>| #[trigger] text::distinct(list).contains(t) <==> list.contains(t),
    decreases list.len(),
{
    if list.len() > 0 {
        let init = list.drop_last();
        let before = text::distinct(init);
        let now = text::distinct(list);
        lemma_distinct(init);
        assert(list[list.len() - 1] == list.last());
        assert forall|t: Seq<char>| #[trigger] now.contains(t) <==> list.contains(t) by {
            if list.contains(t) {
                let i = choose|i: int| 0 <= i < list.len() && list[i] == t;
                if i < init.len() {
                    assert(init[i] == t);
                    assert(before.contains(t));
                }
                if before.contains(t) {
                    let k = choose|k: int| 0 <= k < before.len() && before[k] == t;
                    assert(now[k] == t);
                } else {
                    assert(now[before.len() as int] == t);
                }
            }
            if now.contains(t) {
                let k = choose|k: int| 0 <= k < now.len() && now[k] == t;
                if k < before.len() {
                    assert(before[k] == t);
                    assert(before.contains(t));
                    let i = choose|i: int| 0 <= i < init.len() && init[i] == t;
                    assert(list[i] == t);
                }
            }
        }
        if !before.contains(list.last()) {
            assert forall|i: int, j: int| 0 <= i < now.len() && 0 <= j < now.len() && i != j implies now[i]
                != now[j] by {
                if i < before.len() && j == before.len() {
                    assert(before[i] == now[i]);
                }
                if j < before.len() && i == before.len() {
                    assert(before[j] == now[j]);
                }
            }
        }
    }
}

proof fn lemma_distinct_multiset(a: Seq<Seq<char>>, b: Seq<Seq<char>>)
    requires
        forall|t: Seq<char>| #[trigger] a.contains(t) <==> b.contains(t),
    ensures
        text::distinct(a).to_multiset() == text::distinct(b).to_multiset(),
{
    let x = text::distinct(a);
    let y = text::distinct(b);
    lemma_distinct(a);
    lemma_distinct(b);
    x.to_multiset_ensures();
    y.to_multiset_ensures();
    x.lemma_multiset_has_no_duplicates();
    y.lemma_multiset_has_no_duplicates();
    assert forall|t: Seq<char>| #[trigger] x.to_multiset().count(t) == y.to_multiset().count(t) by {
        assert(a.contains(t) <==> b.contains(t));
        assert(x.contains(t) <==> y.contains(t));
        assert(x.contains(t) <==> x.to_multiset().count(t) > 0);
        assert(y.contains(t) <==> y.to_multiset().count(t) > 0);
        if x.contains(t) {
            assert(x.to_multiset().contains(t));
            assert(y.to_multiset().contains(t));
        }
    }
    assert(x.to_multiset() =~= y.to_multiset());
}

proof fn lemma_sections_forget_the_order(a: Seq<ErrorView>, b: Seq<ErrorView>, heads: Seq<Seq<char>>)
    requires
        a.to_multiset() == b.to_multiset(),
    ensures
        validator::sections(a, heads) == validator::sections(b, heads),
    decreases heads.len(),
{
    if heads.len() > 0 {
        lemma_sections_forget_the_order(a, b, heads.drop_last());
        lemma_messages_forget_the_order(a, b, heads.last());
        order::law_sorting_forgets_the_order(
            validator::messages_under(a, heads.last()),
            validator::messages_under(b, heads.last()),
        );
    }
}

/// A report does not depend on the order in which the defects were found.
pub proof fn law_reports_forget_the_order(a: Seq<ErrorView>, b: Seq<ErrorView>)
    requires
        a.to_multiset() == b.to_multiset(),
    ensures
        validator::report(a) == validator::report(b),
{
    let x = validator::categories(a);
    let y = validator::categories(b);
    a.to_multiset_ensures();
    b.to_multiset_ensures();
    assert forall|t: Seq<char>| #[trigger] x.contains(t) <==> y.contains(t) by {
        if x.contains(t) {
            let i = choose|i: int| 0 <= i < x.len() && x[i] == t;
            assert(a.contains(a[i]));
            assert(b.to_multiset().count(a[i]) > 0);
            assert(b.contains(a[i]));
            let k = choose|k: int| 0 <= k < b.len() && b[k] == a[i];
            assert(y[k] == t);
        }
        if y.contains(t) {
            let i = choose|i: int| 0 <= i < y.len() && y[i] == t;
            assert(b.contains(b[i]));
            assert(a.to_multiset().count(b[i]) > 0);
            assert(a.contains(b[i]));
            let k = choose|k: int| 0 <= k < a.len() && a[k] == b[i];
            assert(x[k] == t);
        }
    }
    lemma_distinct_multiset(x, y);
    order::law_sorting_forgets_the_order(text::distinct(x), text::distinct(y));
    lemma_sections_forget_the_order(a, b, order::sorted_texts(text::distinct(x)));
}

proof fn lemma_errors_without(rules: Seq<OwnerMatcherView>, paths: Seq<Seq<char>>, i: int)
    requires
        0 <= i < paths.len(),
    ensures
        validator::ownership_errors(rules, paths).to_multiset() == match ownership_error(rules, paths[i]) {
            Some(e) => validator::ownership_errors(rules, paths.remove(i)).to_multiset().insert(e),
            None => validator::ownership_errors(rules, paths.remove(i)).to_multiset(),
        },
    decreases paths.len(),
{
    broadcast use vstd::multiset::group_multiset_axioms;

    let init = paths.drop_last();
    let less = paths.remove(i);
    let before = validator::ownership_errors(rules, init);
    before.to_multiset_ensures();
    if i == paths.len() - 1 {
        assert(less =~= init);
    } else {
        lemma_errors_without(rules, init, i);
        assert(less.drop_last() =~= init.remove(i));
        assert(less.last() == paths.last());
        assert(init[i] == paths[i]);
        let fewer = validator::ownership_errors(rules, init.remove(i));
        fewer.to_multiset_ensures();
    }
    match ownership_error(rules, paths[i]) {
        Some(e) => {
            assert(validator::ownership_errors(rules, paths).to_multiset() =~= validator::ownership_errors(
                rules,
                less,
            ).to_multiset().insert(e));
        },
        None => {
            assert(validator::ownership_errors(rules, paths).to_multiset() =~= validator::ownership_errors(
                rules,
                less,
            ).to_multiset());
        },
    }
}

proof fn lemma_errors_forget_the_order(rules: Seq<OwnerMatcherView>, a: Seq<Seq<char>>, b: Seq<Seq<char>>)
    requires
        a.to_multiset() == b.to_multiset(),
    ensures
        validator::ownership_errors(rules, a).to_multiset() == validator::ownership_errors(rules, b).to_multiset(),
    decreases a.len(),
{
    a.to_multiset_ensures();
    b.to_multiset_ensures();
    if a.len() > 0 {
        let p = a.last();
        let last = a.len() - 1;
        assert(a[last] == p);
        assert(a.contains(p));
        assert(b.to_multiset().count(p) > 0);
        assert(b.contains(p));
        let k = choose|k: int| 0 <= k < b.len() && b[k] == p;
        assert(a.remove(last) =~= a.drop_last());
        assert(a.remove(last).to_multiset() =~= b.remove(k).to_multiset());
        lemma_errors_forget_the_order(rules, a.remove(last), b.remove(k));
        lemma_errors_without(rules, a, last);
        lemma_errors_without(rules, b, k);
    } else {
        assert(b.len() == 0);
        assert(a =~= b);
    }
}

/// Whether equal paths of a list are spelled alike.
pub open spec fn spelled_alike(list: Seq<Seq<char>>) -> bool {
    forall|i: int, j: int|
        0 <= i < list.len() && 0 <= j < list.len() && path::same_path(#[trigger] list[i], #[trigger] list[j])
            ==> list[i] == list[j]
}

proof fn lemma_distinct_paths_contain(list: Seq<Seq<char>>, p: Seq<char>)
    requires
        spelled_alike(list),
    ensures
        validator::distinct_paths(list).contains(p) <==> list.contains(p),
{
    let d = validator::distinct_paths(list);
    lemma_distinct_paths(list);
    if list.contains(p) {
        let i = choose|i: int| 0 <= i < list.len() && list[i] == p;
        assert(path::same_path(list[i], p));
        assert(validator::names_path(list, p));
        assert(validator::names_path(d, p));
        let k = choose|k: int| 0 <= k < d.len() && path::same_path(#[trigger] d[k], p);
        assert(list.contains(d[k]));
        let j = choose|j: int| 0 <= j < list.len() && list[j] == d[k];
        assert(path::same_path(list[j], list[i]));
    }
    if d.contains(p) {
        let k = choose|k: int| 0 <= k < d.len() && d[k] == p;
        assert(list.contains(d[k]));
    }
}

proof fn lemma_same_paths(a: Seq<Seq<char>>, b: Seq<Seq<char>>)
    requires
        spelled_alike(a),
        a.to_multiset() == b.to_multiset(),
    ensures
        spelled_alike(b),
        forall|p: Seq<char>| #[trigger] a.contains(p) <==> b.contains(p),
        forall|p: Seq<char>| #[trigger] validator::names_path(a, p) <==> validator::names_path(b, p),
        validator::distinct_paths(a).to_multiset() == validator::distinct_paths(b).to_multiset(),
{
    a.to_multiset_ensures();
    b.to_multiset_ensures();
    assert forall|p: Seq<char>| #[trigger] a.contains(p) <==> b.contains(p) by {
        assert(a.contains(p) <==> a.to_multiset().count(p) > 0);
        assert(b.contains(p) <==> b.to_multiset().count(p) > 0);
    }
    assert forall|i: int, j: int|
        0 <= i < b.len() && 0 <= j < b.len() && path::same_path(#[trigger] b[i], #[trigger] b[j]) implies b[i]
        == b[j] by {
        assert(b.contains(b[i]) && b.contains(b[j]));
        assert(a.contains(b[i]) && a.contains(b[j]));
        let k = choose|k: int| 0 <= k < a.len() && a[k] == b[i];
        let l = choose|l: int| 0 <= l < a.len() && a[l] == b[j];
        assert(path::same_path(a[k], a[l]));
    }
    assert forall|p: Seq<char>| #[trigger] validator::names_path(a, p) <==> validator::names_path(b, p) by {
        if validator::names_path(a, p) {
            let i = choose|i: int| 0 <= i < a.len() && path::same_path(#[trigger] a[i], p);
            assert(a.contains(a[i]));
            let k = choose|k: int| 0 <= k < b.len() && b[k] == a[i];
            assert(path::same_path(b[k], p));
        }
        if validator::names_path(b, p) {
            let i = choose|i: int| 0 <= i < b.len() && path::same_path(#[trigger] b[i], p);
            assert(b.contains(b[i]));
            assert(a.contains(b[i]));
            let k = choose|k: int| 0 <= k < a.len() && a[k] == b[i];
            assert(path::same_path(a[k], p));
        }
    }
    let x = validator::distinct_paths(a);
    let y = validator::distinct_paths(b);
    lemma_distinct_paths(a);
    lemma_distinct_paths(b);
    assert(x.no_duplicates() && y.no_duplicates());
    x.to_multiset_ensures();
    y.to_multiset_ensures();
    x.lemma_multiset_has_no_duplicates();
    y.lemma_multiset_has_no_duplicates();
    assert forall|p: Seq<char>| #[trigger] x.to_multiset().count(p) == y.to_multiset().count(p) by {
        lemma_distinct_paths_contain(a, p);
        lemma_distinct_paths_contain(b, p);
        assert(a.contains(p) <==> b.contains(p));
        assert(x.contains(p) <==> x.to_multiset().count(p) > 0);
        assert(y.contains(p) <==> y.to_multiset().count(p) > 0);
        if x.contains(p) {
            assert(x.to_multiset().contains(p));
            assert(y.to_multiset().contains(p));
        }
    }
    assert(x.to_multiset() =~= y.to_multiset());
}

/// What is found wrong with some paths does not depend on the order in which they are named,
/// as long as equal paths are spelled alike.
pub proof fn law_the_order_of_paths_does_not_matter(
    project: ProjectView,
    rules: Seq<OwnerMatcherView>,
    owned: Seq<Seq<char>>,
    other_owned: Seq<Seq<char>>,
    supplied: Seq<Seq<char>>,
    other_supplied: Seq<Seq<char>>,
)
    requires
        spelled_alike(owned),
        owned.to_multiset() == other_owned.to_multiset(),
        supplied.to_multiset() == other_supplied.to_multiset(),
    ensures
        validator::scoped_errors(project, rules, owned, supplied).to_multiset() == validator::scoped_errors(
            project,
            rules,
            other_owned,
            other_supplied,
        ).to_multiset(),
        validator::report(validator::scoped_errors(project, rules, owned, supplied)) == validator::report(
            validator::scoped_errors(project, rules, other_owned, other_supplied),
        ),
{
    lemma_same_paths(owned, other_owned);
    let x = |f: ProjectFileView| validator::names_path(owned, project.relative(f.path));
    let y = |f: ProjectFileView| validator::names_path(other_owned, project.relative(f.path));
    assert(x =~= y);
    assert(project.files_named(owned) == project.files_named(other_owned));
    lemma_same_packages(project, supplied, other_supplied);
    lemma_errors_forget_the_order(
        rules,
        validator::distinct_paths(owned),
        validator::distinct_paths(other_owned),
    );
    let front = validator::annotation_errors(project, project.files_named(owned)) + validator::package_errors(
        project,
        project.packages_in_scope(supplied),
    );
    let m = validator::ownership_errors(rules, validator::distinct_paths(owned));
    let n = validator::ownership_errors(rules, validator::distinct_paths(other_owned));
    vstd::seq_lib::lemma_multiset_commutative(front, m);
    vstd::seq_lib::lemma_multiset_commutative(front, n);
    law_reports_forget_the_order(front + m, front + n);
}

proof fn lemma_same_packages(project: ProjectView, a: Seq<Seq<char>>, b: Seq<Seq<char>>)
    requires
        a.to_multiset() == b.to_multiset(),
    ensures
        project.packages_in_scope(a) == project.packages_in_scope(b),
{
    a.to_multiset_ensures();
    b.to_multiset_ensures();
    let x = |p: PackageView| project.in_scope(p, a);
    let y = |p: PackageView| project.in_scope(p, b);
    assert forall|p: PackageView| #[trigger] project.in_scope(p, a) <==> project.in_scope(p, b) by {
        if let Some(dir) = path::parent_text(p.path) {
            let root = project.relative(dir);
            if project.in_scope(p, a) {
                let i = choose|i: int| 0 <= i < a.len() && path::starts_with(#[trigger] a[i], root);
                assert(a.contains(a[i]));
                assert(b.to_multiset().count(a[i]) > 0);
                assert(b.contains(a[i]));
                let k = choose|k: int| 0 <= k < b.len() && b[k] == a[i];
                assert(path::starts_with(b[k], root));
            }
            if project.in_scope(p, b) {
                let i = choose|i: int| 0 <= i < b.len() && path::starts_with(#[trigger] b[i], root);
                assert(b.contains(b[i]));
                assert(a.to_multiset().count(b[i]) > 0);
                assert(a.contains(b[i]));
                let k = choose|k: int| 0 <= k < a.len() && a[k] == b[i];
                assert(path::starts_with(a[k], root));
            }
        }
    }
    assert(x =~= y);
}

/// A judgement of some paths finds nothing else: it never finds the CODEOWNERS file stale,
/// and names no path for its owners that does not have to have one.
pub proof fn law_scoped_runs_find_only_what_is_named(
    project: ProjectView,
    rules: Seq<OwnerMatcherView>,
    owned: Seq<Seq<char>>,
    supplied: Seq<Seq<char>>,
    e: ErrorView,
)
    requires
        validator::scoped_errors(project, rules, owned, supplied).contains(e),
    ensures
        !(e is CodeownershipFileIsStale),
        e is FileWithoutOwner || e is FileWithMultipleOwners ==> owned.contains(error_path(e)),
{
    let a = validator::annotation_errors(project, project.files_named(owned));
    let b = validator::package_errors(project, project.packages_in_scope(supplied));
    let paths = validator::distinct_paths(owned);
    let c = validator::ownership_errors(rules, paths);
    lemma_kinds(project, rules, project.files_named(owned), project.packages_in_scope(supplied), paths);
    let all = a + b + c;
    let i = choose|i: int| 0 <= i < all.len() && all[i] == e;
    if i < a.len() {
        assert(a[i] == e);
        assert(a.contains(e));
        lemma_annotation_error(project, project.files_named(owned), e);
    } else if i < a.len() + b.len() {
        assert(b[i - a.len()] == e);
        assert(b.contains(e));
        lemma_package_error(project, project.packages_in_scope(supplied), e);
    } else {
        assert(c[i - a.len() - b.len()] == e);
        assert(c.contains(e));
        lemma_ownership_error(rules, paths, e);
        lemma_distinct_paths(owned);
        let k = choose|k: int| 0 <= k < paths.len() && ownership_error(rules, #[trigger] paths[k]) == Some(e);
        assert(owned.contains(paths[k]));
    }
}

/// The defects of a list that name a path.
pub open spec fn errors_naming(errors: Seq<ErrorView>, p: Seq<char>) -> Seq<ErrorView> {
    errors.filter(|e: ErrorView| error_path(e) == p)
}

proof fn lemma_naming_push(errors: Seq<ErrorView>, e: ErrorView, p: Seq<char>)
    ensures
        errors_naming(errors.push(e), p) == if error_path(e) == p {
            errors_naming(errors, p).push(e)
        } else {
            errors_naming(errors, p)
        },
{
    reveal(Seq::filter);
    assert(errors.push(e).drop_last() =~= errors);
}

proof fn lemma_naming_concat(a: Seq<ErrorView>, b: Seq<ErrorView>, p: Seq<char>)
    ensures
        errors_naming(a + b, p) == errors_naming(a, p) + errors_naming(b, p),
    decreases b.len(),
{
    reveal(Seq::filter);
    if b.len() == 0 {
        assert(a + b =~= a);
        assert(errors_naming(b, p) =~= Seq::empty());
        assert(errors_naming(a, p) + errors_naming(b, p) =~= errors_naming(a, p));
    } else {
        let init = b.drop_last();
        lemma_naming_concat(a, init, p);
        lemma_naming_push(a + init, b.last(), p);
        lemma_naming_push(init, b.last(), p);
        assert(a + b =~= (a + init).push(b.last()));
        assert(b =~= init.push(b.last()));
        assert(errors_naming(a + b, p) =~= errors_naming(a, p) + errors_naming(b, p));
    }
}

proof fn lemma_named_annotations(project: ProjectView, files: Seq<ProjectFileView>, p: Seq<char>)
    ensures
        errors_naming(
            validator::annotation_errors(
                project,
                files.filter(|f: ProjectFileView| validator::names_path(seq![p], project.relative(f.path))),
            ),
            p,
        ) == errors_naming(validator::annotation_errors(project, files), p),
    decreases files.len(),
{
    reveal(Seq::filter);
    let named = |f: ProjectFileView| validator::names_path(seq![p], project.relative(f.path));
    if files.len() > 0 {
        let init = files.drop_last();
        let file = files.last();
        lemma_named_annotations(project, init, p);
        let some = init.filter(named);
        let e = ErrorView::InvalidTeam { name: file.owner->0, path: project.relative(file.path) };
        lemma_naming_push(validator::annotation_errors(project, init), e, p);
        lemma_naming_push(validator::annotation_errors(project, some), e, p);
        if named(file) {
            assert(files.filter(named) == some.push(file));
            assert(some.push(file).drop_last() =~= some);
        } else {
            assert(files.filter(named) == some);
            if project.relative(file.path) == p {
                assert(path::same_path(seq![p][0], project.relative(file.path)));
            }
        }
    }
}

/// A package whose manifest is at `p` is in scope when `p` is named.
proof fn lemma_manifest_in_scope(project: ProjectView, package: PackageView, p: Seq<char>)
    requires
        project.relative(package.path) == p,
        path::parent_text(p) is Some,
    ensures
        project.in_scope(package, seq![p]),
{
    let cs = path::components(package.path);
    let n = cs.len() as int;
    let k = path::components(project.base_path).len() as int;
    let below = path::starts_with(package.path, project.base_path);
    assert(seq![p][0] == p);
    path::lemma_components(package.path);
    if below {
        path::lemma_text_after(package.path, k);
        assert(path::components(p) == cs.skip(k));
        assert(cs.skip(k).last() == cs.last());
    }
    assert(path::parent_text(package.path) is Some);
    if below {
        law_a_manifest_selects_its_package(project, package, seq![p], 0);
    } else {
        let dir = path::parent_text(package.path)->0;
        path::lemma_text_upto(package.path, n - 1);
        if path::starts_with(dir, project.base_path) {
            assert(path::components(project.base_path) =~= cs.take(n - 1).take(k));
            assert(cs.take(n - 1).take(k) =~= cs.take(k));
            assert(path::starts_with(package.path, project.base_path));
        }
        assert(project.relative(dir) == dir);
        assert(cs.take(n - 1).is_prefix_of(cs));
        assert(path::starts_with(seq![p][0], project.relative(dir)));
    }
}

proof fn lemma_named_packages(project: ProjectView, packages: Seq<PackageView>, p: Seq<char>)
    requires
        path::parent_text(p) is Some,
    ensures
        errors_naming(
            validator::package_errors(
                project,
                packages.filter(|q: PackageView| project.in_scope(q, seq![p])),
            ),
            p,
        ) == errors_naming(validator::package_errors(project, packages), p),
    decreases packages.len(),
{
    reveal(Seq::filter);
    let held = |q: PackageView| project.in_scope(q, seq![p]);
    if packages.len() > 0 {
        let init = packages.drop_last();
        let package = packages.last();
        lemma_named_packages(project, init, p);
        let some = init.filter(held);
        let e = ErrorView::InvalidTeam { name: package.owner, path: project.relative(package.path) };
        lemma_naming_push(validator::package_errors(project, init), e, p);
        lemma_naming_push(validator::package_errors(project, some), e, p);
        if held(package) {
            assert(packages.filter(held) == some.push(package));
            assert(some.push(package).drop_last() =~= some);
        } else {
            assert(packages.filter(held) == some);
            if project.relative(package.path) == p {
                lemma_manifest_in_scope(project, package, p);
            }
        }
    }
}

proof fn lemma_named_owners(rules: Seq<OwnerMatcherView>, paths: Seq<Seq<char>>, p: Seq<char>)
    requires
        paths_differ(paths),
    ensures
        errors_naming(validator::ownership_errors(rules, paths), p) == if paths.contains(p) {
            validator::ownership_errors(rules, seq![p])
        } else {
            Seq::empty()
        },
    decreases paths.len(),
{
    reveal(Seq::filter);
    assert(seq![p].drop_last() =~= Seq::empty());
    assert(seq![p].last() == p);
    assert(validator::ownership_errors(rules, Seq::empty()) =~= Seq::empty());
    assert(validator::ownership_errors(rules, seq![p]) =~= match ownership_error(rules, p) {
        Some(e) => seq![e],
        None => Seq::empty(),
    });
    if paths.len() > 0 {
        let init = paths.drop_last();
        let last = paths.len() - 1;
        assert forall|i: int, j: int| 0 <= i < j < init.len() implies !path::same_path(
            #[trigger] init[i],
            #[trigger] init[j],
        ) by {
            assert(init[i] == paths[i] && init[j] == paths[j]);
        }
        lemma_named_owners(rules, init, p);
        let before = validator::ownership_errors(rules, init);
        let q = paths.last();
        assert(paths[last] == q);
        if let Some(e) = ownership_error(rules, q) {
            assert(validator::ownership_errors(rules, paths) == before.push(e));
            lemma_naming_push(before, e, p);
        } else {
            assert(validator::ownership_errors(rules, paths) == before);
        }
        if init.contains(p) {
            let i = choose|i: int| 0 <= i < init.len() && init[i] == p;
            assert(paths[i] == p);
            assert(!path::same_path(paths[i], paths[last]));
        } else if paths.contains(p) {
            let i = choose|i: int| 0 <= i < paths.len() && paths[i] == p;
            if i < init.len() {
                assert(init[i] == p);
            }
            assert(q == p);
            assert(errors_naming(validator::ownership_errors(rules, paths), p) =~= validator::ownership_errors(
                rules,
                seq![p],
            ));
        }
    } else {
        assert(errors_naming(validator::ownership_errors(rules, paths), p) =~= Seq::empty());
    }
}

proof fn lemma_one_path_alone(rules: Seq<OwnerMatcherView>, p: Seq<char>)
    ensures
        validator::distinct_paths(seq![p]) == seq![p],
        errors_naming(validator::ownership_errors(rules, seq![p]), p) == validator::ownership_errors(rules, seq![p]),
{
    lemma_distinct_of_different(seq![p]);
    lemma_named_owners(rules, seq![p], p);
    assert(seq![p][0] == p);
    assert(seq![p].contains(p));
}

/// A file of the project is judged alike alone and with the whole project: the defects that
/// name it are the same, in the same order.
pub proof fn law_a_file_is_judged_alike_alone(project: ProjectView, rules: Seq<OwnerMatcherView>, i: int)
    requires
        0 <= i < project.files.len(),
        paths_differ(project.relative_files()),
        path::parent_text(project.relative_files()[i]) is Some,
    ensures
        ({
            let p = project.relative_files()[i];
            errors_naming(validator::scoped_errors(project, rules, seq![p], seq![p]), p) == errors_naming(
                validator::project_errors(project, rules),
                p,
            )
        }),
{
    let p = project.relative_files()[i];
    let a = validator::annotation_errors(project, project.files_named(seq![p]));
    let b = validator::package_errors(project, project.packages_in_scope(seq![p]));
    let c = validator::ownership_errors(rules, validator::distinct_paths(seq![p]));
    let x = validator::annotation_errors(project, project.files);
    let y = validator::package_errors(project, project.packages);
    let z = validator::ownership_errors(rules, project.relative_files());
    lemma_named_annotations(project, project.files, p);
    lemma_named_packages(project, project.packages, p);
    lemma_named_owners(rules, project.relative_files(), p);
    lemma_one_path_alone(rules, p);
    assert(project.relative_files().contains(p));
    lemma_naming_concat(a + b, c, p);
    lemma_naming_concat(a, b, p);
    lemma_naming_concat(x + y, z, p);
    lemma_naming_concat(x, y, p);
}

/// A path that has to have an owner and is one of the project's files is reported alone for
/// what it is reported for with the whole project, also where the project lists it more than
/// once.
pub proof fn law_a_file_has_the_same_defects_alone(
    project: ProjectView,
    rules: Seq<OwnerMatcherView>,
    i: int,
    e: ErrorView,
)
    requires
        0 <= i < project.files.len(),
        path::parent_text(project.relative_files()[i]) is Some,
        error_path(e) == project.relative_files()[i],
    ensures
        ({
            let p = project.relative_files()[i];
            validator::scoped_errors(project, rules, seq![p], seq![p]).contains(e)
                <==> validator::project_errors(project, rules).contains(e)
        }),
{
    let p = project.relative_files()[i];
    let a = validator::annotation_errors(project, project.files_named(seq![p]));
    let b = validator::package_errors(project, project.packages_in_scope(seq![p]));
    let c = validator::ownership_errors(rules, validator::distinct_paths(seq![p]));
    let x = validator::annotation_errors(project, project.files);
    let y = validator::package_errors(project, project.packages);
    let z = validator::ownership_errors(rules, project.relative_files());
    lemma_named_annotations(project, project.files, p);
    lemma_named_packages(project, project.packages, p);
    lemma_one_path_alone(rules, p);
    lemma_contains_naming(a, e, p);
    lemma_contains_naming(b, e, p);
    lemma_contains_naming(x, e, p);
    lemma_contains_naming(y, e, p);
    lemma_ownership_error(rules, seq![p], e);
    lemma_ownership_error(rules, project.relative_files(), e);
    assert(seq![p][0] == p);
    if z.contains(e) {
        let k = choose|k: int|
            0 <= k < project.files.len() && ownership_error(rules, #[trigger] project.relative_files()[k]) == Some(e);
        assert(project.relative_files()[k] == p);
        assert(ownership_error(rules, seq![p][0]) == Some(e));
    }
    if c.contains(e) {
        assert(ownership_error(rules, project.relative_files()[i]) == Some(e));
    }
    lemma_contains_concat(a, b, c, e);
    lemma_contains_concat(x, y, z, e);
}

proof fn lemma_contains_naming(errors: Seq<ErrorView>, e: ErrorView, p: Seq<char>)
    requires
        error_path(e) == p,
    ensures
        errors_naming(errors, p).contains(e) <==> errors.contains(e),
{
    let names = |d: ErrorView| error_path(d) == p;
    if errors.contains(e) {
        let i = choose|i: int| 0 <= i < errors.len() && errors[i] == e;
        errors.lemma_filter_contains(names, i);
    }
    if errors_naming(errors, p).contains(e) {
        errors.lemma_filter_contains_rev(names, e);
    }
}

proof fn lemma_contains_concat(a: Seq<ErrorView>, b: Seq<ErrorView>, c: Seq<ErrorView>, e: ErrorView)
    ensures
        (a + b + c).contains(e) <==> a.contains(e) || b.contains(e) || c.contains(e),
{
    let all = a + b + c;
    if a.contains(e) {
        let i = choose|i: int| 0 <= i < a.len() && a[i] == e;
        assert(all[i] == e);
    }
    if b.contains(e) {
        let i = choose|i: int| 0 <= i < b.len() && b[i] == e;
        assert(all[a.len() + i] == e);
    }
    if c.contains(e) {
        let i = choose|i: int| 0 <= i < c.len() && c[i] == e;
        assert(all[a.len() + b.len() + i] == e);
    }
    if all.contains(e) {
        let i = choose|i: int| 0 <= i < all.len() && all[i] == e;
        if i < a.len() {
            assert(a[i] == e);
        } else if i < a.len() + b.len() {
            assert(b[i - a.len()] == e);
        } else {
            assert(c[i - a.len() - b.len()] == e);
        }
    }
}

} // verus!
