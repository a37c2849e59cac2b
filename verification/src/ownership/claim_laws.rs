//! What makes a team claim a single file, stated of the team files, the configuration and what
//! stands in the directories above the file.

use crate::config::ConfigView;
use crate::lists;
use crate::order;
use crate::outside;
use crate::ownership::FileOwnerView;
use crate::ownership::file_owner_finder;
use crate::ownership::file_owner_finder::{Claim, OwnerView};
use crate::ownership::file_owner_resolver;
use crate::ownership::file_owner_resolver::{
    DirectoryFactsView, FileFactsView, PackageStepView, law_ordering_keeps_every_owner,
    law_who_claims_owns, law_who_owns_claims,
};
use crate::ownership::mapper;
use crate::ownership::mapper::SourceView;
use crate::ownership::team_cache::LoadedTeamsView;
use crate::path;
use crate::path_utils;
use crate::project::TeamView;
use crate::project_file_builder;
use crate::text;
use vstd::prelude::*;

verus! {

/// The claims by globs are those of all teams, team after team: of each, one for every owned
/// glob that matches the file, unless one of its subtracted globs does.
pub proof fn law_every_team_claims_by_its_globs(teams: Seq<TeamView>, relative: Seq<char>)
    ensures
        file_owner_resolver::all_glob_claims(teams, relative) == teams.flat_map(
            |team: TeamView|
                team.owned_globs.filter(
                    |glob: Seq<char>|
                        outside::glob_matches(glob, relative) && (forall|j: int|
                            0 <= j < team.subtracted_globs.len() ==> !outside::glob_matches(
                                #[trigger] team.subtracted_globs[j],
                                relative,
                            )),
                ).map_values(|glob: Seq<char>| (team.name, SourceView::TeamGlob(glob))),
        ),
    decreases teams.len(),
{
    let f = |team: TeamView|
        team.owned_globs.filter(
            |glob: Seq<char>|
                outside::glob_matches(glob, relative) && (forall|j: int|
                    0 <= j < team.subtracted_globs.len() ==> !outside::glob_matches(
                        #[trigger] team.subtracted_globs[j],
                        relative,
                    )),
        ).map_values(|glob: Seq<char>| (team.name, SourceView::TeamGlob(glob)));
    lists::lemma_flat_map_step(teams, f);
    if teams.len() > 0 {
        law_every_team_claims_by_its_globs(teams.drop_last(), relative);
        lemma_glob_claims(teams.last(), teams.last().owned_globs, relative);
    }
}

proof fn lemma_glob_claims(team: TeamView, globs: Seq<Seq<char>>, relative: Seq<char>)
    ensures
        file_owner_resolver::glob_claims(team, globs, relative) == globs.filter(
            |glob: Seq<char>|
                outside::glob_matches(glob, relative) && (forall|j: int|
                    0 <= j < team.subtracted_globs.len() ==> !outside::glob_matches(
                        #[trigger] team.subtracted_globs[j],
                        relative,
                    )),
        ).map_values(|glob: Seq<char>| (team.name, SourceView::TeamGlob(glob))),
    decreases globs.len(),
{
    let p = |glob: Seq<char>|
        outside::glob_matches(glob, relative) && (forall|j: int|
            0 <= j < team.subtracted_globs.len() ==> !outside::glob_matches(
                #[trigger] team.subtracted_globs[j],
                relative,
            ));
    lists::lemma_filter_map_step(globs, p, |glob: Seq<char>| (team.name, SourceView::TeamGlob(glob)));
    if globs.len() > 0 {
        lemma_glob_claims(team, globs.drop_last(), relative);
    }
}

proof fn lemma_all_glob_claims(teams: Seq<TeamView>, relative: Seq<char>, claim: Claim)
    ensures
        file_owner_resolver::all_glob_claims(teams, relative).contains(claim) <==> exists|i: int, k: int|
            0 <= i < teams.len() && 0 <= k < teams[i].owned_globs.len() && outside::glob_matches(
                #[trigger] teams[i].owned_globs[k],
                relative,
            ) && (forall|j: int|
                0 <= j < teams[i].subtracted_globs.len() ==> !outside::glob_matches(
                    #[trigger] teams[i].subtracted_globs[j],
                    relative,
                )) && claim == (teams[i].name, SourceView::TeamGlob(teams[i].owned_globs[k])),
    decreases teams.len(),
{
    let all = file_owner_resolver::all_glob_claims(teams, relative);
    if teams.len() > 0 {
        let init = teams.drop_last();
        let last = teams.len() - 1;
        let before = file_owner_resolver::all_glob_claims(init, relative);
        let now = file_owner_resolver::glob_claims(teams.last(), teams.last().owned_globs, relative);
        lemma_all_glob_claims(init, relative, claim);
        file_owner_resolver::law_globs_claim_what_they_match(teams.last(), teams.last().owned_globs, relative, claim);
        lists::lemma_concat_contains(before, now, claim);
        assert(teams[last] == teams.last());
        assert forall|i: int| 0 <= i < init.len() implies #[trigger] init[i] == teams[i] by {}
        if before.contains(claim) {
            let (i, k) = choose|i: int, k: int|
                0 <= i < init.len() && 0 <= k < init[i].owned_globs.len() && outside::glob_matches(
                    #[trigger] init[i].owned_globs[k],
                    relative,
                ) && (forall|j: int|
                    0 <= j < init[i].subtracted_globs.len() ==> !outside::glob_matches(
                        #[trigger] init[i].subtracted_globs[j],
                        relative,
                    )) && claim == (init[i].name, SourceView::TeamGlob(init[i].owned_globs[k]));
            assert(outside::glob_matches(teams[i].owned_globs[k], relative));
        }
        if now.contains(claim) {
            let globs = teams.last().owned_globs;
            let k = choose|k: int|
                0 <= k < globs.len() && outside::glob_matches(#[trigger] globs[k], relative)
                    && !mapper::any_glob_matches(teams.last().subtracted_globs, relative) && claim == (
                    teams.last().name,
                    SourceView::TeamGlob(globs[k]),
                );
            assert(outside::glob_matches(teams[last].owned_globs[k], relative));
        }
        if exists|i: int, k: int|
            0 <= i < teams.len() && 0 <= k < teams[i].owned_globs.len() && outside::glob_matches(
                #[trigger] teams[i].owned_globs[k],
                relative,
            ) && (forall|j: int|
                0 <= j < teams[i].subtracted_globs.len() ==> !outside::glob_matches(
                    #[trigger] teams[i].subtracted_globs[j],
                    relative,
                )) && claim == (teams[i].name, SourceView::TeamGlob(teams[i].owned_globs[k])) {
            let (i, k) = choose|i: int, k: int|
                0 <= i < teams.len() && 0 <= k < teams[i].owned_globs.len() && outside::glob_matches(
                    #[trigger] teams[i].owned_globs[k],
                    relative,
                ) && (forall|j: int|
                    0 <= j < teams[i].subtracted_globs.len() ==> !outside::glob_matches(
                        #[trigger] teams[i].subtracted_globs[j],
                        relative,
                    )) && claim == (teams[i].name, SourceView::TeamGlob(teams[i].owned_globs[k]));
            if i < init.len() {
                assert(outside::glob_matches(init[i].owned_globs[k], relative));
            }
        }
    }
}

/// The teams whose own file this is claim it, in the order of the teams.
pub proof fn law_every_team_claims_its_team_file(root: Seq<char>, teams: Seq<TeamView>, relative: Seq<char>)
    ensures
        file_owner_resolver::team_file_claims(root, teams, relative) == teams.filter(
            |team: TeamView|
                path::components(path_utils::relative_text(root, team.path)) == path::components(relative),
        ).map_values(|team: TeamView| (team.name, SourceView::TeamYml)),
    decreases teams.len(),
{
    let p = |team: TeamView|
        path::components(path_utils::relative_text(root, team.path)) == path::components(relative);
    lists::lemma_filter_map_step(teams, p, |team: TeamView| (team.name, SourceView::TeamYml));
    if teams.len() > 0 {
        law_every_team_claims_its_team_file(root, teams.drop_last(), relative);
    }
}

/// The claims to a file are made by annotation, by directory, by package, by gem, by globs and
/// as a team file, and each kind is named as such.
proof fn lemma_all_claims(
    root: Seq<char>,
    config: ConfigView,
    relative: Seq<char>,
    loaded: LoadedTeamsView,
    facts: FileFactsView,
    claim: Claim,
)
    ensures
        file_owner_resolver::all_claims(root, config, relative, loaded, facts).contains(claim) <==> match claim.1 {
            SourceView::AnnotatedFile => file_owner_resolver::annotation_claim(
                config,
                relative,
                loaded.teams_by_name,
                facts.first_line,
            ) == Some(claim),
            SourceView::Directory(_) => file_owner_resolver::specific_directory(
                root,
                file_owner_resolver::searched(root, relative),
                loaded.teams_by_name,
                facts.directories,
            ) == Some(claim),
            SourceView::Package(_, _) => file_owner_resolver::nearest_package(
                root,
                config,
                file_owner_resolver::searched(root, relative),
                loaded.teams_by_name,
                facts.directories,
            ) == Some(claim),
            SourceView::TeamGem => file_owner_resolver::gem_claim(relative, config.vendored_gems_path, loaded.teams)
                == Some(claim),
            SourceView::TeamGlob(_) => file_owner_resolver::all_glob_claims(loaded.teams, relative).contains(claim),
            SourceView::TeamYml => file_owner_resolver::team_file_claims(root, loaded.teams, relative).contains(claim),
        },
{
    let dirs = file_owner_resolver::searched(root, relative);
    let by_name = loaded.teams_by_name;
    let annotation = file_owner_resolver::annotation_claim(config, relative, by_name, facts.first_line);
    let directory = file_owner_resolver::specific_directory(root, dirs, by_name, facts.directories);
    let package = file_owner_resolver::nearest_package(root, config, dirs, by_name, facts.directories);
    let gem = file_owner_resolver::gem_claim(relative, config.vendored_gems_path, loaded.teams);
    let a = file_owner_resolver::claim_list(annotation);
    let b = file_owner_resolver::claim_list(directory);
    let c = file_owner_resolver::claim_list(package);
    let d = file_owner_resolver::claim_list(gem);
    let e = file_owner_resolver::all_glob_claims(loaded.teams, relative);
    let f = file_owner_resolver::team_file_claims(root, loaded.teams, relative);
    lemma_claim_list(annotation, claim);
    lemma_claim_list(directory, claim);
    lemma_claim_list(package, claim);
    lemma_claim_list(gem, claim);
    lists::lemma_concat_contains(a, b, claim);
    lists::lemma_concat_contains(a + b, c, claim);
    lists::lemma_concat_contains(a + b + c, d, claim);
    lists::lemma_concat_contains(a + b + c + d, e, claim);
    lists::lemma_concat_contains(a + b + c + d + e, f, claim);
    lemma_directory_kind(root, dirs, by_name, facts.directories);
    lemma_package_kind(root, config, dirs, by_name, facts.directories);
    lemma_all_glob_claims(loaded.teams, relative, claim);
    law_every_team_claims_its_team_file(root, loaded.teams, relative);
    let p = |team: TeamView|
        path::components(path_utils::relative_text(root, team.path)) == path::components(relative);
    lists::lemma_filter_map_contains(loaded.teams, p, |team: TeamView| (team.name, SourceView::TeamYml), claim);
}

proof fn lemma_claim_list(made: Option<Claim>, claim: Claim)
    ensures
        file_owner_resolver::claim_list(made).contains(claim) <==> made == Some(claim),
{
    if let Some(c) = made {
        assert(file_owner_resolver::claim_list(made)[0] == c);
    }
}

proof fn lemma_directory_kind(
    root: Seq<char>,
    dirs: Seq<Seq<char>>,
    teams: Map<Seq<char>, TeamView>,
    facts: Seq<DirectoryFactsView>,
)
    ensures
        file_owner_resolver::specific_directory(root, dirs, teams, facts) matches Some(claim) ==> claim.1 is Directory,
    decreases dirs.len(),
{
    if dirs.len() > 0 {
        lemma_directory_kind(root, dirs.drop_last(), teams, facts);
    }
}

proof fn lemma_package_kind(
    root: Seq<char>,
    config: ConfigView,
    dirs: Seq<Seq<char>>,
    teams: Map<Seq<char>, TeamView>,
    facts: Seq<DirectoryFactsView>,
)
    ensures
        file_owner_resolver::nearest_package(root, config, dirs, teams, facts) matches Some(claim)
            ==> claim.1 is Package,
    decreases dirs.len(),
{
    if dirs.len() > 0 {
        lemma_package_kind(root, config, dirs.skip(1), teams, facts);
    }
}

/// A team claims a file by a glob exactly if it is a loaded team that owns the glob, the glob
/// matches the file and none of the subtracted globs of that team does. What other teams list
/// has no part in it.
pub proof fn law_claims_by_globs(
    root: Seq<char>,
    config: ConfigView,
    relative: Seq<char>,
    loaded: LoadedTeamsView,
    facts: FileFactsView,
    team: Seq<char>,
    glob: Seq<char>,
)
    ensures
        file_owner_resolver::all_claims(root, config, relative, loaded, facts).contains(
            (team, SourceView::TeamGlob(glob)),
        ) <==> exists|i: int, k: int|
            0 <= i < loaded.teams.len() && 0 <= k < loaded.teams[i].owned_globs.len() && (
            #[trigger] loaded.teams[i].owned_globs[k]) == glob && loaded.teams[i].name == team && outside::glob_matches(
                glob,
                relative,
            ) && (forall|j: int|
                0 <= j < loaded.teams[i].subtracted_globs.len() ==> !outside::glob_matches(
                    #[trigger] loaded.teams[i].subtracted_globs[j],
                    relative,
                )),
{
    let claim = (team, SourceView::TeamGlob(glob));
    let teams = loaded.teams;
    lemma_all_claims(root, config, relative, loaded, facts, claim);
    lemma_all_glob_claims(teams, relative, claim);
    if exists|i: int, k: int|
        0 <= i < teams.len() && 0 <= k < teams[i].owned_globs.len() && (#[trigger] teams[i].owned_globs[k]) == glob
            && teams[i].name == team && outside::glob_matches(glob, relative) && (forall|j: int|
            0 <= j < teams[i].subtracted_globs.len() ==> !outside::glob_matches(
                #[trigger] teams[i].subtracted_globs[j],
                relative,
            )) {
        let (i, k) = choose|i: int, k: int|
            0 <= i < teams.len() && 0 <= k < teams[i].owned_globs.len() && (#[trigger] teams[i].owned_globs[k]) == glob
                && teams[i].name == team && outside::glob_matches(glob, relative) && (forall|j: int|
                0 <= j < teams[i].subtracted_globs.len() ==> !outside::glob_matches(
                    #[trigger] teams[i].subtracted_globs[j],
                    relative,
                ));
        assert(outside::glob_matches(teams[i].owned_globs[k], relative));
    }
}

/// A team that goes by its name owns every file that one of its globs matches and none of its
/// subtracted globs does, whatever else claims the file.
pub proof fn law_every_team_owns_by_its_globs(
    root: Seq<char>,
    config: ConfigView,
    file_path: Seq<char>,
    loaded: LoadedTeamsView,
    facts: FileFactsView,
    i: int,
    k: int,
)
    requires
        0 <= i < loaded.teams.len(),
        0 <= k < loaded.teams[i].owned_globs.len(),
        loaded.teams_by_name.contains_key(loaded.teams[i].name),
        outside::glob_matches(loaded.teams[i].owned_globs[k], file_owner_resolver::relative_file(root, file_path)),
        forall|j: int|
            0 <= j < loaded.teams[i].subtracted_globs.len() ==> !outside::glob_matches(
                #[trigger] loaded.teams[i].subtracted_globs[j],
                file_owner_resolver::relative_file(root, file_path),
            ),
    ensures
        file_owner_resolver::owned_by(
            file_owner_resolver::file_owners(root, config, file_path, loaded, facts),
            loaded.teams_by_name[loaded.teams[i].name],
            SourceView::TeamGlob(loaded.teams[i].owned_globs[k]),
        ),
{
    let relative = file_owner_resolver::relative_file(root, file_path);
    let team = loaded.teams[i].name;
    let glob = loaded.teams[i].owned_globs[k];
    law_claims_by_globs(root, config, relative, loaded, facts, team, glob);
    law_who_claims_owns(
        root,
        file_owner_resolver::all_claims(root, config, relative, loaded, facts),
        loaded,
        (team, SourceView::TeamGlob(glob)),
    );
}

/// An owner by a glob is a team under whose name some loaded team owns a glob that matches the
/// file, with no subtracted glob that does.
pub proof fn law_owners_by_globs_have_such_a_glob(
    root: Seq<char>,
    config: ConfigView,
    file_path: Seq<char>,
    loaded: LoadedTeamsView,
    facts: FileFactsView,
    team: TeamView,
    glob: Seq<char>,
)
    requires
        file_owner_resolver::owned_by(
            file_owner_resolver::file_owners(root, config, file_path, loaded, facts),
            team,
            SourceView::TeamGlob(glob),
        ),
    ensures
        outside::glob_matches(glob, file_owner_resolver::relative_file(root, file_path)),
        exists|i: int, k: int|
            0 <= i < loaded.teams.len() && 0 <= k < loaded.teams[i].owned_globs.len() && (
            #[trigger] loaded.teams[i].owned_globs[k]) == glob && loaded.teams_by_name.contains_key(
                loaded.teams[i].name,
            ) && loaded.teams_by_name[loaded.teams[i].name] == team && (forall|j: int|
                0 <= j < loaded.teams[i].subtracted_globs.len() ==> !outside::glob_matches(
                    #[trigger] loaded.teams[i].subtracted_globs[j],
                    file_owner_resolver::relative_file(root, file_path),
                )),
{
    let relative = file_owner_resolver::relative_file(root, file_path);
    let claims = file_owner_resolver::all_claims(root, config, relative, loaded, facts);
    let source = SourceView::TeamGlob(glob);
    law_who_owns_claims(root, claims, loaded, team, source);
    let c = choose|c: int|
        0 <= c < claims.len() && (#[trigger] claims[c]).1 == source && loaded.teams_by_name.contains_key(claims[c].0)
            && loaded.teams_by_name[claims[c].0] == team;
    assert(claims.contains((claims[c].0, source)));
    law_claims_by_globs(root, config, relative, loaded, facts, claims[c].0, glob);
}

/// A team claims a file as its own team file exactly if a loaded team of that name was read
/// from this very file.
pub proof fn law_claims_to_team_files(
    root: Seq<char>,
    config: ConfigView,
    relative: Seq<char>,
    loaded: LoadedTeamsView,
    facts: FileFactsView,
    team: Seq<char>,
)
    ensures
        file_owner_resolver::all_claims(root, config, relative, loaded, facts).contains((team, SourceView::TeamYml))
            <==> exists|i: int|
            0 <= i < loaded.teams.len() && path::components(
                path_utils::relative_text(root, (#[trigger] loaded.teams[i]).path),
            ) == path::components(relative) && loaded.teams[i].name == team,
{
    let claim = (team, SourceView::TeamYml);
    lemma_all_claims(root, config, relative, loaded, facts, claim);
    law_every_team_claims_its_team_file(root, loaded.teams, relative);
    let p = |team: TeamView|
        path::components(path_utils::relative_text(root, team.path)) == path::components(relative);
    let g = |team: TeamView| (team.name, SourceView::TeamYml);
    lists::lemma_filter_map_contains(loaded.teams, p, g, claim);
    if exists|i: int|
        0 <= i < loaded.teams.len() && path::components(
            path_utils::relative_text(root, (#[trigger] loaded.teams[i]).path),
        ) == path::components(relative) && loaded.teams[i].name == team {
        let i = choose|i: int|
            0 <= i < loaded.teams.len() && path::components(
                path_utils::relative_text(root, (#[trigger] loaded.teams[i]).path),
            ) == path::components(relative) && loaded.teams[i].name == team;
        assert(p(loaded.teams[i]) && g(loaded.teams[i]) == claim);
    }
}

/// A team claims a file by its gem exactly if the file lies in a directory of the directory of
/// vendored gems, and the team is the first that lists that directory among its gems.
pub proof fn law_claims_to_gems(
    root: Seq<char>,
    config: ConfigView,
    relative: Seq<char>,
    loaded: LoadedTeamsView,
    facts: FileFactsView,
    team: Seq<char>,
)
    ensures
        ({
            let cs = path::components(relative);
            let plain = |c: Seq<char>| c != "/"@ && c != "."@ && c != ".."@;
            file_owner_resolver::all_claims(root, config, relative, loaded, facts).contains((team, SourceView::TeamGem))
                <==> cs.len() >= 2 && cs[0] == config.vendored_gems_path && plain(cs[0]) && plain(cs[1]) && exists|i: int|
                0 <= i < loaded.teams.len() && (#[trigger] loaded.teams[i]).name == team
                    && loaded.teams[i].owned_gems.contains(cs[1]) && (forall|j: int|
                    0 <= j < i ==> !(#[trigger] loaded.teams[j]).owned_gems.contains(cs[1]))
        }),
{
    let claim = (team, SourceView::TeamGem);
    let cs = path::components(relative);
    lemma_all_claims(root, config, relative, loaded, facts, claim);
    if cs.len() >= 2 {
        lemma_gem_owner(loaded.teams, cs[1], team);
    }
}

proof fn lemma_gem_owner(teams: Seq<TeamView>, gem: Seq<char>, team: Seq<char>)
    ensures
        file_owner_resolver::gem_owner(teams, gem) == Some(team) <==> exists|i: int|
            0 <= i < teams.len() && (#[trigger] teams[i]).name == team && teams[i].owned_gems.contains(gem) && (
            forall|j: int| 0 <= j < i ==> !(#[trigger] teams[j]).owned_gems.contains(gem)),
    decreases teams.len(),
{
    if teams.len() > 0 {
        let rest = teams.skip(1);
        lemma_gem_owner(rest, gem, team);
        assert forall|i: int| 0 <= i < rest.len() implies #[trigger] rest[i] == teams[i + 1] by {}
        if teams[0].owned_gems.contains(gem) {
            if teams[0].name == team {
                assert(teams[0].owned_gems.contains(gem));
            }
        } else {
            if file_owner_resolver::gem_owner(rest, gem) == Some(team) {
                let i = choose|i: int|
                    0 <= i < rest.len() && (#[trigger] rest[i]).name == team && rest[i].owned_gems.contains(gem) && (
                    forall|j: int| 0 <= j < i ==> !(#[trigger] rest[j]).owned_gems.contains(gem));
                assert(teams[i + 1].name == team);
                assert forall|j: int| 0 <= j < i + 1 implies !(#[trigger] teams[j]).owned_gems.contains(gem) by {
                    if j > 0 {
                        assert(rest[j - 1] == teams[j]);
                    }
                }
            }
            if exists|i: int|
                0 <= i < teams.len() && (#[trigger] teams[i]).name == team && teams[i].owned_gems.contains(gem) && (
                forall|j: int| 0 <= j < i ==> !(#[trigger] teams[j]).owned_gems.contains(gem)) {
                let i = choose|i: int|
                    0 <= i < teams.len() && (#[trigger] teams[i]).name == team && teams[i].owned_gems.contains(gem) && (
                    forall|j: int| 0 <= j < i ==> !(#[trigger] teams[j]).owned_gems.contains(gem));
                assert(rest[i - 1] == teams[i]);
                assert forall|j: int| 0 <= j < i - 1 implies !(#[trigger] rest[j]).owned_gems.contains(gem) by {
                    assert(rest[j] == teams[j + 1]);
                }
            }
        }
    }
}

/// A team claims a file by annotation exactly if the first line names it, one of the owned
/// globs of the project matches the file, and none of the unowned globs does.
pub proof fn law_claims_by_annotation(
    root: Seq<char>,
    config: ConfigView,
    relative: Seq<char>,
    loaded: LoadedTeamsView,
    facts: FileFactsView,
    team: Seq<char>,
)
    ensures
        file_owner_resolver::all_claims(root, config, relative, loaded, facts).contains(
            (team, SourceView::AnnotatedFile),
        ) <==> {
            &&& project_file_builder::annotated_team(facts.first_line) is Some
            &&& loaded.teams_by_name.contains_key(project_file_builder::annotated_team(facts.first_line)->0)
            &&& loaded.teams_by_name[project_file_builder::annotated_team(facts.first_line)->0].name == team
            &&& exists|i: int|
                0 <= i < config.owned_globs.len() && outside::glob_matches(#[trigger] config.owned_globs[i], relative)
            &&& forall|j: int|
                0 <= j < config.unowned_globs.len() ==> !outside::glob_matches(
                    #[trigger] config.unowned_globs[j],
                    relative,
                )
        },
{
    lemma_all_claims(root, config, relative, loaded, facts, (team, SourceView::AnnotatedFile));
}

/// What is known of a directory is what the first entry says that names it, in whatever
/// spelling.
pub proof fn law_a_directory_is_found_in_any_spelling(list: Seq<DirectoryFactsView>, dir: Seq<char>)
    ensures
        file_owner_resolver::facts_of(list, dir) is None <==> forall|i: int|
            0 <= i < list.len() ==> path::components((#[trigger] list[i]).path) != path::components(dir),
        file_owner_resolver::facts_of(list, dir) matches Some(found) ==> exists|i: int|
            0 <= i < list.len() && #[trigger] list[i] == found && path::components(found.path) == path::components(dir) && (
            forall|j: int| 0 <= j < i ==> path::components((#[trigger] list[j]).path) != path::components(dir)),
    decreases list.len(),
{
    if list.len() > 0 {
        let rest = list.skip(1);
        law_a_directory_is_found_in_any_spelling(rest, dir);
        assert forall|i: int| 0 <= i < rest.len() implies #[trigger] rest[i] == list[i + 1] by {}
        if path::components(list[0].path) == path::components(dir) {
            assert(list[0] == file_owner_resolver::facts_of(list, dir)->0);
        } else if let Some(found) = file_owner_resolver::facts_of(rest, dir) {
            let i = choose|i: int|
                0 <= i < rest.len() && #[trigger] rest[i] == found && path::components(found.path) == path::components(dir)
                    && (forall|j: int| 0 <= j < i ==> path::components((#[trigger] rest[j]).path) != path::components(dir));
            assert(list[i + 1] == found);
            assert forall|j: int| 0 <= j < i + 1 implies path::components((#[trigger] list[j]).path)
                != path::components(dir) by {
                if j > 0 {
                    assert(rest[j - 1] == list[j]);
                }
            }
        } else {
            assert forall|i: int| 0 <= i < list.len() implies path::components((#[trigger] list[i]).path)
                != path::components(dir) by {
                if i > 0 {
                    assert(rest[i - 1] == list[i]);
                }
            }
        }
    }
}

/// Whether the `.codeowner` file of a directory names this team, as far as white space around
/// it is left out.
pub open spec fn names_owner(list: Seq<DirectoryFactsView>, dir: Seq<char>, name: Seq<char>) -> bool {
    &&& file_owner_resolver::facts_of(list, dir) is Some
    &&& (file_owner_resolver::facts_of(list, dir)->0).codeowner is Some
    &&& text::trimmed((file_owner_resolver::facts_of(list, dir)->0).codeowner->0) == name
}

/// A team claims a file by a directory exactly if the directory is above the file, its
/// `.codeowner` file names the team, and that of no directory nearer to the file names a known
/// team.
pub proof fn law_claims_by_directories(
    root: Seq<char>,
    config: ConfigView,
    relative: Seq<char>,
    loaded: LoadedTeamsView,
    facts: FileFactsView,
    team: Seq<char>,
    dir: Seq<char>,
)
    ensures
        ({
            let dirs = path::directories_above(path::join_text(root, relative), root);
            file_owner_resolver::all_claims(root, config, relative, loaded, facts).contains(
                (team, SourceView::Directory(dir)),
            ) <==> exists|k: int, name: Seq<char>|
                0 <= k < dirs.len() && #[trigger] names_owner(facts.directories, dirs[k], name)
                    && loaded.teams_by_name.contains_key(name) && loaded.teams_by_name[name].name == team
                    && path_utils::relative_text(root, dirs[k]) == dir && (forall|j: int, other: Seq<char>|
                    0 <= j < k && #[trigger] names_owner(facts.directories, dirs[j], other)
                        ==> !loaded.teams_by_name.contains_key(other))
        }),
{
    let claim = (team, SourceView::Directory(dir));
    let dirs = file_owner_resolver::searched(root, relative);
    let teams = loaded.teams_by_name;
    let list = facts.directories;
    lemma_all_claims(root, config, relative, loaded, facts, claim);
    let i = first_with_codeowner(root, dirs, teams, list, 0);
    file_owner_resolver::law_nearest_directory_claims(root, relative, teams, list, i);
    assert forall|j: int, other: Seq<char>|
        0 <= j < i && #[trigger] names_owner(list, dirs[j], other) implies !teams.contains_key(other) by {
        assert(file_owner_resolver::codeowner_claim(root, dirs[j], teams, list) is None);
    }
    if i < dirs.len() {
        let name = text::trimmed((file_owner_resolver::facts_of(list, dirs[i])->0).codeowner->0);
        assert(names_owner(list, dirs[i], name) && teams.contains_key(name));
    }
    if exists|k: int, name: Seq<char>|
        0 <= k < dirs.len() && #[trigger] names_owner(list, dirs[k], name) && teams.contains_key(name)
            && teams[name].name == team && path_utils::relative_text(root, dirs[k]) == dir && (forall|
            j: int,
            other: Seq<char>,
        | 0 <= j < k && #[trigger] names_owner(list, dirs[j], other) ==> !teams.contains_key(other)) {
        let (k, name) = choose|k: int, name: Seq<char>|
            0 <= k < dirs.len() && #[trigger] names_owner(list, dirs[k], name) && teams.contains_key(name)
                && teams[name].name == team && path_utils::relative_text(root, dirs[k]) == dir && (forall|
                j: int,
                other: Seq<char>,
            | 0 <= j < k && #[trigger] names_owner(list, dirs[j], other) ==> !teams.contains_key(other));
        assert(i == k);
    }
}

proof fn first_with_codeowner(
    root: Seq<char>,
    dirs: Seq<Seq<char>>,
    teams: Map<Seq<char>, TeamView>,
    list: Seq<DirectoryFactsView>,
    i: int,
) -> (r: int)
    requires
        0 <= i <= dirs.len(),
        forall|j: int|
            0 <= j < i ==> file_owner_resolver::codeowner_claim(root, #[trigger] dirs[j], teams, list) is None,
    ensures
        0 <= r <= dirs.len(),
        forall|j: int|
            0 <= j < r ==> file_owner_resolver::codeowner_claim(root, #[trigger] dirs[j], teams, list) is None,
        r < dirs.len() ==> file_owner_resolver::codeowner_claim(root, dirs[r], teams, list) is Some,
    decreases dirs.len() - i,
{
    if i == dirs.len() || file_owner_resolver::codeowner_claim(root, dirs[i], teams, list) is Some {
        i
    } else {
        first_with_codeowner(root, dirs, teams, list, i + 1)
    }
}

/// A directory that a glob of the Ruby packages matches is a package by its `package.yml`, and
/// the search ends there if this is rejected. Else a directory that a glob of the JavaScript
/// packages matches is one by its `package.json`. Either claims all below it for the known team
/// that it names, and any other directory is passed over.
pub proof fn law_what_makes_a_package(
    root: Seq<char>,
    config: ConfigView,
    dir: Seq<char>,
    teams: Map<Seq<char>, TeamView>,
    list: Seq<DirectoryFactsView>,
)
    ensures
        ({
            let found = file_owner_resolver::facts_of(list, dir);
            let relative = path_utils::relative_text(root, dir);
            let known = found is Some;
            let ruby = known && exists|i: int|
                0 <= i < config.ruby_package_paths.len() && outside::glob_matches(
                    #[trigger] config.ruby_package_paths[i],
                    relative,
                );
            let javascript = known && exists|i: int|
                0 <= i < config.javascript_package_paths.len() && outside::glob_matches(
                    #[trigger] config.javascript_package_paths[i],
                    relative,
                );
            let rejected = ruby && (found->0).ruby_package is Rejected;
            let yml = ruby && (found->0).ruby_package is Read && (found->0).ruby_package->0 is Some
                && teams.contains_key((found->0).ruby_package->0->0);
            let json = javascript && (found->0).javascript_package is Some && (found->0).javascript_package->0 is Ok
                && (found->0).javascript_package->0->Ok_0 is Some && teams.contains_key(
                (found->0).javascript_package->0->Ok_0->0,
            );
            let step = file_owner_resolver::package_step(root, config, dir, teams, list);
            &&& rejected ==> step is Stop
            &&& yml ==> step == PackageStepView::Found(
                (
                    teams[(found->0).ruby_package->0->0].name,
                    SourceView::Package(path::join_text(relative, "package.yml"@), relative + "/**/**"@),
                ),
            )
            &&& json && !rejected && !yml ==> step == PackageStepView::Found(
                (
                    teams[(found->0).javascript_package->0->Ok_0->0].name,
                    SourceView::Package(path::join_text(relative, "package.json"@), relative + "/**/**"@),
                ),
            )
            &&& !rejected && !yml && !json ==> step is Next
        }),
{
}

/// A team claims a file by a package exactly if some directory above the file makes that
/// claim and all nearer ones are passed over.
pub proof fn law_claims_by_packages(
    root: Seq<char>,
    config: ConfigView,
    relative: Seq<char>,
    loaded: LoadedTeamsView,
    facts: FileFactsView,
    team: Seq<char>,
    manifest: Seq<char>,
    glob: Seq<char>,
)
    ensures
        ({
            let dirs = path::directories_above(path::join_text(root, relative), root);
            let claim = (team, SourceView::Package(manifest, glob));
            file_owner_resolver::all_claims(root, config, relative, loaded, facts).contains(claim) <==> exists|k: int|
                0 <= k < dirs.len() && file_owner_resolver::package_step(
                    root,
                    config,
                    #[trigger] dirs[k],
                    loaded.teams_by_name,
                    facts.directories,
                ) == PackageStepView::Found(claim) && (forall|j: int|
                    0 <= j < k ==> file_owner_resolver::package_step(
                        root,
                        config,
                        #[trigger] dirs[j],
                        loaded.teams_by_name,
                        facts.directories,
                    ) is Next)
        }),
{
    let claim = (team, SourceView::Package(manifest, glob));
    let dirs = file_owner_resolver::searched(root, relative);
    let teams = loaded.teams_by_name;
    let list = facts.directories;
    lemma_all_claims(root, config, relative, loaded, facts, claim);
    let i = first_package(root, config, dirs, teams, list, 0);
    file_owner_resolver::law_packages_are_asked_from_the_inside(root, config, dirs, teams, list, i);
    if i < dirs.len() {
        assert(!(file_owner_resolver::package_step(root, config, dirs[i], teams, list) is Next));
    }
    if exists|k: int|
        0 <= k < dirs.len() && file_owner_resolver::package_step(root, config, #[trigger] dirs[k], teams, list)
            == PackageStepView::Found(claim) && (forall|j: int|
            0 <= j < k ==> file_owner_resolver::package_step(root, config, #[trigger] dirs[j], teams, list) is Next) {
        let k = choose|k: int|
            0 <= k < dirs.len() && file_owner_resolver::package_step(root, config, #[trigger] dirs[k], teams, list)
                == PackageStepView::Found(claim) && (forall|j: int|
                0 <= j < k ==> file_owner_resolver::package_step(root, config, #[trigger] dirs[j], teams, list) is Next);
        if k < i {
            assert(file_owner_resolver::package_step(root, config, dirs[k], teams, list) is Next);
        } else if i < k {
            assert(file_owner_resolver::package_step(root, config, dirs[i], teams, list) is Next);
        }
        assert(i == k);
    }
}

proof fn first_package(
    root: Seq<char>,
    config: ConfigView,
    dirs: Seq<Seq<char>>,
    teams: Map<Seq<char>, TeamView>,
    list: Seq<DirectoryFactsView>,
    i: int,
) -> (r: int)
    requires
        0 <= i <= dirs.len(),
        forall|j: int|
            0 <= j < i ==> file_owner_resolver::package_step(root, config, #[trigger] dirs[j], teams, list)
                == PackageStepView::Next,
    ensures
        0 <= r <= dirs.len(),
        forall|j: int|
            0 <= j < r ==> file_owner_resolver::package_step(root, config, #[trigger] dirs[j], teams, list)
                == PackageStepView::Next,
        r < dirs.len() ==> file_owner_resolver::package_step(root, config, dirs[r], teams, list)
            != PackageStepView::Next,
    decreases dirs.len() - i,
{
    if i == dirs.len() || file_owner_resolver::package_step(root, config, dirs[i], teams, list)
        != PackageStepView::Next {
        i
    } else {
        first_package(root, config, dirs, teams, list, i + 1)
    }
}

/// An annotation is the most reliable source, before a directory, a package, a glob, a gem and
/// the team file, in this order. No source is less reliable than having none.
pub proof fn law_sources_are_ranked(dir: Seq<char>, manifest: Seq<char>, package: Seq<char>, glob: Seq<char>)
    ensures
        file_owner_resolver::priority(SourceView::AnnotatedFile) < file_owner_resolver::priority(
            SourceView::Directory(dir),
        ),
        file_owner_resolver::priority(SourceView::Directory(dir)) < file_owner_resolver::priority(
            SourceView::Package(manifest, package),
        ),
        file_owner_resolver::priority(SourceView::Package(manifest, package)) < file_owner_resolver::priority(
            SourceView::TeamGlob(glob),
        ),
        file_owner_resolver::priority(SourceView::TeamGlob(glob)) < file_owner_resolver::priority(SourceView::TeamGem),
        file_owner_resolver::priority(SourceView::TeamGem) < file_owner_resolver::priority(SourceView::TeamYml),
        file_owner_resolver::priority(SourceView::TeamYml) < file_owner_resolver::best_priority(Seq::empty()),
{
}

/// An owner ranks by its most reliable source, at whatever position this stands.
pub proof fn law_the_best_source_counts(sources: Seq<SourceView>)
    ensures
        forall|i: int|
            0 <= i < sources.len() ==> file_owner_resolver::best_priority(sources) <= file_owner_resolver::priority(
                #[trigger] sources[i],
            ),
        sources.len() > 0 ==> exists|i: int|
            0 <= i < sources.len() && file_owner_resolver::best_priority(sources) == file_owner_resolver::priority(
                #[trigger] sources[i],
            ),
    decreases sources.len(),
{
    if sources.len() > 0 {
        let init = sources.drop_last();
        let last = sources.len() - 1;
        law_the_best_source_counts(init);
        assert(sources[last] == sources.last());
        assert forall|i: int|
            0 <= i < sources.len() implies file_owner_resolver::best_priority(sources) <= file_owner_resolver::priority(
            #[trigger] sources[i],
        ) by {
            if i < last {
                assert(init[i] == sources[i]);
            }
        }
        if file_owner_resolver::best_priority(sources) != file_owner_resolver::priority(sources[last]) {
            if init.len() == 0 {
                assert(file_owner_resolver::best_priority(init) == u8::MAX as int);
                assert(file_owner_resolver::priority(sources.last()) < u8::MAX as int);
            }
            let i = choose|i: int|
                0 <= i < init.len() && file_owner_resolver::best_priority(init) == file_owner_resolver::priority(
                    #[trigger] init[i],
                );
            assert(sources[i] == init[i]);
        }
    }
}

/// Of the teams with a claim those that are known become owners, each with its team, its team
/// file relative to the root and its sources.
pub proof fn law_known_teams_become_owners(root: Seq<char>, owners: Seq<OwnerView>, teams: Map<Seq<char>, TeamView>)
    ensures
        file_owner_resolver::known_owners(root, owners, teams) == owners.filter(
            |o: OwnerView| teams.contains_key(o.team_name),
        ).map_values(
            |o: OwnerView|
                FileOwnerView {
                    team: teams[o.team_name],
                    team_config_file_path: path_utils::relative_text(root, teams[o.team_name].path),
                    sources: o.sources,
                },
        ),
    decreases owners.len(),
{
    let p = |o: OwnerView| teams.contains_key(o.team_name);
    let g = |o: OwnerView|
        FileOwnerView {
            team: teams[o.team_name],
            team_config_file_path: path_utils::relative_text(root, teams[o.team_name].path),
            sources: o.sources,
        };
    lists::lemma_filter_map_step(owners, p, g);
    if owners.len() > 0 {
        law_known_teams_become_owners(root, owners.drop_last(), teams);
    }
}

/// There are as many owners of a file as known teams with a claim.
pub proof fn law_as_many_owners_as_known_teams(root: Seq<char>, claims: Seq<Claim>, loaded: LoadedTeamsView)
    ensures
        file_owner_resolver::owners_by_claims(root, claims, loaded).len() == file_owner_finder::grouped(claims).filter(
            |o: OwnerView| loaded.teams_by_name.contains_key(o.team_name),
        ).len(),
{
    let groups = file_owner_finder::grouped(claims);
    let known = file_owner_resolver::known_owners(root, groups, loaded.teams_by_name);
    law_known_teams_become_owners(root, groups, loaded.teams_by_name);
    order::law_stable_order(file_owner_resolver::owner_sort_keys(known));
    law_ordering_keeps_every_owner(known, crate::ownership::unowned());
}

/// A package manifest without an owner says so, and one that could not be read says why.
pub proof fn law_what_a_javascript_manifest_names(owner: Seq<char>, e: Seq<char>)
    ensures
        file_owner_resolver::javascript_owner(Ok(Some(owner))) == Ok::<Seq<char>, Seq<char>>(owner),
        file_owner_resolver::javascript_owner(Ok(None)) == Err::<Seq<char>, Seq<char>>("Missing owner"@),
        file_owner_resolver::javascript_owner(Err(e)) == Err::<Seq<char>, Seq<char>>(e),
{
}

/// A relative path is looked for below the root, and its own components are those of the file.
pub proof fn law_a_relative_file_keeps_its_components(root: Seq<char>, file_path: Seq<char>)
    requires
        root.len() > 0,
        file_path.len() > 0,
        path::components(file_path).len() > 0,
        path::components(file_path)[0] != "/"@,
        path::components(file_path)[0] != "."@,
    ensures
        path::components(file_owner_resolver::relative_file(root, file_path)) == path::components(file_path),
        path::components(path::join_text(root, file_path)) == path::components(root) + path::components(file_path),
{
    let whole = path::join_text(root, file_path);
    let rs = path::components(root);
    let cs = path::components(file_path);
    path::lemma_components(file_path);
    path::lemma_join(root, file_path);
    path_utils::law_what_is_left_below_a_root(root, whole);
    assert(path::added_components(file_path) =~= cs);
    let ps = path::components(whole);
    assert(ps =~= rs + cs);
    assert forall|k: int| 0 <= k < rs.len() implies #[trigger] rs[k] == ps[k] by {}
    assert(ps.skip(rs.len() as int) =~= cs);
}

/// A file is found alike by its path relative to the project and by its path in full, and is
/// then known by what its path has below the root. A path in full elsewhere stays as it is.
pub proof fn law_full_paths_name_the_same_file(root: Seq<char>, file_path: Seq<char>)
    ensures
        path::is_absolute(root) ==> file_owner_resolver::relative_file(root, path::join_text(root, file_path))
            == file_owner_resolver::relative_file(root, file_path),
        path::is_absolute(file_path) ==> {
            let rs = path::components(root);
            let ps = path::components(file_path);
            let found = file_owner_resolver::relative_file(root, file_path);
            &&& rs.is_prefix_of(ps) ==> path::components(found) == ps.skip(rs.len() as int)
            &&& !rs.is_prefix_of(ps) ==> found == file_path
        },
{
    let whole = path::join_text(root, file_path);
    if path::is_absolute(root) {
        assert(path::is_absolute(whole)) by {
            if !path::is_absolute(file_path) {
                assert(whole[0] == root[0]);
            }
        }
        assert(path::join_text(root, whole) == whole);
    }
    if path::is_absolute(file_path) {
        let rs = path::components(root);
        let ps = path::components(file_path);
        path_utils::law_what_is_left_below_a_root(root, file_path);
        if rs.is_prefix_of(ps) {
            assert forall|k: int| 0 <= k < rs.len() implies #[trigger] rs[k] == ps[k] by {
                assert(ps.subrange(0, rs.len() as int)[k] == ps[k]);
            }
        } else if rs.len() <= ps.len() && (forall|k: int| 0 <= k < rs.len() ==> #[trigger] rs[k] == ps[k]) {
            assert(rs =~= ps.subrange(0, rs.len() as int));
        }
    }
}

/// The order in which claims of different kinds are made.
pub open spec fn turn(source: SourceView) -> int {
    match source {
        SourceView::AnnotatedFile => 1,
        SourceView::Directory(_) => 2,
        SourceView::Package(_, _) => 3,
        SourceView::TeamGem => 4,
        SourceView::TeamGlob(_) => 5,
        SourceView::TeamYml => 6,
    }
}

/// Claims are made by annotation, by directory, by package, by gem, by globs and for team
/// files, in this order, at most one by each of the first four.
pub proof fn law_claims_are_made_in_turn(
    root: Seq<char>,
    config: ConfigView,
    relative: Seq<char>,
    loaded: LoadedTeamsView,
    facts: FileFactsView,
    i: int,
    j: int,
)
    requires
        0 <= i < j < file_owner_resolver::all_claims(root, config, relative, loaded, facts).len(),
    ensures
        ({
            let a = file_owner_resolver::all_claims(root, config, relative, loaded, facts)[i].1;
            let b = file_owner_resolver::all_claims(root, config, relative, loaded, facts)[j].1;
            turn(a) < turn(b) || (turn(a) == turn(b) && turn(a) >= 5)
        }),
{
    let front = lemma_parts_in_turn(root, config, relative, loaded, facts);
    let globs = file_owner_resolver::all_glob_claims(loaded.teams, relative);
    let files = file_owner_resolver::team_file_claims(root, loaded.teams, relative);
    lemma_next_turn(front, globs, 4);
    lemma_next_turn(front + globs, files, 5);
    lemma_in_turn(front + globs + files, i, j);
}

/// Those of some claims that are made by a glob.
pub open spec fn by_globs(claims: Seq<Claim>) -> Seq<Claim> {
    claims.filter(|c: Claim| c.1 is TeamGlob)
}

/// Those of some claims that are made to a team file.
pub open spec fn to_team_files(claims: Seq<Claim>) -> Seq<Claim> {
    claims.filter(|c: Claim| c.1 is TeamYml)
}

/// Of all claims, those by globs are the claims that the teams make by their globs, and those
/// to team files the claims that the teams make to their files: each of them, as often as it is
/// made, and in the same order.
pub proof fn law_teams_claim_one_after_the_other(
    root: Seq<char>,
    config: ConfigView,
    relative: Seq<char>,
    loaded: LoadedTeamsView,
    facts: FileFactsView,
)
    ensures
        by_globs(file_owner_resolver::all_claims(root, config, relative, loaded, facts))
            == file_owner_resolver::all_glob_claims(loaded.teams, relative),
        to_team_files(file_owner_resolver::all_claims(root, config, relative, loaded, facts))
            == file_owner_resolver::team_file_claims(root, loaded.teams, relative),
{
    let front = lemma_parts_in_turn(root, config, relative, loaded, facts);
    lemma_kinds_apart(
        front,
        file_owner_resolver::all_glob_claims(loaded.teams, relative),
        file_owner_resolver::team_file_claims(root, loaded.teams, relative),
    );
}

/// The claims that are not made by a team as such, in front of those that are.
proof fn lemma_parts_in_turn(
    root: Seq<char>,
    config: ConfigView,
    relative: Seq<char>,
    loaded: LoadedTeamsView,
    facts: FileFactsView,
) -> (front: Seq<Claim>)
    ensures
        in_turn(front, 4),
        all_at(file_owner_resolver::all_glob_claims(loaded.teams, relative), 5),
        all_at(file_owner_resolver::team_file_claims(root, loaded.teams, relative), 6),
        file_owner_resolver::all_claims(root, config, relative, loaded, facts) == front
            + file_owner_resolver::all_glob_claims(loaded.teams, relative) + file_owner_resolver::team_file_claims(
            root,
            loaded.teams,
            relative,
        ),
{
    let dirs = file_owner_resolver::searched(root, relative);
    let by_name = loaded.teams_by_name;
    let annotation = file_owner_resolver::annotation_claim(config, relative, by_name, facts.first_line);
    let directory = file_owner_resolver::specific_directory(root, dirs, by_name, facts.directories);
    let package = file_owner_resolver::nearest_package(root, config, dirs, by_name, facts.directories);
    let gem = file_owner_resolver::gem_claim(relative, config.vendored_gems_path, loaded.teams);
    lemma_directory_kind(root, dirs, by_name, facts.directories);
    lemma_package_kind(root, config, dirs, by_name, facts.directories);
    lemma_one_turn(annotation, 1);
    lemma_one_turn(directory, 2);
    lemma_one_turn(package, 3);
    lemma_one_turn(gem, 4);
    lemma_team_turns(root, loaded.teams, relative);
    lemma_first_turns(
        file_owner_resolver::claim_list(annotation),
        file_owner_resolver::claim_list(directory),
        file_owner_resolver::claim_list(package),
        file_owner_resolver::claim_list(gem),
    );
    file_owner_resolver::claim_list(annotation) + file_owner_resolver::claim_list(directory)
        + file_owner_resolver::claim_list(package) + file_owner_resolver::claim_list(gem)
}

proof fn lemma_in_turn(list: Seq<Claim>, i: int, j: int)
    requires
        in_turn(list, 6),
        0 <= i < j < list.len(),
    ensures
        turn(list[i].1) < turn(list[j].1) || (turn(list[i].1) == turn(list[j].1) && turn(list[i].1) >= 5),
{
    reveal(in_turn);
}

proof fn lemma_one_turn(claim: Option<Claim>, n: int)
    requires
        claim matches Some(c) ==> turn(c.1) == n,
    ensures
        file_owner_resolver::claim_list(claim).len() <= 1,
        all_at(file_owner_resolver::claim_list(claim), n),
{
    reveal(all_at);
}

proof fn lemma_team_turns(root: Seq<char>, teams: Seq<TeamView>, relative: Seq<char>)
    ensures
        all_at(file_owner_resolver::all_glob_claims(teams, relative), 5),
        all_at(file_owner_resolver::team_file_claims(root, teams, relative), 6),
{
    reveal(all_at);
    let globs = file_owner_resolver::all_glob_claims(teams, relative);
    assert forall|i: int| 0 <= i < globs.len() implies turn((#[trigger] globs[i]).1) == 5 by {
        lemma_all_glob_claims(teams, relative, globs[i]);
        assert(globs.contains(globs[i]));
    }
    law_every_team_claims_its_team_file(root, teams, relative);
}

/// All claims of a list are made in the same turn.
#[verifier::opaque]
spec fn all_at(list: Seq<Claim>, n: int) -> bool {
    forall|i: int| 0 <= i < list.len() ==> turn((#[trigger] list[i]).1) == n
}

proof fn lemma_kinds_apart(front: Seq<Claim>, globs: Seq<Claim>, files: Seq<Claim>)
    requires
        in_turn(front, 4),
        all_at(globs, 5),
        all_at(files, 6),
    ensures
        by_globs(front + globs + files) == globs,
        to_team_files(front + globs + files) == files,
{
    reveal(all_at);
    reveal(in_turn);
    let p = |c: Claim| c.1 is TeamGlob;
    let q = |c: Claim| c.1 is TeamYml;
    let none = Seq::<Claim>::empty();
    lists::lemma_filter_concat(front + globs, files, p);
    lists::lemma_filter_concat(front, globs, p);
    lists::lemma_filter_concat(front + globs, files, q);
    lists::lemma_filter_concat(front, globs, q);
    lists::lemma_filter_whole(front, p);
    lists::lemma_filter_whole(front, q);
    lists::lemma_filter_whole(globs, p);
    lists::lemma_filter_whole(globs, q);
    lists::lemma_filter_whole(files, p);
    lists::lemma_filter_whole(files, q);
    assert forall|i: int| 0 <= i < front.len() implies !p(#[trigger] front[i]) && !q(front[i]) by {}
    assert forall|i: int| 0 <= i < globs.len() implies p(#[trigger] globs[i]) && !q(globs[i]) by {}
    assert forall|i: int| 0 <= i < files.len() implies !p(#[trigger] files[i]) && q(files[i]) by {}
    assert(none + globs + none =~= globs);
    assert(none + none + files =~= files);
}

/// The claims of a list are made in turn, up to this one, and at most one in each of the
/// first four.
#[verifier::opaque]
spec fn in_turn(list: Seq<Claim>, n: int) -> bool {
    &&& forall|i: int| 0 <= i < list.len() ==> turn((#[trigger] list[i]).1) <= n
    &&& forall|i: int, j: int|
        0 <= i < j < list.len() ==> turn((#[trigger] list[i]).1) <= turn((#[trigger] list[j]).1) && (turn(list[i].1)
            == turn(list[j].1) ==> turn(list[i].1) >= 5)
}

proof fn lemma_next_turn(list: Seq<Claim>, next: Seq<Claim>, n: int)
    requires
        in_turn(list, n),
        all_at(next, n + 1),
        n + 1 < 5 ==> next.len() <= 1,
    ensures
        in_turn(list + next, n + 1),
{
    reveal(all_at);
    reveal(in_turn);
    let all = list + next;
    assert forall|i: int| 0 <= i < all.len() implies turn((#[trigger] all[i]).1) <= n + 1 by {
        if i < list.len() {
            assert(all[i] == list[i]);
        } else {
            assert(all[i] == next[i - list.len()]);
        }
    }
    assert forall|i: int, j: int| 0 <= i < j < all.len() implies turn((#[trigger] all[i]).1) <= turn(
        (#[trigger] all[j]).1,
    ) && (turn(all[i].1) == turn(all[j].1) ==> turn(all[i].1) >= 5) by {
        if j < list.len() {
            assert(all[i] == list[i] && all[j] == list[j]);
        } else {
            assert(all[j] == next[j - list.len()]);
            if i < list.len() {
                assert(all[i] == list[i]);
            } else {
                assert(all[i] == next[i - list.len()]);
            }
        }
    }
}

proof fn lemma_first_turns(a: Seq<Claim>, b: Seq<Claim>, c: Seq<Claim>, d: Seq<Claim>)
    requires
        a.len() <= 1 && b.len() <= 1 && c.len() <= 1 && d.len() <= 1,
        all_at(a, 1) && all_at(b, 2) && all_at(c, 3) && all_at(d, 4),
    ensures
        in_turn(a + b + c + d, 4),
{
    assert(in_turn(a, 1)) by {
        reveal(all_at);
        reveal(in_turn);
    }
    lemma_next_turn(a, b, 1);
    lemma_next_turn(a + b, c, 2);
    lemma_next_turn(a + b + c, d, 3);
}

} // verus!
