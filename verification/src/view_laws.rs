//! Values stand for all that is in memory: every field, and every entry of every list.

use crate::config::Config;
use crate::ownership::FileOwner;
use crate::ownership::TeamOwnership;
use crate::ownership::file_owner_finder::{Owner, TeamClaim};
use crate::ownership::file_owner_resolver::{DirectoryFacts, FileFacts, RubyManifest, RubyManifestView};
use crate::ownership::mapper::{OwnerMatcher, OwnerMatcherView, Source, SourceView};
use crate::ownership::team_cache::LoadedTeams;
use crate::ownership::validator;
use crate::ownership::validator::{ErrorView, Errors};
use crate::path_utils::DiskView;
use crate::project::{JavascriptPackage, Package, Project, ProjectFile, Team};
use crate::runner::{ForFileResult, RunConfig, RunFacts, RunResult};
use vstd::prelude::*;
use vstd::string::*;

verus! {

/// Whether a list of texts is that of a list of strings, entry by entry.
pub open spec fn are_texts_of(texts: Seq<Seq<char>>, list: Seq<String>) -> bool {
    &&& texts.len() == list.len()
    &&& forall|i: int| 0 <= i < list.len() ==> #[trigger] texts[i] == list[i]@
}

/// Whether a text is that of a string, where there is one.
pub open spec fn is_text_of(t: Option<Seq<char>>, s: Option<String>) -> bool {
    &&& t is Some <==> s is Some
    &&& s is Some ==> t->0 == (s->0)@
}

/// All of a team.
pub proof fn law_all_of_a_team(team: Team)
    ensures
        team@.path == team.path@,
        team@.name == team.name@,
        team@.github_team == team.github_team@,
        are_texts_of(team@.owned_globs, team.owned_globs@),
        are_texts_of(team@.subtracted_globs, team.subtracted_globs@),
        are_texts_of(team@.owned_gems, team.owned_gems@),
        team@.avoid_ownership == team.avoid_ownership,
{
}

/// All of a file and of a package, and what a JavaScript package names as its owner.
pub proof fn law_all_of_a_file_and_a_package(file: ProjectFile, package: Package, javascript: JavascriptPackage)
    ensures
        file@.path == file.path@,
        is_text_of(file@.owner, file.owner),
        package@.path == package.path@,
        package@.package_type == package.package_type,
        package@.owner == package.owner@,
        javascript.metadata is None ==> javascript@ is None,
        javascript.metadata matches Some(m) ==> is_text_of(javascript@, m.owner),
{
}

/// All of a project.
pub proof fn law_all_of_a_project(p: Project)
    ensures
        p@.base_path == p.base_path@,
        p@.files.len() == p.files@.len(),
        forall|i: int| 0 <= i < p.files@.len() ==> #[trigger] p@.files[i] == p.files@[i]@,
        p@.packages.len() == p.packages@.len(),
        forall|i: int| 0 <= i < p.packages@.len() ==> #[trigger] p@.packages[i] == p.packages@[i]@,
        p@.teams.len() == p.teams@.len(),
        forall|i: int| 0 <= i < p.teams@.len() ==> #[trigger] p@.teams[i] == p.teams@[i]@,
{
}

/// All of a configuration.
pub proof fn law_all_of_a_configuration(c: Config)
    ensures
        are_texts_of(c@.owned_globs, c.owned_globs@),
        are_texts_of(c@.unowned_globs, c.unowned_globs@),
        are_texts_of(c@.ruby_package_paths, c.ruby_package_paths@),
        are_texts_of(c@.javascript_package_paths, c.javascript_package_paths@),
        are_texts_of(c@.team_file_glob, c.team_file_glob@),
        c@.vendored_gems_path == c.vendored_gems_path@,
        c@.cache_directory == c.cache_directory@,
        are_texts_of(c@.ignore_dirs, c.ignore_dirs@),
        c@.executable_name == c.executable_name@,
        c@.codeowners_path == c.codeowners_path@,
{
}

/// All of a source.
pub proof fn law_all_of_a_source(s: Source)
    ensures
        match s {
            Source::Directory(dir) => s@ == SourceView::Directory(dir@),
            Source::AnnotatedFile => s@ == SourceView::AnnotatedFile,
            Source::TeamGem => s@ == SourceView::TeamGem,
            Source::TeamGlob(glob) => s@ == SourceView::TeamGlob(glob@),
            Source::Package(manifest, glob) => s@ == SourceView::Package(manifest@, glob@),
            Source::TeamYml => s@ == SourceView::TeamYml,
        },
{
}

/// All of a rule.
pub proof fn law_all_of_a_rule(rule: OwnerMatcher)
    ensures
        match rule {
            OwnerMatcher::ExactMatches(list, source) => {
                &&& rule@ matches OwnerMatcherView::ExactMatches(entries, by)
                &&& by == source@
                &&& entries.len() == list@.len()
                &&& forall|i: int| 0 <= i < list@.len() ==> #[trigger] entries[i] == (list@[i].0@, list@[i].1@)
            },
            OwnerMatcher::Glob { glob, subtracted_globs, team_name, source } => {
                &&& rule@ is Glob
                &&& rule@->glob == glob@
                &&& are_texts_of(rule@->subtracted_globs, subtracted_globs@)
                &&& rule@->team_name == team_name@
                &&& rule@->Glob_source == source@
            },
        },
{
}

/// All of a claim, an owner and the owner of a file.
pub proof fn law_all_of_an_owner(claim: TeamClaim, owner: Owner, of_file: FileOwner)
    ensures
        claim@ == (claim.team_name@, claim.source@),
        owner@.team_name == owner.team_name@,
        owner@.sources.len() == owner.sources@.len(),
        forall|i: int| 0 <= i < owner.sources@.len() ==> #[trigger] owner@.sources[i] == owner.sources@[i]@,
        of_file@.team == of_file.team@,
        of_file@.team_config_file_path == of_file.team_config_file_path@,
        of_file@.sources.len() == of_file.sources@.len(),
        forall|i: int| 0 <= i < of_file.sources@.len() ==> #[trigger] of_file@.sources[i] == of_file.sources@[i]@,
{
}

/// All that is known of a directory.
pub proof fn law_all_of_a_directory(facts: DirectoryFacts)
    ensures
        facts@.path == facts.path@,
        is_text_of(facts@.codeowner, facts.codeowner),
        match facts.ruby_package {
            RubyManifest::Missing => facts@.ruby_package == RubyManifestView::Missing,
            RubyManifest::Rejected => facts@.ruby_package == RubyManifestView::Rejected,
            RubyManifest::Read(owner) => facts@.ruby_package is Read && is_text_of(facts@.ruby_package->0, owner),
        },
        match facts.javascript_package {
            None => facts@.javascript_package is None,
            Some(Ok(package)) => facts@.javascript_package == Some(
                Ok::<Option<Seq<char>>, Seq<char>>(package@),
            ),
            Some(Err(e)) => facts@.javascript_package == Some(Err::<Option<Seq<char>>, Seq<char>>(e@)),
        },
{
}

/// All that is known of a file and of loaded teams.
pub proof fn law_all_that_is_known(facts: FileFacts, loaded: LoadedTeams)
    ensures
        is_text_of(facts@.first_line, facts.first_line),
        facts@.directories.len() == facts.directories@.len(),
        forall|i: int|
            0 <= i < facts.directories@.len() ==> #[trigger] facts@.directories[i] == facts.directories@[i]@,
        loaded@.teams.len() == loaded.teams@.len(),
        forall|i: int| 0 <= i < loaded.teams@.len() ==> #[trigger] loaded@.teams[i] == loaded.teams@[i]@,
        loaded@.teams_by_name == loaded.teams_by_name@,
{
}

/// All of what a run is asked to do and of what it is told of the disk.
pub proof fn law_all_of_a_run(run_config: RunConfig, facts: RunFacts, disk: DiskView)
    ensures
        run_config@.project_root == run_config.project_root@,
        is_text_of(run_config@.codeowners_file_path, run_config.codeowners_file_path),
        run_config@.config_path == run_config.config_path@,
        run_config@.no_cache == run_config.no_cache,
        is_text_of(run_config@.executable_name, run_config.executable_name),
        facts.current_file is None ==> facts@.current_file.len() == 0,
        facts.current_file matches Some(contents) ==> facts@.current_file == contents@,
        is_text_of(facts@.canonical_root, facts.canonical_root),
        facts@.disk == facts.disk@,
        disk@.resolved.len() == disk.resolved@.len(),
        forall|i: int|
            0 <= i < disk.resolved@.len() ==> #[trigger] disk@.resolved[i] == (
                disk.resolved@[i].0@,
                disk.resolved@[i].1@,
            ),
        are_texts_of(disk@.missing, disk.missing@),
{
}

/// All that a run has to say.
pub proof fn law_all_of_a_result(r: RunResult, of_file: ForFileResult, of_team: TeamOwnership)
    ensures
        are_texts_of(r@.validation_errors, r.validation_errors@),
        are_texts_of(r@.io_errors, r.io_errors@),
        are_texts_of(r@.info_messages, r.info_messages@),
        of_file@.team_name == of_file.team_name@,
        of_file@.github_team == of_file.github_team@,
        of_file@.team_yml == of_file.team_yml@,
        are_texts_of(of_file@.description, of_file.description@),
        of_team@.heading == of_team.heading@,
        are_texts_of(of_team@.globs, of_team.globs@),
{
}

/// All defects, and all of each.
pub proof fn law_all_of_the_defects(errors: Errors)
    ensures
        errors@.len() == errors.0@.len(),
        forall|i: int|
            0 <= i < errors.0@.len() ==> match #[trigger] errors.0@[i] {
                validator::Error::InvalidTeam { name, path } => errors@[i] == (ErrorView::InvalidTeam {
                    name: name@,
                    path: path@,
                }),
                validator::Error::FileWithoutOwner { path } => errors@[i] == (ErrorView::FileWithoutOwner {
                    path: path@,
                }),
                validator::Error::FileWithMultipleOwners { path, owners } => errors@[i] == (
                ErrorView::FileWithMultipleOwners { path: path@, owners: owners@.map_values(|o: Owner| o@) }),
                validator::Error::CodeownershipFileIsStale { executable_name, diff } => errors@[i] == (
                ErrorView::CodeownershipFileIsStale { executable_name: executable_name@, diff: diff@ }),
            },
{
}

} // verus!
