//! Runs: what is done with a project, and what there is to say of it afterwards.

use crate::cache::Cache;
use crate::config::{Config, ConfigView};
use crate::outside;
use crate::ownership;
use crate::ownership::file_owner_resolver;
use crate::ownership::file_owner_resolver::{FileFacts, find_file_owners};
use crate::ownership::laws::{law_no_paths_no_defects, law_the_diff_is_told_beside_the_report};
use crate::ownership::mapper;
use crate::ownership::mapper::{OwnerMatcherView, glob_list_matches};
use crate::ownership::team_cache::LoadedTeams;
use crate::ownership::validator;
use crate::ownership::validator::ErrorView;
use crate::ownership::{FileOwner, FileOwnerView, Ownership, TeamOwnership, TeamOwnershipView};
use crate::path;
use crate::path::join;
use crate::path_utils;
use crate::path_utils::{DiskFacts, DiskView, relative_to, resolve_project_relative};
use crate::project;
use crate::project::{ProjectView, Team, TeamView};
use crate::runner::outcome_laws::law_which_paths_need_an_owner;
use crate::runner::result::{ErrorValue, ForFileResultView, RunResultView};
use crate::text;
use crate::text::{join_texts, one_text};
use vstd::prelude::*;
use vstd::string::*;

pub mod laws;
pub mod outcome_laws;
pub mod result;

pub use crate::runner::result::{Error, ForFileResult, RunResult};

verus! {

/// The version of this crate.
pub const VERSION: &'static str = "0.1.0";

/// The version of this crate.
pub fn version() -> (r: String)
    ensures
        r@ == VERSION@,
{
    VERSION.to_owned()
}

/// What a run is asked to work on.
#[derive(Debug)]
pub struct RunConfig {
    pub project_root: String,
    /// The CODEOWNERS file, if it is not where the configuration says.
    pub codeowners_file_path: Option<String>,
    /// The configuration file.
    pub config_path: String,
    pub no_cache: bool,
    /// The name of the executable, if it is not the one that the configuration gives.
    pub executable_name: Option<String>,
}

/// A [`RunConfig`] as a value.
#[verifier::ext_equal]
pub struct RunConfigView {
    pub project_root: Seq<char>,
    pub codeowners_file_path: Option<Seq<char>>,
    pub config_path: Seq<char>,
    pub no_cache: bool,
    pub executable_name: Option<Seq<char>>,
}

impl View for RunConfig {
    type V = RunConfigView;

    open spec fn view(&self) -> RunConfigView {
        RunConfigView {
            project_root: self.project_root@,
            codeowners_file_path: project::text_option(self.codeowners_file_path),
            config_path: self.config_path@,
            no_cache: self.no_cache,
            executable_name: project::text_option(self.executable_name),
        }
    }
}

/// A copy of an optional string.
fn copy_option(s: &Option<String>) -> (r: Option<String>)
    ensures
        project::text_option(r) == project::text_option(*s),
{
    match s {
        Some(t) => Some(t.clone()),
        None => None,
    }
}

impl Clone for RunConfig {
    fn clone(&self) -> (r: RunConfig)
        ensures
            r@ == self@,
    {
        RunConfig {
            project_root: self.project_root.clone(),
            codeowners_file_path: copy_option(&self.codeowners_file_path),
            config_path: self.config_path.clone(),
            no_cache: self.no_cache,
            executable_name: copy_option(&self.executable_name),
        }
    }
}

/// The configuration of a run: that of the project, under the name of the executable that
/// runs.
pub open spec fn configured(run_config: RunConfigView, config: ConfigView) -> ConfigView {
    match run_config.executable_name {
        Some(name) => ConfigView { executable_name: name, ..config },
        None => config,
    }
}

/// The configuration of a run. `loaded` is the configuration of the project, or why it could
/// not be loaded.
pub fn config_from_run_config(run_config: &RunConfig, loaded: Result<Config, String>) -> (r: Result<Config, Error>)
    ensures
        match loaded {
            Ok(config) => r is Ok && r->Ok_0@ == configured(run_config@, config@),
            Err(message) => r is Err && r->Err_0@ == ErrorValue::Io(message@),
        },
{
    match loaded {
        Ok(config) => {
            let ghost given = config@;
            let mut c = config;
            if let Some(name) = &run_config.executable_name {
                c.executable_name = name.clone();
            }
            assert(c@ =~= configured(run_config@, given));
            Ok(c)
        },
        Err(message) => Err(Error::Io(message)),
    }
}

/// Where the CODEOWNERS file lies: where the run is told, else where the environment says,
/// if it says anything, else where the configuration says.
pub open spec fn codeowners_path(
    run_config: RunConfigView,
    config: ConfigView,
    environment: Option<Seq<char>>,
) -> Seq<char> {
    if run_config.codeowners_file_path is Some {
        run_config.codeowners_file_path->0
    } else if environment is Some && (environment->0).len() > 0 {
        path::join_text(run_config.project_root, environment->0)
    } else {
        path::join_text(path::join_text(run_config.project_root, config.codeowners_path), "CODEOWNERS"@)
    }
}

/// Where the CODEOWNERS file lies. `environment` is the value of the variable
/// `CODEOWNERS_PATH`, if it is set.
pub fn resolve_codeowners_file_path(run_config: &RunConfig, config: &Config, environment: Option<&str>) -> (r: String)
    ensures
        r@ == codeowners_path(
            run_config@,
            config@,
            match environment {
                Some(value) => Some(value@),
                None => None,
            },
        ),
{
    if let Some(path) = &run_config.codeowners_file_path {
        return path.clone();
    }
    if let Some(value) = environment {
        if !value.is_empty() {
            return join(run_config.project_root.as_str(), value);
        }
    }
    join(join(run_config.project_root.as_str(), config.codeowners_path.as_str()).as_str(), "CODEOWNERS")
}

/// What the run found on disk.
pub struct RunFacts {
    /// The CODEOWNERS file, if it could be read.
    pub current_file: Option<String>,
    /// The resolved form of the root of the project, if it could be resolved.
    pub canonical_root: Option<String>,
    pub disk: DiskView,
}

/// A [`RunFacts`] as a value. A CODEOWNERS file that could not be read counts as an empty one.
#[verifier::ext_equal]
pub struct RunFactsView {
    pub current_file: Seq<char>,
    pub canonical_root: Option<Seq<char>>,
    pub disk: DiskFacts,
}

impl View for RunFacts {
    type V = RunFactsView;

    open spec fn view(&self) -> RunFactsView {
        RunFactsView {
            current_file: match self.current_file {
                Some(contents) => contents@,
                None => Seq::empty(),
            },
            canonical_root: project::text_option(self.canonical_root),
            disk: self.disk@,
        }
    }
}

/// Whether `path` matches any of `globs`.
pub fn matches_globs(path: &str, globs: &Vec<String>) -> (r: bool)
    ensures
        r == mapper::any_glob_matches(text::texts(globs@), path@),
{
    glob_list_matches(path, globs)
}

/// The place of a path in the project, if it has one and is not known to be gone.
pub open spec fn supplied_path(root: Seq<char>, facts: RunFactsView, file_path: Seq<char>) -> Option<Seq<char>> {
    match path_utils::resolved_text(root, facts.canonical_root, file_path, facts.disk) {
        Some(relative) => if facts.disk.missing.contains(path::join_text(root, relative)) {
            None
        } else {
            Some(relative)
        },
        None => None,
    }
}

/// The paths that a run is to judge, each by its place in the project. Paths outside the
/// project and files that are gone are left out.
pub open spec fn supplied(root: Seq<char>, facts: RunFactsView, file_paths: Seq<Seq<char>>) -> Seq<Seq<char>>
    decreases file_paths.len(),
{
    if file_paths.len() == 0 {
        Seq::empty()
    } else {
        let before = supplied(root, facts, file_paths.drop_last());
        match supplied_path(root, facts, file_paths.last()) {
            Some(relative) => before.push(relative),
            None => before,
        }
    }
}

/// Whether a file has to have an owner.
pub open spec fn needs_owner(config: ConfigView, path: Seq<char>) -> bool {
    mapper::any_glob_matches(config.owned_globs, path) && !mapper::any_glob_matches(config.unowned_globs, path)
}

/// The files of a list that have to have an owner.
pub open spec fn owned(config: ConfigView, paths: Seq<Seq<char>>) -> Seq<Seq<char>> {
    paths.filter(|p: Seq<char>| needs_owner(config, p))
}

/// What is reported of the whole project.
pub open spec fn whole_result(errors: Seq<ErrorView>) -> RunResultView {
    if errors.len() == 0 {
        result::nothing()
    } else {
        result::report_result(errors)
    }
}

/// What is reported of some paths.
pub open spec fn scoped_result(errors: Seq<ErrorView>) -> RunResultView {
    if errors.len() == 0 {
        result::nothing()
    } else {
        result::defects(seq![validator::report(errors)])
    }
}

/// What is reported of a team: for each category, what the team owns.
pub open spec fn team_report(team_name: Seq<char>, list: Seq<TeamOwnershipView>) -> Seq<Seq<char>>
    decreases list.len(),
{
    if list.len() == 0 {
        seq!["# Code Ownership Report for `"@ + team_name + "` Team"@]
    } else {
        team_report(team_name, list.drop_last()).push("\n#"@ + list.last().heading).push(
            if list.last().globs.len() == 0 {
                "This team owns nothing in this category."@
            } else {
                text::joined(list.last().globs, "\n"@)
            },
        )
    }
}

/// What is reported of a team that owns this, or of which it is not known what it owns.
pub open spec fn team_result(team_name: Seq<char>, found: Result<Vec<TeamOwnership>, String>) -> RunResultView {
    match found {
        Ok(list) => result::information(team_report(team_name, ownership::team_ownership_views(list@))),
        Err(e) => result::failure(e@),
    }
}

/// What is said of a file that several teams own.
pub open spec fn many_owners(owners: Seq<FileOwnerView>) -> Seq<Seq<char>>
    decreases owners.len(),
{
    if owners.len() == 0 {
        seq!["Error: file is owned by multiple teams!"@]
    } else {
        many_owners(owners.drop_last()).push("\n"@ + owners.last().described())
    }
}

/// What is told of a file with these owners.
pub open spec fn owners_result(owners: Seq<FileOwnerView>, json: bool) -> RunResultView {
    if owners.len() == 0 {
        result::file_owner_result(ownership::unowned(), json)
    } else if owners.len() == 1 {
        result::file_owner_result(owners[0], json)
    } else {
        result::validation_error_result(many_owners(owners), json)
    }
}

/// What the CODEOWNERS file tells of a team.
pub open spec fn inferred(root: Seq<char>, team: TeamView) -> ForFileResultView {
    ForFileResultView {
        team_name: team.name,
        github_team: team.github_team,
        team_yml: path_utils::relative_text(root, team.path),
        description: seq!["Owner inferred from codeowners file"@],
    }
}

/// An owner in words.
pub open spec fn for_file_text(found: ForFileResultView) -> Seq<char> {
    "Team: "@ + found.team_name + "\nGithub Team: "@ + found.github_team + "\nTeam YML: "@ + found.team_yml
        + "\nDescription:\n- "@ + text::joined(found.description, "\n- "@)
}

/// What is told of a file to which the CODEOWNERS file gives this team.
pub open spec fn codeowners_result(
    root: Seq<char>,
    found: Result<Option<TeamView>, Seq<char>>,
    json: bool,
) -> RunResultView {
    match found {
        Ok(Some(team)) => if json {
            result::json_info_result(outside::json_pretty(inferred(root, team).members()))
        } else {
            result::information(seq![for_file_text(inferred(root, team))])
        },
        Ok(None) => result::file_owner_result(ownership::unowned(), json),
        Err(message) => result::io_error_result(ErrorValue::Io(message), json),
    }
}

/// What a lookup in the CODEOWNERS file found, as a value.
pub open spec fn found_view(found: Result<Option<Team>, String>) -> Result<Option<TeamView>, Seq<char>> {
    match found {
        Ok(Some(team)) => Ok(Some(team@)),
        Ok(None) => Ok(None),
        Err(e) => Err(e@),
    }
}

/// A run over one project.
pub struct Runner {
    pub run_config: RunConfig,
    pub ownership: Ownership,
    pub cache: Cache,
    pub config: Config,
    pub codeowners_file_path: String,
}

/// Whether a CODEOWNERS file is to be staged: if that is asked for and the file was written.
pub fn is_staged(git_stage: bool, written: bool) -> (r: bool)
    ensures
        r == (git_stage && written),
{
    git_stage && written
}

/// `what`, and the configuration file that the run goes by.
fn context(what: &str, run_config: &RunConfig) -> (r: Error)
    ensures
        r@ == ErrorValue::Io(what@ + run_config@.config_path),
{
    let mut message = what.to_owned();
    message.append(run_config.config_path.as_str());
    Error::Io(message)
}

/// Runs `runnable`, or reports why there is nothing to run. `runner` is the run, or the error
/// in full.
pub fn run<F>(runner: Result<Runner, String>, runnable: F) -> (r: RunResult) where F: FnOnce(Runner) -> RunResult
    requires
        runner is Ok ==> call_requires(runnable, (runner->Ok_0,)),
    ensures
        match runner {
            Ok(given) => call_ensures(runnable, (given,), r),
            Err(e) => r@ == result::failure(e@),
        },
{
    match runner {
        Ok(given) => runnable(given),
        Err(e) => RunResult::from_failure(e),
    }
}

/// Whether the cache of a run can come out so: there is none, if the run is to do without,
/// else it is what `create` makes.
pub open spec fn is_opened<C>(
    run_config: &RunConfig,
    config: Config,
    create: C,
    opened: Result<Cache, Error>,
) -> bool where C: FnOnce(&RunConfig, &Config) -> Result<Cache, String> {
    if run_config@.no_cache {
        opened == Ok::<Cache, Error>(Cache::Noop)
    } else {
        match opened {
            Ok(cache) => call_ensures(create, (run_config, &config), Ok(cache)),
            Err(e) => e@ == ErrorValue::Io("Can't create cache: "@ + run_config@.config_path) && (exists|said: String|
                #[trigger] call_ensures(create, (run_config, &config), Err(said))),
        }
    }
}

/// Whether the making of a run can come out so, when it goes by this configuration and this
/// CODEOWNERS file.
pub open spec fn is_set_up<C, B, P>(
    run_config: &RunConfig,
    config: Config,
    path: String,
    r: Result<Runner, Error>,
    create_cache: C,
    build: B,
    persist: P,
) -> bool where
    C: FnOnce(&RunConfig, &Config) -> Result<Cache, String>,
    B: FnOnce(&RunConfig, &Config, &String, Cache) -> Result<(Ownership, Cache), String>,
    P: FnOnce(&Cache) -> Result<(), String>,
 {
    exists|opened: Result<Cache, Error>| #[trigger]
        is_opened(run_config, config, create_cache, opened) && match opened {
            Err(e) => r is Err && r->Err_0@ == e@,
            Ok(cache) => exists|built: Result<(Ownership, Cache), String>| #[trigger]
                call_ensures(build, (run_config, &config, &path, cache), built) && match built {
                    Err(_) => r is Err && r->Err_0@ == ErrorValue::Io(
                        "Can't build project: "@ + run_config@.config_path,
                    ),
                    Ok((ownership, learned)) => exists|kept: Result<(), String>| #[trigger]
                        call_ensures(persist, (&learned,), kept) && match kept {
                            Err(_) => r is Err && r->Err_0@ == ErrorValue::Io(
                                "Can't persist cache: "@ + run_config@.config_path,
                            ),
                            Ok(_) => match r {
                                Ok(runner) => {
                                    &&& runner.run_config@ == run_config@
                                    &&& runner.ownership == ownership
                                    &&& runner.cache == learned
                                    &&& runner.config == config
                                    &&& runner.codeowners_file_path == path
                                },
                                Err(_) => false,
                            },
                        },
                },
        }
}

/// The cache of a run: none, if the run is to do without, or the one that `create` makes.
fn open_cache<C>(run_config: &RunConfig, config: &Config, create: C) -> (r: Result<Cache, Error>) where
    C: FnOnce(&RunConfig, &Config) -> Result<Cache, String>,

    requires
        !run_config@.no_cache ==> call_requires(create, (run_config, config)),
    ensures
        is_opened(run_config, *config, create, r),
{
    if run_config.no_cache {
        return Ok(Cache::Noop);
    }
    match create(run_config, config) {
        Ok(cache) => Ok(cache),
        Err(_) => Err(context("Can't create cache: ", run_config)),
    }
}

impl Runner {
    /// The project that the run is about.
    pub open spec fn project(self) -> ProjectView {
        self.ownership.validator.project@
    }

    /// The rules of the project.
    pub open spec fn rules(self) -> Seq<OwnerMatcherView> {
        self.ownership.validator.rules()
    }

    /// What is wrong with the project as a whole.
    pub open spec fn all_errors(self, current_file: Seq<char>) -> Seq<ErrorView> {
        validator::project_errors(self.project(), self.rules()) + validator::staleness_errors(
            self.ownership.validator.executable_name@,
            current_file,
            self.ownership.generated_file@,
        )
    }

    /// What is wrong with some paths.
    pub open spec fn errors_in(self, facts: RunFactsView, file_paths: Seq<Seq<char>>) -> Seq<ErrorView> {
        let paths = supplied(self.run_config@.project_root, facts, file_paths);
        validator::scoped_errors(self.project(), self.rules(), owned(self.config@, paths), paths)
    }

    /// What is reported of some paths, or of the whole project where none is named.
    pub open spec fn verdict(self, facts: RunFactsView, file_paths: Seq<Seq<char>>) -> RunResultView {
        if file_paths.len() == 0 {
            whole_result(self.all_errors(facts.current_file))
        } else {
            scoped_result(self.errors_in(facts, file_paths))
        }
    }

    /// Judges some paths, or the whole project where none is named.
    pub fn validate(&self, file_paths: &Vec<String>, facts: &RunFacts) -> (r: RunResult)
        requires
            file_paths@.len() == 0 ==> validator::comparable(
                facts@.current_file,
                self.ownership.generated_file@,
            ),
        ensures
            r@ == self.verdict(facts@, text::texts(file_paths@)),
    {
        assert(text::texts(file_paths@).len() == file_paths@.len());
        if file_paths.is_empty() {
            self.validate_all(facts)
        } else {
            self.validate_files(file_paths, facts)
        }
    }

    /// Judges the whole project. The one thing to tell beside the report is how a stale
    /// CODEOWNERS file has to change.
    pub fn validate_all(&self, facts: &RunFacts) -> (r: RunResult)
        requires
            validator::comparable(facts@.current_file, self.ownership.generated_file@),
        ensures
            r@ == whole_result(self.all_errors(facts@.current_file)),
            r@.info_messages.len() == if facts@.current_file == self.ownership.generated_file@ {
                0int
            } else {
                1
            },
    {
        proof {
            law_the_diff_is_told_beside_the_report(
                self.project(),
                self.rules(),
                self.ownership.validator.executable_name@,
                facts@.current_file,
                self.ownership.generated_file@,
            );
        }
        let current: Option<&str> = match &facts.current_file {
            Some(contents) => Some(contents.as_str()),
            None => None,
        };
        match self.ownership.validator.validate(self.ownership.generated_file.as_str(), current) {
            Ok(_) => RunResult::default(),
            Err(errors) => RunResult::from_errors(&errors),
        }
    }

    /// Judges just the paths that are named.
    ///
    /// Ownership is resolved by the rules, as for the whole project. Reading it back from the
    /// CODEOWNERS file could not tell that a file has two owners, nor that an annotation names
    /// a team that does not exist. Whether the CODEOWNERS file is stale is a question about all
    /// of it, and is not asked here.
    pub fn validate_files(&self, file_paths: &Vec<String>, facts: &RunFacts) -> (r: RunResult)
        ensures
            r@ == scoped_result(self.errors_in(facts@, text::texts(file_paths@))),
    {
        let supplied_paths = self.supplied_paths(file_paths, facts);
        let ghost given = text::texts(supplied_paths@);
        if supplied_paths.is_empty() {
            proof {
                assert(given =~= Seq::empty());
                reveal(Seq::filter);
                assert(owned(self.config@, given) =~= Seq::empty());
                law_no_paths_no_defects(self.project(), self.rules());
            }
            return RunResult::default();
        }
        let owned_paths = self.owned_paths(&supplied_paths);
        match self.ownership.validator.validate_files(&owned_paths, &supplied_paths) {
            Ok(_) => RunResult::default(),
            Err(errors) => RunResult::from_defects(one_text(errors.to_string())),
        }
    }

    /// The place of each path in the project, without those that have none or are gone.
    pub fn supplied_paths(&self, file_paths: &Vec<String>, facts: &RunFacts) -> (r: Vec<String>)
        ensures
            text::texts(r@) == supplied(self.run_config@.project_root, facts@, text::texts(file_paths@)),
    {
        let root = self.run_config.project_root.as_str();
        let canonical_root: Option<&str> = match &facts.canonical_root {
            Some(c) => Some(c.as_str()),
            None => None,
        };
        let ghost all = text::texts(file_paths@);
        let mut r: Vec<String> = Vec::new();
        assert(all.take(0) =~= Seq::empty());
        assert(text::texts(r@) =~= Seq::empty());
        for i in 0..file_paths.len()
            invariant
                all == text::texts(file_paths@),
                root@ == self.run_config@.project_root,
                facts@.canonical_root == match canonical_root {
                    Some(c) => Some(c@),
                    None => None,
                },
                text::texts(r@) == supplied(root@, facts@, all.take(i as int)),
        {
            let ghost before = r@;
            assert(all.take(i + 1).drop_last() =~= all.take(i as int));
            assert(all.take(i + 1).last() == file_paths@[i as int]@);
            if let Some(relative) = resolve_project_relative(
                root,
                canonical_root,
                file_paths[i].as_str(),
                &facts.disk,
            ) {
                if !facts.disk.is_missing(&join(root, relative.as_str())) {
                    r.push(relative);
                    assert(text::texts(r@) =~= text::texts(before).push(relative@));
                }
            }
        }
        assert(all.take(file_paths@.len() as int) =~= all);
        r
    }

    /// The paths that have to have an owner.
    pub fn owned_paths(&self, paths: &Vec<String>) -> (r: Vec<String>)
        ensures
            text::texts(r@) == owned(self.config@, text::texts(paths@)),
            forall|p: Seq<char>| #[trigger]
                text::texts(r@).contains(p) <==> text::texts(paths@).contains(p) && (exists|i: int|
                    0 <= i < self.config@.owned_globs.len() && outside::glob_matches(
                        #[trigger] self.config@.owned_globs[i],
                        p,
                    )) && (forall|j: int|
                    0 <= j < self.config@.unowned_globs.len() ==> !outside::glob_matches(
                        #[trigger] self.config@.unowned_globs[j],
                        p,
                    )),
    {
        proof {
            assert forall|p: Seq<char>| #[trigger]
                owned(self.config@, text::texts(paths@)).contains(p) <==> text::texts(paths@).contains(p) && (exists|i: int|
                    0 <= i < self.config@.owned_globs.len() && outside::glob_matches(
                        #[trigger] self.config@.owned_globs[i],
                        p,
                    )) && (forall|j: int|
                    0 <= j < self.config@.unowned_globs.len() ==> !outside::glob_matches(
                        #[trigger] self.config@.unowned_globs[j],
                        p,
                    )) by {
                law_which_paths_need_an_owner(self.config@, text::texts(paths@), p);
            }
        }
        let ghost all = text::texts(paths@);
        let ghost needed = |p: Seq<char>| needs_owner(self.config@, p);
        let mut r: Vec<String> = Vec::new();
        assert(all.take(0).filter(needed) =~= Seq::empty()) by {
            reveal(Seq::filter);
        }
        assert(text::texts(r@) =~= Seq::empty());
        for i in 0..paths.len()
            invariant
                all == text::texts(paths@),
                needed == (|p: Seq<char>| needs_owner(self.config@, p)),
                text::texts(r@) == all.take(i as int).filter(needed),
        {
            let ghost before = r@;
            proof {
                reveal(Seq::filter);
                assert(all.take(i + 1).drop_last() =~= all.take(i as int));
                assert(all.take(i + 1).last() == paths@[i as int]@);
            }
            let path = paths[i].as_str();
            if matches_globs(path, &self.config.owned_globs) && !matches_globs(path, &self.config.unowned_globs) {
                r.push(paths[i].clone());
                assert(text::texts(r@) =~= text::texts(before).push(path@));
            }
        }
        assert(all.take(paths@.len() as int) =~= all);
        r
    }

    /// Makes a run. `loaded` is the configuration of the project, or why it could not be
    /// loaded, and `environment` the value of the variable `CODEOWNERS_PATH`, if it is set.
    ///
    /// `create_cache` opens the cache, `build` reads the project with the help of the cache
    /// and adds to it, and `persist` keeps what the cache has learned. The first of them that
    /// fails decides the error, and none is called before its turn: no cache is opened for a
    /// run that is to do without, and nothing is kept but what `build` learned.
    pub fn new<C, B, P>(
        run_config: &RunConfig,
        loaded: Result<Config, String>,
        environment: Option<&str>,
        create_cache: C,
        build: B,
        persist: P,
    ) -> (r: Result<Runner, Error>) where
        C: FnOnce(&RunConfig, &Config) -> Result<Cache, String>,
        B: FnOnce(&RunConfig, &Config, &String, Cache) -> Result<(Ownership, Cache), String>,
        P: FnOnce(&Cache) -> Result<(), String>,

        requires
            loaded matches Ok(given) ==> forall|config: &Config|
                !run_config@.no_cache && config@ == configured(run_config@, given@) ==> #[trigger] call_requires(
                    create_cache,
                    (run_config, config),
                ),
            loaded matches Ok(given) ==> forall|config: &Config, path: &String, cache: Cache|
                config@ == configured(run_config@, given@) && path@ == codeowners_path(
                    run_config@,
                    given@,
                    match environment {
                        Some(value) => Some(value@),
                        None => None,
                    },
                ) && is_opened(run_config, *config, create_cache, Ok(cache)) ==> #[trigger] call_requires(
                    build,
                    (run_config, config, path, cache),
                ),
            forall|config: &Config, path: &String, cache: Cache, ownership: Ownership, learned: Cache| #[trigger]
                call_ensures(build, (run_config, config, path, cache), Ok((ownership, learned))) ==> call_requires(
                    persist,
                    (&learned,),
                ),
        ensures
            match loaded {
                Err(message) => r is Err && r->Err_0@ == ErrorValue::Io(message@),
                Ok(given) => exists|config: Config, path: String| #[trigger]
                    is_set_up(run_config, config, path, r, create_cache, build, persist) && config@ == configured(
                        run_config@,
                        given@,
                    ) && path@ == codeowners_path(
                        run_config@,
                        given@,
                        match environment {
                            Some(value) => Some(value@),
                            None => None,
                        },
                    ),
            },
    {
        let config: Config = match config_from_run_config(run_config, loaded) {
            Ok(config) => config,
            Err(e) => {
                return Err(e);
            },
        };
        let path = resolve_codeowners_file_path(run_config, &config, environment);
        let opened = open_cache(run_config, &config, create_cache);
        let cache: Cache = match opened {
            Ok(cache) => cache,
            Err(e) => {
                let r: Result<Runner, Error> = Err(e);
                assert(is_opened(run_config, config, create_cache, Err(e)));
                assert(is_set_up(run_config, config, path, r, create_cache, build, persist));
                return r;
            },
        };
        assert(is_opened(run_config, config, create_cache, Ok(cache)));
        let built = build(run_config, &config, &path, cache);
        assert(call_ensures(build, (run_config, &config, &path, cache), built));
        let (ownership, learned): (Ownership, Cache) = match built {
            Ok(parts) => parts,
            Err(_) => {
                let r: Result<Runner, Error> = Err(context("Can't build project: ", run_config));
                assert(is_set_up(run_config, config, path, r, create_cache, build, persist));
                return r;
            },
        };
        let kept = persist(&learned);
        assert(call_ensures(persist, (&learned,), kept));
        if let Err(_) = kept {
            let r: Result<Runner, Error> = Err(context("Can't persist cache: ", run_config));
            assert(is_set_up(run_config, config, path, r, create_cache, build, persist));
            return r;
        }
        let ghost parts = (config, path);
        let r: Result<Runner, Error> = Ok(
            Runner { run_config: run_config.clone(), ownership, cache: learned, config, codeowners_file_path: path },
        );
        assert(is_set_up(run_config, parts.0, parts.1, r, create_cache, build, persist));
        r
    }

    /// Writes the CODEOWNERS file and, if `git_stage` says so, stages it. `write` puts the
    /// contents into the file and gives a token of it, without which nothing is staged, and
    /// `stage` stages the file.
    fn write_and_stage<K, W, S>(&self, git_stage: bool, write: W, stage: S) -> (r: Result<K, String>) where
        W: FnOnce(&String, &String) -> Result<K, String>,
        S: FnOnce(&String, &K),

        requires
            call_requires(write, (&self.codeowners_file_path, &self.ownership.generated_file)),
            forall|token: &K| git_stage ==> #[trigger] call_requires(stage, (&self.codeowners_file_path, token)),
        ensures
            call_ensures(write, (&self.codeowners_file_path, &self.ownership.generated_file), r),
            r matches Ok(token) ==> git_stage ==> call_ensures(stage, (&self.codeowners_file_path, &token), ()),
    {
        let written = write(&self.codeowners_file_path, &self.ownership.generated_file);
        let staged = is_staged(git_stage, written.is_ok());
        match written {
            Ok(token) => {
                if staged {
                    stage(&self.codeowners_file_path, &token);
                }
                Ok(token)
            },
            Err(e) => Err(e),
        }
    }

    /// Writes the CODEOWNERS file and, if `git_stage` says so, stages it. `write` puts the
    /// contents into the file and gives a token of it, which `stage`, which stages the file,
    /// asks for.
    pub fn generate<K, W, S>(&self, git_stage: bool, write: W, stage: S) -> (r: RunResult) where
        W: FnOnce(&String, &String) -> Result<K, String>,
        S: FnOnce(&String, &K),

        requires
            call_requires(write, (&self.codeowners_file_path, &self.ownership.generated_file)),
            forall|token: &K| git_stage ==> #[trigger] call_requires(stage, (&self.codeowners_file_path, token)),
        ensures
            exists|written: Result<K, String>| #[trigger]
                call_ensures(write, (&self.codeowners_file_path, &self.ownership.generated_file), written)
                    && match written {
                    Ok(token) => {
                        &&& r@ == result::nothing()
                        &&& git_stage ==> call_ensures(stage, (&self.codeowners_file_path, &token), ())
                    },
                    Err(e) => r@ == result::failure(e@),
                },
    {
        match self.write_and_stage(git_stage, write, stage) {
            Ok(_) => RunResult::default(),
            Err(e) => RunResult::from_failure(e),
        }
    }

    /// Writes the CODEOWNERS file as [`Runner::generate`] does, and then judges some paths, or
    /// the whole project where none is named. `gather` tells what is on disk once the file is
    /// written, of which the token is the witness. A CODEOWNERS file that could not be written
    /// ends the run.
    pub fn generate_and_validate<K, W, S, G>(
        &self,
        file_paths: &Vec<String>,
        git_stage: bool,
        write: W,
        stage: S,
        gather: G,
    ) -> (r: RunResult) where
        W: FnOnce(&String, &String) -> Result<K, String>,
        S: FnOnce(&String, &K),
        G: FnOnce(&K) -> RunFacts,

        requires
            call_requires(write, (&self.codeowners_file_path, &self.ownership.generated_file)),
            forall|token: &K| git_stage ==> #[trigger] call_requires(stage, (&self.codeowners_file_path, token)),
            forall|token: &K| #[trigger] call_requires(gather, (token,)),
            file_paths@.len() == 0 ==> forall|token: &K, facts: RunFacts| #[trigger]
                call_ensures(gather, (token,), facts) ==> validator::comparable(
                    facts@.current_file,
                    self.ownership.generated_file@,
                ),
        ensures
            exists|written: Result<K, String>| #[trigger]
                call_ensures(write, (&self.codeowners_file_path, &self.ownership.generated_file), written)
                    && match written {
                    Ok(token) => {
                        &&& exists|facts: RunFacts| #[trigger]
                            call_ensures(gather, (&token,), facts) && r@ == self.verdict(
                                facts@,
                                text::texts(file_paths@),
                            )
                        &&& git_stage ==> call_ensures(stage, (&self.codeowners_file_path, &token), ())
                    },
                    Err(e) => r@ == result::failure(e@),
                },
    {
        match self.write_and_stage(git_stage, write, stage) {
            Ok(token) => {
                let facts = gather(&token);
                self.validate(file_paths, &facts)
            },
            Err(e) => RunResult::from_failure(e),
        }
    }

    /// Drops what was kept of the project. `delete` does it.
    pub fn delete_cache<D>(&self, delete: D) -> (r: RunResult) where D: FnOnce(&Cache) -> Result<(), String>
        requires
            call_requires(delete, (&self.cache,)),
        ensures
            exists|deleted: Result<(), String>| #[trigger]
                call_ensures(delete, (&self.cache,), deleted) && r@ == match deleted {
                    Ok(_) => result::nothing(),
                    Err(_) => result::failure("Can't delete cache: "@ + self.run_config@.config_path),
                },
    {
        let deleted = delete(&self.cache);
        assert(call_ensures(delete, (&self.cache,), deleted));
        match deleted {
            Ok(_) => RunResult::default(),
            Err(_) => RunResult::from_failure(context("Can't delete cache: ", &self.run_config).to_string()),
        }
    }

    /// Compares the owners by the CODEOWNERS file with those by the rules. `crosscheck` does
    /// it.
    pub fn crosscheck_owners<F>(&self, crosscheck: F) -> (r: RunResult) where
        F: FnOnce(&RunConfig, &Cache) -> RunResult,

        requires
            call_requires(crosscheck, (&self.run_config, &self.cache)),
        ensures
            call_ensures(crosscheck, (&self.run_config, &self.cache), r),
    {
        crosscheck(&self.run_config, &self.cache)
    }

    /// What is reported of a team. `owned_by_team` tells what a team owns, or why that is not
    /// known.
    pub fn for_team<F>(&self, team_name: &str, owned_by_team: F) -> (r: RunResult) where
        F: FnOnce(&Ownership, &str) -> Result<Vec<TeamOwnership>, String>,

        requires
            call_requires(owned_by_team, (&self.ownership, team_name)),
        ensures
            exists|found: Result<Vec<TeamOwnership>, String>| #[trigger]
                call_ensures(owned_by_team, (&self.ownership, team_name), found) && r@ == team_result(
                    team_name@,
                    found,
                ),
    {
        let found = owned_by_team(&self.ownership, team_name);
        assert(call_ensures(owned_by_team, (&self.ownership, team_name), found));
        result_for_team(team_name, found)
    }

    /// The owners of a file. `loaded` are the teams of the project, or why they could not be
    /// loaded.
    pub fn owners_for_file(
        &self,
        file_path: &str,
        loaded: Result<&LoadedTeams, String>,
        facts: &FileFacts,
    ) -> (r: Result<Vec<FileOwner>, Error>)
        ensures
            match loaded {
                Ok(teams) => r is Ok && ownership::file_owner_views(r->Ok_0@) == file_owner_resolver::file_owners(
                    self.run_config@.project_root,
                    self.config@,
                    file_path@,
                    teams@,
                    facts@,
                ),
                Err(e) => r is Err && r->Err_0@ == ErrorValue::Io(e@),
            },
    {
        match find_file_owners(self.run_config.project_root.as_str(), &self.config, file_path, loaded, facts) {
            Ok(owners) => Ok(owners),
            Err(e) => Err(Error::Io(e)),
        }
    }

    /// What is told of the owners of a file.
    pub fn for_file_derived(
        &self,
        file_path: &str,
        json: bool,
        loaded: Result<&LoadedTeams, String>,
        facts: &FileFacts,
    ) -> (r: RunResult)
        ensures
            match loaded {
                Ok(teams) => r@ == owners_result(
                    file_owner_resolver::file_owners(
                        self.run_config@.project_root,
                        self.config@,
                        file_path@,
                        teams@,
                        facts@,
                    ),
                    json,
                ),
                Err(e) => r@ == result::io_error_result(ErrorValue::Io(e@), json),
            },
    {
        match self.owners_for_file(file_path, loaded, facts) {
            Ok(owners) => result_for_owners(&owners, json),
            Err(e) => RunResult::from_io_error(Error::Io(e.to_string()), json),
        }
    }

    /// What is told of a file by the CODEOWNERS file alone. `team_for_file` looks the file up.
    pub fn for_file_codeowners_only<F>(&self, file_path: &str, json: bool, team_for_file: F) -> (r: RunResult) where
        F: FnOnce(&RunConfig, &str) -> Result<Option<Team>, String>,

        requires
            call_requires(team_for_file, (&self.run_config, file_path)),
        ensures
            exists|found: Result<Option<Team>, String>| #[trigger]
                call_ensures(team_for_file, (&self.run_config, file_path), found) && r@ == codeowners_result(
                    self.run_config@.project_root,
                    found_view(found),
                    json,
                ),
    {
        let found = team_for_file(&self.run_config, file_path);
        assert(call_ensures(team_for_file, (&self.run_config, file_path), found));
        self.result_from_codeowners(found, json)
    }

    /// What is told of a file to which the CODEOWNERS file gives this team.
    pub fn result_from_codeowners(&self, found: Result<Option<Team>, String>, json: bool) -> (r: RunResult)
        ensures
            r@ == codeowners_result(self.run_config@.project_root, found_view(found), json),
    {
        match found {
            Ok(Some(team)) => {
                let team_yml = relative_to(self.run_config.project_root.as_str(), team.path.as_str()).to_owned();
                let result = ForFileResult {
                    team_name: team.name.clone(),
                    github_team: team.github_team.clone(),
                    team_yml,
                    description: one_text("Owner inferred from codeowners file".to_owned()),
                };
                assert(result@ =~= inferred(self.run_config@.project_root, team@));
                if json {
                    RunResult::json_info(result)
                } else {
                    let mut message = "Team: ".to_owned();
                    message.append(result.team_name.as_str());
                    message.append("\nGithub Team: ");
                    message.append(result.github_team.as_str());
                    message.append("\nTeam YML: ");
                    message.append(result.team_yml.as_str());
                    message.append("\nDescription:\n- ");
                    message.append(join_texts(&result.description, "\n- ").as_str());
                    RunResult::from_information(one_text(message))
                }
            },
            Ok(None) => RunResult::from_file_owner(&FileOwner::default(), json),
            Err(e) => RunResult::from_io_error(Error::Io(e), json),
        }
    }
}

/// What is told of a file with these owners.
pub fn result_for_owners(owners: &Vec<FileOwner>, json: bool) -> (r: RunResult)
    ensures
        r@ == owners_result(ownership::file_owner_views(owners@), json),
{
    let ghost all = ownership::file_owner_views(owners@);
    if owners.len() == 0 {
        return RunResult::from_file_owner(&FileOwner::default(), json);
    }
    if owners.len() == 1 {
        return RunResult::from_file_owner(&owners[0], json);
    }
    let mut messages = one_text("Error: file is owned by multiple teams!".to_owned());
    assert(all.take(0) =~= Seq::empty());
    for i in 0..owners.len()
        invariant
            all == ownership::file_owner_views(owners@),
            text::texts(messages@) == many_owners(all.take(i as int)),
    {
        let ghost before = messages@;
        assert(all.take(i + 1).drop_last() =~= all.take(i as int));
        assert(all.take(i + 1).last() == owners@[i as int]@);
        let mut message = "\n".to_owned();
        message.append(owners[i].to_string().as_str());
        messages.push(message);
        assert(text::texts(messages@) =~= text::texts(before).push(message@));
    }
    assert(all.take(owners@.len() as int) =~= all);
    RunResult::from_validation_errors(messages, json)
}

/// What is reported of a team that owns this, or of which it is not known what it owns.
pub fn result_for_team(team_name: &str, found: Result<Vec<TeamOwnership>, String>) -> (r: RunResult)
    ensures
        r@ == team_result(team_name@, found),
{
    let list: Vec<TeamOwnership> = match found {
        Ok(list) => list,
        Err(e) => {
            return RunResult::from_failure(e);
        },
    };
    let ghost all = ownership::team_ownership_views(list@);
    let mut headline = "# Code Ownership Report for `".to_owned();
    headline.append(team_name);
    headline.append("` Team");
    let mut messages = one_text(headline);
    assert(all.take(0) =~= Seq::empty());
    for i in 0..list.len()
        invariant
            all == ownership::team_ownership_views(list@),
            text::texts(messages@) == team_report(team_name@, all.take(i as int)),
    {
        let ghost before = messages@;
        assert(all.take(i + 1).drop_last() =~= all.take(i as int));
        assert(all.take(i + 1).last() == list@[i as int]@);
        let mut heading = "\n#".to_owned();
        heading.append(list[i].heading.as_str());
        messages.push(heading);
        if list[i].globs.len() == 0 {
            messages.push("This team owns nothing in this category.".to_owned());
        } else {
            messages.push(join_texts(&list[i].globs, "\n"));
        }
        assert(text::texts(messages@) =~= text::texts(before).push(messages@[before.len() as int]@).push(
            messages@.last()@,
        ));
    }
    assert(all.take(list@.len() as int) =~= all);
    RunResult::from_information(messages)
}

} // verus!
