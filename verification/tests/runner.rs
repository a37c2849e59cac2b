use std::cell::RefCell;

use codeowners::cache::Cache;
use codeowners::config::Config;
use codeowners::ownership::codeowners_query::{relative_file_paths, teams_for_files_from_codeowners};
use codeowners::ownership::file_owner_resolver::FileFacts;
use codeowners::ownership::mapper::{Mapper, OwnerMatcher, Source};
use codeowners::ownership::team_cache::{LoadedTeams, build_teams_by_name_map};
use codeowners::ownership::validator::Validator;
use codeowners::ownership::{FileOwner, Ownership, TeamOwnership};
use codeowners::path_utils::DiskView;
use codeowners::project::{Package, PackageType, Project, ProjectFile, Team};
use codeowners::runner::{
    Error, ForFileResult, RunConfig, RunFacts, RunResult, Runner, config_from_run_config, is_staged,
    matches_globs,
    resolve_codeowners_file_path, result_for_owners, result_for_team, run, version,
};

const ROOT: &str = "/private/proj";

/// The place in the project of every spelling below.
const NORMALIZED: &str = "ruby/app/unowned.rb";

fn strings(list: &[&str]) -> Vec<String> {
    list.iter().map(|s| s.to_string()).collect()
}

fn config(owned_globs: &[&str]) -> Config {
    Config {
        owned_globs: strings(owned_globs),
        unowned_globs: strings(&["ruby/ignored/**/*"]),
        ruby_package_paths: strings(&["ruby/packages/**/*"]),
        javascript_package_paths: strings(&["frontend/**/*"]),
        team_file_glob: strings(&["config/teams/**/*.yml"]),
        vendored_gems_path: "gems".to_string(),
        cache_directory: "tmp/cache/codeowners".to_string(),
        ignore_dirs: vec![],
        executable_name: "codeowners".to_string(),
        codeowners_path: ".github".to_string(),
    }
}

fn run_config() -> RunConfig {
    RunConfig {
        project_root: ROOT.to_string(),
        codeowners_file_path: None,
        config_path: "config/code_ownership.yml".to_string(),
        no_cache: true,
        executable_name: None,
    }
}

fn team(name: &str) -> Team {
    Team { name: name.to_string(), github_team: format!("@{name}Team"), path: format!("{ROOT}/config/teams/{name}.yml"), ..Default::default() }
}

fn file(path: &str, owner: Option<&str>) -> ProjectFile {
    ProjectFile { path: format!("{ROOT}/{path}"), owner: owner.map(str::to_string) }
}

fn rule(glob: &str, team: &str, source: Source) -> OwnerMatcher {
    OwnerMatcher::Glob { glob: glob.to_string(), subtracted_globs: vec![], team_name: team.to_string(), source }
}

fn directory(dir: &str, team: &str) -> OwnerMatcher {
    rule(&format!("{dir}/**/**"), team, Source::Directory(dir.to_string()))
}

fn annotated(path: &str, team: &str) -> OwnerMatcher {
    OwnerMatcher::ExactMatches(vec![(path.to_string(), team.to_string())], Source::AnnotatedFile)
}

fn runner(files: Vec<ProjectFile>, packages: &[(&str, &str)], rules: Vec<OwnerMatcher>, owned_globs: &[&str]) -> Runner {
    let project = Project {
        base_path: ROOT.to_string(),
        files,
        packages: packages
            .iter()
            .map(|(path, owner)| Package {
                path: format!("{ROOT}/{path}"),
                package_type: PackageType::Ruby,
                owner: owner.to_string(),
            })
            .collect(),
        teams: vec![team("Payroll"), team("Payments")],
    };
    let validator = Validator {
        project,
        mappers: vec![Mapper { owner_matchers: rules }],
        executable_name: "codeowners".to_string(),
    };
    Runner {
        run_config: run_config(),
        ownership: Ownership { validator, generated_file: "# generated\n".to_string() },
        cache: Cache::Noop,
        config: config(owned_globs),
        codeowners_file_path: format!("{ROOT}/.github/CODEOWNERS"),
    }
}

fn facts(current: &str) -> RunFacts {
    RunFacts {
        current_file: Some(current.to_string()),
        canonical_root: Some(ROOT.to_string()),
        disk: DiskView { resolved: vec![], missing: vec![] },
    }
}

fn fresh() -> RunFacts {
    facts("# generated\n")
}

/// A sound project, but for one file that nobody owns.
fn with_an_unowned_file() -> Runner {
    runner(
        vec![file("ruby/app/models/payroll.rb", Some("Payroll")), file(NORMALIZED, None)],
        &[],
        vec![annotated("ruby/app/models/payroll.rb", "Payroll")],
        &["{gems,ruby}/**/*.rb"],
    )
}

/// A project with a defect of each kind.
fn invalid_project() -> Runner {
    runner(
        vec![
            file("ruby/app/services/multi_owned.rb", Some("Payments")),
            file("gems/payroll_calculator/calculator.rb", Some("Payments")),
            file("ruby/app/models/blockchain.rb", Some("Web3")),
            file("ruby/app/models/bank_account.rb", Some("Payments")),
            file("ruby/packages/payroll_flow/app/thing.rb", None),
        ],
        &[("ruby/packages/payroll_flow/package.yml", "NoSuchTeam")],
        vec![
            annotated("ruby/app/services/multi_owned.rb", "Payments"),
            annotated("gems/payroll_calculator/calculator.rb", "Payments"),
            annotated("ruby/app/models/bank_account.rb", "Payments"),
            directory("ruby/app/services", "Payroll"),
            rule("gems/payroll_calculator/**/**", "Payroll", Source::TeamGem),
        ],
        &["**/*.{rb,tsx}"],
    )
}

fn assert_normalizes(spelling: &str, facts: &RunFacts) {
    let result = with_an_unowned_file().validate(&strings(&[spelling]), facts);
    assert_eq!(
        result,
        RunResult {
            validation_errors: vec![format!("\nSome files are missing ownership\n- {NORMALIZED}\n")],
            io_errors: vec![],
            info_messages: vec![],
        },
        "`{}` is not judged by its place in the project",
        spelling
    );
}

/// Regenerates a CODEOWNERS file that is stale and judges by what is on disk afterwards.
fn gv(runner: &Runner, file_paths: &[&str]) -> RunResult {
    let on_disk = RefCell::new("# old\n".to_string());
    runner.generate_and_validate(
        &strings(file_paths),
        false,
        |_, content| {
            *on_disk.borrow_mut() = content.clone();
            Ok(())
        },
        |_, ()| (),
        |()| facts(&on_disk.borrow()),
    )
}

fn report(result: &RunResult) -> String {
    result.validation_errors.join("\n")
}

#[test]
fn test_version() {
    assert_eq!(version(), "0.1.0".to_string());
}

#[test]
fn test_json_info() {
    let result = ForFileResult {
        team_name: "team1".to_string(),
        github_team: "team1".to_string(),
        team_yml: "config/teams/team1.yml".to_string(),
        description: vec!["file annotation".to_string()],
    };
    let result = RunResult::json_info(result);
    assert_eq!(result.info_messages.len(), 1);
    assert_eq!(
        result.info_messages[0],
        "{\n  \"team_name\": \"team1\",\n  \"github_team\": \"team1\",\n  \"team_yml\": \"config/teams/team1.yml\",\n  \"description\": [\n    \"file annotation\"\n  ]\n}"
    );
}

#[test]
fn test_json_io_error() {
    let result = RunResult::json_io_error(Error::Io("unable to find file".to_string()));
    assert_eq!(result.io_errors.len(), 1);
    assert_eq!(result.io_errors[0], "{\"error\":\"unable to find file\"}");
}

#[test]
fn test_json_validation_error() {
    let result = RunResult::json_validation_error(vec!["file has multiple owners".to_string()]);
    assert_eq!(result.validation_errors.len(), 1);
    assert_eq!(
        result.validation_errors[0],
        "{\n  \"validation_errors\": [\n    \"file has multiple owners\"\n  ]\n}"
    );
}

#[test]
fn failures_in_words_and_in_json() {
    assert_eq!(RunResult::json_io_error(Error::ValidationFailed).io_errors, vec!["{\"error\":\"Error::ValidationFailed\"}"]);
    assert_eq!(RunResult::from_io_error(Error::ValidationFailed, false).io_errors, vec!["Error::ValidationFailed"]);
    assert_eq!(RunResult::from_io_error(Error::Io("a \"b\"".to_string()), true).io_errors, vec!["{\"error\":\"a \\\"b\\\"\"}"]);
    assert_eq!(RunResult::from_io_error(Error::Io("a \"b\"".to_string()), false).io_errors, vec!["a \"b\""]);
    assert_eq!(RunResult::from_validation_errors(strings(&["x", "y"]), false).validation_errors, vec!["x", "y"]);
}

#[test]
fn json_that_cannot_be_written_is_still_json() {
    let failed = || Err::<String, String>("a \"bad\" value".to_string());
    let fallback = RunResult::json_info_written(failed());
    assert_eq!(fallback.io_errors, vec!["{\"error\": \"a \\\"bad\\\" value\"}"]);
    assert!(fallback.info_messages.is_empty());
    let expected = "{\"error\": \"JSON serialization failed: a \\\"bad\\\" value\"}";
    assert_eq!(RunResult::json_io_error_written(failed()).io_errors, vec![expected]);
    assert_eq!(RunResult::json_validation_error_written(failed()).io_errors, vec![expected]);
    assert_eq!(RunResult::json_validation_error_written(Ok("[]".to_string())).validation_errors, vec!["[]"]);
}

#[test]
fn only_errors_are_errors() {
    assert!(!RunResult::default().has_errors());
    assert!(!RunResult { info_messages: strings(&["x"]), ..Default::default() }.has_errors());
    assert!(RunResult { io_errors: strings(&["x"]), ..Default::default() }.has_errors());
    assert!(RunResult { validation_errors: strings(&["x"]), ..Default::default() }.has_errors());
}

#[test]
fn test_plain_relative_path() {
    assert_normalizes(NORMALIZED, &fresh());
}

#[test]
fn test_dot_slash_prefixed_path() {
    assert_normalizes(&format!("./{NORMALIZED}"), &fresh());
}

#[test]
fn test_path_with_an_interior_parent_dir() {
    assert_normalizes("ruby/app/models/../unowned.rb", &fresh());
}

#[test]
fn test_absolute_path_agreeing_with_the_root() {
    assert_normalizes(&format!("{ROOT}/{NORMALIZED}"), &fresh());
}

#[test]
fn test_absolute_path_when_only_the_root_is_resolved() {
    let mut facts = fresh();
    facts.disk.resolved = vec![("/proj/ruby/app".to_string(), "/private/proj/ruby/app".to_string())];
    assert_normalizes(&format!("/proj/{NORMALIZED}"), &facts);
}

#[test]
fn test_absolute_path_when_only_the_path_is_resolved() {
    // Whether the root is given in full or relative to the working directory.
    for root in ["/proj", "proj"] {
        let mut runner = with_an_unowned_file();
        runner.run_config.project_root = root.to_string();
        let mut facts = fresh();
        facts.disk.resolved = vec![("/private/proj/ruby/app".to_string(), "/private/proj/ruby/app".to_string())];
        let resolved = runner.validate(&vec![format!("/private/proj/{NORMALIZED}")], &facts);
        assert_eq!(resolved, runner.validate(&strings(&[NORMALIZED]), &facts));
    }
    let mut runner = with_an_unowned_file();
    runner.run_config.project_root = "/proj".to_string();
    let mut facts = fresh();
    facts.disk.resolved = vec![("/private/proj/ruby/app".to_string(), "/private/proj/ruby/app".to_string())];
    let result = runner.validate(&vec![format!("/private/proj/{NORMALIZED}")], &facts);
    assert!(
        result.validation_errors.iter().any(|error| error.contains(NORMALIZED)),
        "an unowned file was silently skipped: {:?}",
        result.validation_errors,
    );
}

#[test]
fn test_owned_file_passes_with_a_dot_slash_prefix() {
    let result = with_an_unowned_file().validate(&strings(&["./ruby/app/models/payroll.rb"]), &fresh());
    assert_eq!(result, RunResult::default());
}

#[test]
fn test_owned_file_passes_with_an_interior_parent_dir() {
    let result = with_an_unowned_file().validate(&strings(&["ruby/app/payments/../models/payroll.rb"]), &fresh());
    assert_eq!(result, RunResult::default());
}

#[test]
fn test_absolute_path_to_a_symlink_names_the_symlink_not_its_target() {
    // Only the directory of a path is resolved, so the name of the link stays.
    let mut facts = fresh();
    facts.disk.resolved = vec![("/proj/ruby/app".to_string(), "/private/proj/ruby/app".to_string())];
    let result = with_an_unowned_file().validate(&strings(&["/proj/ruby/app/link_to_unowned.rb"]), &facts);
    assert!(report(&result).contains("ruby/app/link_to_unowned.rb"), "{}", report(&result));
}

#[test]
fn test_owned_file_is_not_spuriously_reported_under_star_star_globs() {
    let mut runner = with_an_unowned_file();
    runner.config = config(&["**/*.rb"]);
    assert_eq!(gv(&runner, &["./ruby/app/models/payroll.rb"]), RunResult::default());
}

#[test]
fn test_deleted_path_is_skipped() {
    let mut gone = fresh();
    gone.disk.missing = vec![format!("{ROOT}/{NORMALIZED}")];
    let runner = with_an_unowned_file();
    assert_eq!(runner.validate(&strings(&[NORMALIZED]), &gone), RunResult::default());
    // A file of which it is not known whether it exists is judged.
    assert!(runner.validate(&strings(&[NORMALIZED]), &fresh()).has_errors());
}

#[test]
fn test_path_outside_the_project_is_skipped_not_panicked_on() {
    let result = with_an_unowned_file().validate(&strings(&["../outside/the_project.rb"]), &fresh());
    assert_eq!(result, RunResult::default());
}

#[test]
fn test_gv_with_paths_detects_dual_ownership_via_codeowner_file() {
    let found = report(&gv(&invalid_project(), &["ruby/app/services/multi_owned.rb"]));
    assert!(found.contains("multi_owned.rb") && found.contains("one way"), "{found}");
}

#[test]
fn test_gv_with_paths_detects_dual_ownership_via_owned_gems() {
    let found = report(&gv(&invalid_project(), &["gems/payroll_calculator/calculator.rb"]));
    assert!(found.contains("calculator.rb") && found.contains("one way"), "{found}");
}

#[test]
fn test_gv_with_paths_names_the_invalid_team() {
    let found = report(&gv(&invalid_project(), &["ruby/app/models/blockchain.rb"]));
    assert!(found.contains("Web3"), "{found}");
}

#[test]
fn test_gv_with_every_path_matches_gv_with_no_paths() {
    let runner = invalid_project();
    let no_paths = gv(&runner, &[]);
    let all_paths = gv(
        &runner,
        &[
            "ruby/app/services/multi_owned.rb",
            "gems/payroll_calculator/calculator.rb",
            "ruby/app/models/blockchain.rb",
            "ruby/app/models/bank_account.rb",
            "ruby/packages/payroll_flow/app/thing.rb",
        ],
    );
    for defect in ["one way", "Web3"] {
        assert!(report(&no_paths).contains(defect));
        assert!(report(&all_paths).contains(defect));
    }
    assert_eq!(no_paths, all_paths);
}

#[test]
fn test_validate_with_paths_ignores_an_unrelated_invalid_package() {
    let result = invalid_project().validate(&strings(&["ruby/app/models/bank_account.rb"]), &fresh());
    assert_eq!(result, RunResult::default());
}

#[test]
fn test_validate_with_paths_reports_an_invalid_package_containing_a_supplied_path() {
    let result = invalid_project().validate(&strings(&["ruby/packages/payroll_flow/app/thing.rb"]), &fresh());
    let found = report(&result);
    assert!(found.contains("package.yml") && found.contains("NoSuchTeam"), "{found}");
}

#[test]
fn test_validate_with_paths_reports_a_supplied_package_manifest() {
    let result = invalid_project().validate(&strings(&["ruby/packages/payroll_flow/package.yml"]), &fresh());
    let found = report(&result);
    assert!(found.contains("package.yml") && found.contains("NoSuchTeam"), "{found}");
    assert!(!found.contains("missing ownership"), "{found}");
}

#[test]
fn test_validate_with_no_paths_still_reports_every_invalid_package() {
    let found = report(&invalid_project().validate(&vec![], &fresh()));
    assert!(found.contains("package.yml") && found.contains("NoSuchTeam"), "{found}");
}

#[test]
fn test_validate_attributes_an_untracked_file_through_the_mappers() {
    let result = invalid_project().validate(&strings(&["ruby/app/services/brand_new.rb"]), &fresh());
    assert_eq!(result, RunResult::default());
}

#[test]
fn test_validate_still_reports_an_untracked_file_with_no_owner() {
    let found = report(&invalid_project().validate(&strings(&["ruby/app/orphan_new.rb"]), &fresh()));
    assert!(found.contains("orphan_new.rb") && found.contains("missing ownership"), "{found}");
}

#[test]
fn test_validate_accepts_generated_order() {
    // Alpha owns a directory but for one file, which Beta owns by its annotation.
    let mut rules = vec![annotated("ruby/app/services/beta_owned.rb", "Beta")];
    rules.push(OwnerMatcher::Glob {
        glob: "ruby/app/**/*".to_string(),
        subtracted_globs: strings(&["ruby/app/services/beta_owned.rb"]),
        team_name: "Alpha".to_string(),
        source: Source::TeamGlob("ruby/app/**/*".to_string()),
    });
    let mut runner = runner(
        vec![file("ruby/app/services/beta_owned.rb", Some("Beta")), file("ruby/app/services/alpha.rb", None)],
        &[],
        rules,
        &["**/*.rb"],
    );
    runner.ownership.validator.project.teams = vec![team("Alpha"), team("Beta")];
    assert_eq!(runner.validate(&vec![], &fresh()), RunResult::default());
}

#[test]
fn test_for_file_from_generated_codeowners_returns_annotated_owner() {
    let runner = with_an_unowned_file();
    let result = runner.for_file_codeowners_only("ruby/app/services/beta_owned.rb", false, |config, path| {
        assert_eq!(config.project_root, ROOT);
        assert_eq!(path, "ruby/app/services/beta_owned.rb");
        Ok(Some(team("Beta")))
    });
    assert!(result.info_messages[0].contains("Team: Beta"));
    assert_eq!(
        result.info_messages,
        vec![
            "Team: Beta\nGithub Team: @BetaTeam\nTeam YML: config/teams/Beta.yml\nDescription:\n- Owner inferred from codeowners file"
        ]
    );
}

#[test]
fn what_the_codeowners_file_tells() {
    let runner = with_an_unowned_file();
    assert_eq!(
        runner.result_from_codeowners(Ok(Some(team("Beta"))), true).info_messages,
        vec![
            "{\n  \"team_name\": \"Beta\",\n  \"github_team\": \"@BetaTeam\",\n  \"team_yml\": \"config/teams/Beta.yml\",\n  \"description\": [\n    \"Owner inferred from codeowners file\"\n  ]\n}"
        ]
    );
    assert_eq!(
        runner.result_from_codeowners(Ok(None), false).info_messages,
        vec!["Team: Unowned\nGithub Team: Unowned\nTeam YML: \nDescription: Unowned"]
    );
    assert_eq!(runner.result_from_codeowners(Err("bad".to_string()), false).io_errors, vec!["bad"]);
    assert_eq!(runner.result_from_codeowners(Err("bad".to_string()), true).io_errors, vec!["{\"error\":\"bad\"}"]);
}

#[test]
fn a_stale_file_is_told_beside_the_report() {
    let mut sound = with_an_unowned_file();
    sound.ownership.validator.project.files.pop();
    let result = sound.validate(&vec![], &facts("# old\n"));
    assert_eq!(
        result.validation_errors,
        vec!["\nCODEOWNERS out of date. Run `codeowners` to update the CODEOWNERS file\n"]
    );
    assert_eq!(
        result.info_messages,
        vec!["The following changes are required (- current, + expected):\n-# old\n+# generated"]
    );
    // A judgement of some paths does not ask.
    assert_eq!(sound.validate(&strings(&["ruby/app/models/payroll.rb"]), &facts("# old\n")), RunResult::default());
}

#[test]
fn files_that_need_no_owner_are_not_reported() {
    let runner = with_an_unowned_file();
    for path in ["README.md", "ruby/ignored/a.rb"] {
        assert_eq!(runner.validate(&strings(&[path]), &fresh()), RunResult::default());
    }
    assert!(matches_globs("ruby/a.rb", &runner.config.owned_globs));
    assert!(!matches_globs("README.md", &runner.config.owned_globs));
}

#[test]
fn the_order_of_paths_does_not_matter() {
    let runner = invalid_project();
    let paths = [
        "ruby/app/services/multi_owned.rb",
        "./ruby/app/orphan_new.rb",
        "ruby/app/models/blockchain.rb",
        "ruby/app/orphan_new.rb",
        "ruby/packages/payroll_flow/package.yml",
    ];
    let mut reversed = paths;
    reversed.reverse();
    let result = runner.validate(&strings(&paths), &fresh());
    assert_eq!(result, runner.validate(&strings(&reversed), &fresh()));
    assert_eq!(report(&result).matches("orphan_new.rb").count(), 1);
    assert_eq!(
        runner.supplied_paths(&strings(&paths), &fresh())[1],
        "ruby/app/orphan_new.rb",
        "a path is judged by its place in the project"
    );
    assert_eq!(runner.owned_paths(&strings(&["a.rb", "a.md", "ruby/ignored/a.rb"])), vec!["a.rb"]);
}

#[test]
fn skipped_paths_change_nothing() {
    let runner = invalid_project();
    let with = strings(&["../outside.rb", "ruby/app/orphan_new.rb", "/elsewhere/a.rb"]);
    assert_eq!(runner.validate(&with, &fresh()), runner.validate(&strings(&["ruby/app/orphan_new.rb"]), &fresh()));
}

#[test]
fn generating_writes_the_file_and_stages_it_if_told() {
    let runner = with_an_unowned_file();
    let mut written = vec![];
    let mut staged = vec![];
    let result = runner.generate(
        true,
        |path, content| {
            written.push((path.clone(), content.clone()));
            Ok(())
        },
        |path, ()| staged.push(path.clone()),
    );
    assert_eq!(result, RunResult::default());
    assert_eq!(written, vec![(format!("{ROOT}/.github/CODEOWNERS"), "# generated\n".to_string())]);
    assert_eq!(staged, vec![format!("{ROOT}/.github/CODEOWNERS")]);

    let result = runner.generate(false, |_, _| Ok(()), |_, ()| panic!("nothing is to be staged"));
    assert_eq!(result, RunResult::default());
    let result = runner.generate(true, |_, _| Err("disk full".to_string()), |_, ()| panic!("nothing was written"));
    assert_eq!(result.io_errors, vec!["disk full"]);
}

#[test]
fn a_file_that_cannot_be_written_ends_the_run() {
    let runner = with_an_unowned_file();
    let result = runner.generate_and_validate(
        &vec![],
        false,
        |_, _| Err("disk full".to_string()),
        |_, ()| (),
        |()| panic!("nothing is judged"),
    );
    assert_eq!(result, RunResult { io_errors: strings(&["disk full"]), ..Default::default() });
}

#[test]
fn a_regenerated_file_is_not_out_of_date() {
    let mut sound = with_an_unowned_file();
    sound.ownership.validator.project.files.pop();
    assert!(sound.validate(&vec![], &facts("# old\n")).has_errors(), "the file is stale");
    assert_eq!(gv(&sound, &[]), RunResult::default(), "and put right before it is judged");
    assert!(is_staged(true, true));
    assert!(!is_staged(true, false));
    assert!(!is_staged(false, true));
}

#[test]
fn deleting_the_cache() {
    let runner = with_an_unowned_file();
    assert_eq!(runner.delete_cache(|_| Ok(())), RunResult::default());
    assert_eq!(
        runner.delete_cache(|_| Err("denied".to_string())).io_errors,
        vec!["Can't delete cache: config/code_ownership.yml"]
    );
    let checked = runner.crosscheck_owners(|config, _| RunResult {
        info_messages: vec![config.project_root.clone()],
        ..Default::default()
    });
    assert_eq!(checked.info_messages, vec![ROOT]);
}

#[test]
fn a_report_for_a_team() {
    let owned = vec![
        TeamOwnership { heading: "Annotations".to_string(), globs: strings(&["a.rb", "b.rb"]) },
        TeamOwnership { heading: "Gems".to_string(), globs: vec![] },
    ];
    assert_eq!(
        result_for_team("Payroll", Ok(owned)).info_messages,
        vec![
            "# Code Ownership Report for `Payroll` Team",
            "\n#Annotations",
            "a.rb\nb.rb",
            "\n#Gems",
            "This team owns nothing in this category.",
        ]
    );
    let result = with_an_unowned_file().for_team("Web3", |_, name| Err(format!("no team {name}")));
    assert_eq!(result, RunResult { io_errors: strings(&["no team Web3"]), ..Default::default() });
}

fn build_empty(_: &RunConfig, _: &Config, _: &String, cache: Cache) -> Result<(Ownership, Cache), String> {
    Ok((with_an_unowned_file().ownership, cache))
}

fn made(loaded: Result<Config, String>, no_cache: bool, fail: &str) -> Result<Runner, Error> {
    let run_config = RunConfig { no_cache, executable_name: Some("bin/co".to_string()), ..run_config() };
    let outcome = |step: &str| if step == fail { Err("failed".to_string()) } else { Ok(()) };
    Runner::new(
        &run_config,
        loaded,
        None,
        |_, config| {
            assert_eq!(config.cache_directory, "tmp/cache/codeowners");
            outcome("create").map(|()| Cache::Global(vec![]))
        },
        |run_config, config, path, cache| {
            assert_eq!(path, "/private/proj/.github/CODEOWNERS");
            outcome("build").and_then(|()| build_empty(run_config, config, path, cache))
        },
        |_| outcome("persist"),
    )
}

#[test]
fn making_a_run() {
    let runner = made(Ok(config(&[])), false, "").ok().unwrap();
    assert_eq!(runner.config.executable_name, "bin/co");
    assert_eq!(runner.codeowners_file_path, "/private/proj/.github/CODEOWNERS");
    assert!(matches!(runner.cache, Cache::Global(_)));
    assert!(matches!(made(Ok(config(&[])), true, "create").ok().unwrap().cache, Cache::Noop));
}

#[test]
fn the_first_failure_decides() {
    let error = |loaded: Result<Config, String>, fail: &str| made(loaded, false, fail).err().unwrap();
    assert_eq!(error(Err("no config".to_string()), "create"), Error::Io("no config".to_string()));
    let said = |what: &str| Error::Io(format!("{what}: config/code_ownership.yml"));
    assert_eq!(error(Ok(config(&[])), "create"), said("Can't create cache"));
    assert_eq!(error(Ok(config(&[])), "build"), said("Can't build project"));
    assert_eq!(error(Ok(config(&[])), "persist"), said("Can't persist cache"));
}

#[test]
fn running() {
    let result = run(Err("no runner".to_string()), |_| panic!("there is nothing to run"));
    assert_eq!(result, RunResult { io_errors: strings(&["no runner"]), ..Default::default() });
    let result = run(Ok(with_an_unowned_file()), |runner| runner.validate(&vec![], &fresh()));
    assert!(result.has_errors());
}

#[test]
fn the_name_of_the_executable() {
    let given = RunConfig { executable_name: Some("bin/co".to_string()), ..run_config() };
    assert_eq!(config_from_run_config(&given, Ok(config(&[]))).ok().unwrap().executable_name, "bin/co");
    assert_eq!(config_from_run_config(&run_config(), Ok(config(&[]))).ok().unwrap().executable_name, "codeowners");
    assert_eq!(config_from_run_config(&given, Err("no".to_string())).err().unwrap(), Error::Io("no".to_string()));
}

#[test]
fn where_the_codeowners_file_lies() {
    let config = config(&[]);
    let told = RunConfig { codeowners_file_path: Some("/x/CODEOWNERS".to_string()), ..run_config() };
    assert_eq!(resolve_codeowners_file_path(&told, &config, Some("docs/CODEOWNERS")), "/x/CODEOWNERS");
    assert_eq!(
        resolve_codeowners_file_path(&run_config(), &config, Some("docs/CODEOWNERS")),
        "/private/proj/docs/CODEOWNERS"
    );
    assert_eq!(resolve_codeowners_file_path(&run_config(), &config, Some("")), "/private/proj/.github/CODEOWNERS");
    assert_eq!(resolve_codeowners_file_path(&run_config(), &config, None), "/private/proj/.github/CODEOWNERS");
}

fn owner(name: &str, sources: Vec<Source>) -> FileOwner {
    FileOwner { team: team(name), team_config_file_path: format!("config/teams/{name}.yml"), sources }
}

#[test]
fn what_is_told_of_owners() {
    let one = vec![owner("Payroll", vec![Source::TeamYml, Source::AnnotatedFile])];
    let text = "Team: Payroll\nGithub Team: @PayrollTeam\nTeam YML: config/teams/Payroll.yml\nDescription: \n- Owner annotation at the top of the file\n- Owner specified in Team YML itself (Teams own their configuration files)";
    assert_eq!(result_for_owners(&one, false).info_messages, vec![text]);
    assert_eq!(
        result_for_owners(&one, true).info_messages,
        vec![
            "{\n  \"team_name\": \"Payroll\",\n  \"github_team\": \"@PayrollTeam\",\n  \"team_yml\": \"config/teams/Payroll.yml\",\n  \"description\": [\n    \"Owner specified in Team YML itself (Teams own their configuration files)\",\n    \"Owner annotation at the top of the file\"\n  ]\n}"
        ]
    );
    assert_eq!(
        result_for_owners(&vec![], false).info_messages,
        vec!["Team: Unowned\nGithub Team: Unowned\nTeam YML: \nDescription: Unowned"]
    );
    let two = vec![owner("Payroll", vec![Source::TeamGem]), owner("Payments", vec![])];
    let result = result_for_owners(&two, false);
    assert_eq!(result.validation_errors[0], "Error: file is owned by multiple teams!");
    assert_eq!(
        result.validation_errors[2],
        "\nTeam: Payments\nGithub Team: @PaymentsTeam\nTeam YML: config/teams/Payments.yml\nDescription: Unowned"
    );
    assert_eq!(result.validation_errors.len(), 3);
    assert!(result_for_owners(&two, true).validation_errors[0].starts_with("{\n  \"validation_errors\": ["));
}

#[test]
fn looking_up_a_file() {
    let runner = with_an_unowned_file();
    let teams = vec![Team { owned_globs: strings(&["ruby/app/**/*"]), ..team("Payroll") }];
    let teams_by_name = build_teams_by_name_map(&teams);
    let loaded = LoadedTeams { teams, teams_by_name };
    let facts = FileFacts { first_line: None, directories: vec![] };
    let result = runner.for_file_derived("ruby/app/a.rb", false, Ok(&loaded), &facts);
    assert!(result.info_messages[0].starts_with("Team: Payroll\n"));
    assert_eq!(runner.owners_for_file("frontend/a.tsx", Ok(&loaded), &facts).ok().unwrap(), vec![]);
    let error = || Err("bad glob".to_string());
    assert_eq!(runner.for_file_derived("a.rb", false, error(), &facts).io_errors, vec!["bad glob"]);
    assert_eq!(runner.for_file_derived("a.rb", true, error(), &facts).io_errors, vec!["{\"error\":\"bad glob\"}"]);
}

#[test]
fn every_path_is_looked_up_in_the_codeowners_file() {
    let disk = DiskView {
        resolved: vec![("/proj/ruby".to_string(), "/private/proj/ruby".to_string())],
        missing: vec![],
    };
    let paths = strings(&["./ruby/a.rb", "/private/proj/ruby/a.rb", "/proj/ruby/b.rb", "/elsewhere/c.rb", "../d.rb"]);
    let expected = strings(&["ruby/a.rb", "ruby/a.rb", "ruby/b.rb", "/elsewhere/c.rb", "../d.rb"]);
    assert_eq!(relative_file_paths(ROOT, Some(ROOT), &disk, &paths), expected);
    let answer = teams_for_files_from_codeowners(
        ROOT,
        Some(ROOT),
        &disk,
        ".github/CODEOWNERS",
        &strings(&["config/teams/**/*.yml"]),
        &paths,
        |parser, paths| {
            assert_eq!(parser.codeowners_file_path, ".github/CODEOWNERS");
            assert_eq!(parser.project_root, ROOT);
            assert_eq!(parser.team_file_globs, strings(&["config/teams/**/*.yml"]));
            Ok(paths)
        },
    );
    assert_eq!(answer, Ok(expected));
}
