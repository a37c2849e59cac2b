use codeowners::order::sort_texts;
use codeowners::ownership::file_owner_finder::Owner;
use codeowners::ownership::mapper::{Mapper, OwnerMatcher, Source};
use codeowners::ownership::validator::{
    Error, Errors, Validator, codeowners_diff, is_comparable, judge_attribution, several_owners_message,
    unique_paths,
};
use codeowners::text::{has_char, split_lines};
use codeowners::project::{Package, PackageType, Project, ProjectFile, Team};

const ROOT: &str = "/proj";

/// A validator over a project without rules: every file that is in scope is reported as
/// unowned, so that the scope shows.
fn validator(files: &[&str], packages: &[(&str, &str)], teams: &[&str]) -> Validator {
    let project = Project {
        base_path: ROOT.to_string(),
        files: files
            .iter()
            .map(|path| ProjectFile { owner: None, path: format!("{ROOT}/{path}") })
            .collect(),
        packages: packages
            .iter()
            .map(|(path, owner)| Package {
                path: format!("{ROOT}/{path}"),
                package_type: PackageType::Ruby,
                owner: owner.to_string(),
            })
            .collect(),
        teams: teams.iter().map(|name| Team { name: name.to_string(), ..Default::default() }).collect(),
    };

    Validator { project, mappers: vec![], executable_name: "codeowners".to_string() }
}

fn paths(paths: &[&str]) -> Vec<String> {
    paths.iter().map(|p| p.to_string()).collect()
}

fn rule(glob: &str, team: &str, source: Source) -> OwnerMatcher {
    OwnerMatcher::Glob { glob: glob.to_string(), subtracted_globs: vec![], team_name: team.to_string(), source }
}

fn errors(result: Result<(), Errors>, message: &str) -> Errors {
    match result {
        Ok(()) => panic!("{}", message),
        Err(errors) => errors,
    }
}

#[test]
fn validate_files_reports_only_the_supplied_files() {
    let validator = validator(&["ruby/a.rb", "ruby/b.rb"], &[], &[]);

    let errors = errors(
        validator.validate_files(&paths(&["ruby/a.rb"]), &paths(&["ruby/a.rb"])),
        "unowned file should be an error",
    );
    let report = errors.to_string();

    assert!(report.contains("ruby/a.rb"), "{report}");
    assert!(!report.contains("ruby/b.rb"), "an unsupplied file leaked into scope: {report}");
}

#[test]
fn validate_files_reports_a_path_supplied_twice_once() {
    let validator = validator(&[], &[], &[]);

    let errors = errors(
        validator.validate_files(&paths(&["ruby/ghost.rb", "ruby/ghost.rb"]), &paths(&["ruby/ghost.rb", "ruby/ghost.rb"])),
        "an unwalked path should be an error",
    );

    assert_eq!(errors.0.len(), 1, "{errors:?}");
}

#[test]
fn validate_files_skips_a_package_containing_no_supplied_path() {
    let validator = validator(&["ruby/app/a.rb"], &[("ruby/packages/foo/package.yml", "NoSuchTeam")], &["Payroll"]);

    let errors = errors(
        validator.validate_files(&paths(&["ruby/app/a.rb"]), &paths(&["ruby/app/a.rb"])),
        "the unowned file is still an error",
    );
    let report = errors.to_string();

    assert!(!report.contains("NoSuchTeam"), "unrelated package leaked into scope: {report}");
}

#[test]
fn validate_files_reports_a_package_containing_a_supplied_path() {
    let validator = validator(
        &["ruby/packages/foo/app/a.rb"],
        &[("ruby/packages/foo/package.yml", "NoSuchTeam")],
        &["Payroll"],
    );

    let supplied = paths(&["ruby/packages/foo/app/a.rb"]);
    let errors = errors(validator.validate_files(&supplied, &supplied), "bad package owner is an error");
    let report = errors.to_string();

    assert!(report.contains("NoSuchTeam"), "{report}");
    assert!(report.contains("ruby/packages/foo/package.yml"), "{report}");
}

#[test]
fn validate_files_reports_a_package_whose_manifest_is_itself_supplied() {
    let validator = validator(&[], &[("ruby/packages/foo/package.yml", "NoSuchTeam")], &["Payroll"]);

    let errors = errors(
        validator.validate_files(&vec![], &paths(&["ruby/packages/foo/package.yml"])),
        "bad package owner is an error",
    );
    let report = errors.to_string();

    assert!(report.contains("NoSuchTeam"), "{report}");
    assert!(
        !report.contains("missing ownership"),
        "a manifest is not eligible to be reported unowned: {report}"
    );
}

#[test]
fn validate_files_does_not_select_a_sibling_package_by_name_prefix() {
    let validator = validator(&[], &[("ruby/packages/foo/package.yml", "NoSuchTeam")], &["Payroll"]);

    assert!(
        validator.validate_files(&vec![], &paths(&["ruby/packages/foobar/app/a.rb"])).is_ok(),
        "a sibling package sharing a name prefix was selected"
    );
}

#[test]
fn validate_files_selects_a_package_at_the_project_root() {
    let validator = validator(&[], &[("package.yml", "NoSuchTeam")], &["Payroll"]);

    let errors = errors(
        validator.validate_files(&vec![], &paths(&["ruby/app/anything.rb"])),
        "a root-level package owns every path",
    );

    assert!(errors.to_string().contains("NoSuchTeam"));
}

#[test]
fn validate_files_accepts_a_valid_package_owner() {
    let validator = validator(&[], &[("ruby/packages/foo/package.yml", "Payroll")], &["Payroll"]);

    assert!(
        validator.validate_files(&vec![], &paths(&["ruby/packages/foo/package.yml"])).is_ok(),
        "a package owned by a real team is not an error"
    );
}

#[test]
fn test_codeowners_diff_reports_added_and_removed_lines() {
    let current = "# Team A\n/app/a.rb @TeamA\n/app/old.rb @TeamA\n";
    let generated = "# Team A\n/app/a.rb @TeamA\n/app/b.rb @TeamB\n";

    let diff = codeowners_diff(current, generated);

    assert_eq!(diff, "-/app/old.rb @TeamA\n+/app/b.rb @TeamB");
}

#[test]
fn test_codeowners_diff_against_empty_file_is_all_additions() {
    let generated = "# Team A\n/app/a.rb @TeamA\n";

    let diff = codeowners_diff("", generated);

    assert_eq!(diff, "+# Team A\n+/app/a.rb @TeamA");
}

#[test]
fn test_codeowners_diff_is_empty_when_identical() {
    let file = "# Team A\n/app/a.rb @TeamA\n";

    assert_eq!(codeowners_diff(file, file), "");
}

#[test]
fn a_difference_is_told_line_by_line() {
    assert_eq!(codeowners_diff("a\nb\nc\n", "x\ny\nb\n"), "-a\n+x\n+y\n-c");
    // Blank lines and an end without a newline are lines, too.
    assert_eq!(codeowners_diff("a\n\n", "a\n"), "-");
    assert_eq!(codeowners_diff("a\nb", "a\nb\n"), "-b\n+b");
    for line in codeowners_diff("a\rb\nc", "\n\nd\r\n").split('\n') {
        assert!(line.starts_with('-') || line.starts_with('+'), "{line:?}");
    }
}

#[test]
fn lines_end_with_their_terminators() {
    assert_eq!(split_lines("a\nb\r\n\rc\r\r\nd"), vec!["a\n", "b\r\n", "\r", "c\r", "\r\n", "d"]);
    assert_eq!(split_lines("a\rb\n").concat(), "a\rb\n");
    assert!(split_lines("").is_empty());
    assert!(has_char("a{b}", '{'));
    assert!(!has_char("ab", '{'));
    assert!(is_comparable("a\n", "b\n"));
    assert_eq!(codeowners_diff("a\rb\n", "a\rc\n"), "-b\n+c", "a carriage return ends a line, too");
}

#[test]
fn a_file_is_judged_alike_alone() {
    let mut validator = validator(
        &["ruby/none.rb", "ruby/bad.rb", "packs/foo/package.yml"],
        &[("packs/foo/package.yml", "NoSuchTeam")],
        &["Payroll"],
    );
    validator.project.files[1].owner = Some("Web3".to_string());
    let naming = |result: Result<(), Errors>, path: &str| -> Vec<String> {
        let found = errors(result, "there are defects").0;
        found.iter().map(|e| format!("{e:?}")).filter(|text| text.contains(&format!("\"{path}\""))).collect()
    };
    for (path, count) in [("ruby/none.rb", 1), ("ruby/bad.rb", 2), ("packs/foo/package.yml", 2)] {
        let alone = naming(validator.validate_files(&paths(&[path]), &paths(&[path])), path);
        assert_eq!(alone, naming(validator.validate("", None), path));
        assert_eq!(alone.len(), count);
    }
}

#[test]
fn validate_files_reports_the_first_spelling_of_a_path() {
    let validator = validator(&[], &[], &[]);
    let supplied = paths(&["ruby//ghost.rb", "ruby/ghost.rb"]);
    let errors = errors(validator.validate_files(&supplied, &supplied), "an unowned file");
    assert_eq!(errors.to_string(), "\nSome files are missing ownership\n- ruby//ghost.rb\n");
}

#[test]
fn nothing_named_nothing_reported() {
    let validator = validator(&["a.rb"], &[("package.yml", "NoSuchTeam")], &[]);
    assert!(validator.validate_files(&vec![], &vec![]).is_ok());
}

#[test]
fn a_whole_report() {
    let mut validator = validator(
        &["ruby/none.rb", "ruby/two.rb", "ruby/also_none.rb", "ruby/one.rb"],
        &[("packs/foo/package.yml", "NoSuchTeam")],
        &["Payroll", "payments"],
    );
    validator.project.files[3].owner = Some("Web3".to_string());
    validator.mappers = vec![
        Mapper { owner_matchers: vec![rule("ruby/two.rb", "payments", Source::AnnotatedFile)] },
        Mapper {
            owner_matchers: vec![
                rule("ruby/{one,two}.rb", "Payroll", Source::TeamGlob("ruby/{one,two}.rb".to_string())),
                rule("ruby/two.rb", "Payroll", Source::Directory("ruby".to_string())),
            ],
        },
    ];

    let found = errors(validator.validate("new\n", Some("old\n")), "there are defects");
    assert_eq!(
        found.to_string(),
        "\nCODEOWNERS out of date. Run `codeowners` to update the CODEOWNERS file\n\
         \nCode ownership should only be defined for each file in one way. The following files have declared ownership in multiple ways\n\
         \n\
         ruby/two.rb\n \
         owner: payments\n  - Owner annotation at the top of the file\n \
         owner: Payroll\n  - Owner specified in Team YML as an owned_glob `ruby/{one,two}.rb`\n  - Owner specified in `ruby/.codeowner`\n\
         \nFound invalid team annotations\n\
         - packs/foo/package.yml is referencing an invalid team - 'NoSuchTeam'\n\
         - ruby/one.rb is referencing an invalid team - 'Web3'\n\
         \nSome files are missing ownership\n- ruby/also_none.rb\n- ruby/none.rb\n"
    );
    assert_eq!(
        found.info_messages(),
        vec!["The following changes are required (- current, + expected):\n-old\n+new"]
    );

    // Naming every file and every package finds the same, but for the stale file.
    let named = paths(&["ruby/none.rb", "ruby/two.rb", "ruby/also_none.rb", "ruby/one.rb"]);
    let supplied = paths(&["packs/foo/package.yml"]);
    let scoped = errors(validator.validate_files(&named, &supplied), "there are defects");
    let fresh = errors(validator.validate("new\n", Some("new\n")), "there are defects");
    assert_eq!(scoped.to_string(), fresh.to_string());
    assert!(scoped.info_messages().is_empty());
}

#[test]
fn a_missing_file_counts_as_an_empty_one() {
    let validator = validator(&[], &[], &[]);
    assert!(validator.validate("", None).is_ok());
    let found = errors(validator.validate("# a\n", None), "the file is stale");
    assert_eq!(found.info_messages(), vec!["The following changes are required (- current, + expected):\n+# a"]);
}

#[test]
fn a_report_does_not_depend_on_the_order_of_the_defects() {
    let unowned = |path: &str| Error::FileWithoutOwner { path: path.to_string() };
    let invalid = |path: &str| Error::InvalidTeam { name: "Web3".to_string(), path: path.to_string() };
    let one = Errors(vec![unowned("b.rb"), invalid("c.rb"), unowned("a.rb"), invalid("a.rb")]);
    let other = Errors(vec![invalid("a.rb"), unowned("a.rb"), invalid("c.rb"), unowned("b.rb")]);
    assert_eq!(one.to_string(), other.to_string());
    assert_eq!(
        one.to_string(),
        "\nFound invalid team annotations\n\
         - a.rb is referencing an invalid team - 'Web3'\n\
         - c.rb is referencing an invalid team - 'Web3'\n\
         \nSome files are missing ownership\n- a.rb\n- b.rb\n"
    );
}

#[test]
fn owners_are_named_by_name_whatever_the_case() {
    let owner = |name: &str| Owner { sources: vec![Source::TeamGem], team_name: name.to_string() };
    let error = Error::FileWithMultipleOwners {
        path: "a.rb".to_string(),
        owners: vec![owner("zeta"), owner("Beta"), owner("alpha")],
    };
    let line = "  - Owner specified in Team YML's `owned_gems`";
    assert_eq!(
        error.messages(),
        vec![format!("\na.rb\n owner: alpha\n{line}\n owner: Beta\n{line}\n owner: zeta\n{line}")]
    );
    // The names in lower case decide, whatever they are.
    let owners = vec![owner("A"), owner("B")];
    assert_eq!(
        several_owners_message("a.rb", &owners, &paths(&["2", "1"])),
        format!("\na.rb\n owner: B\n{line}\n owner: A\n{line}")
    );
}

#[test]
fn a_path_has_to_have_one_owner() {
    let owner = |name: &str| Owner { sources: vec![Source::AnnotatedFile], team_name: name.to_string() };
    let found = judge_attribution(vec![
        ("none.rb".to_string(), vec![]),
        ("one.rb".to_string(), vec![owner("A")]),
        ("two.rb".to_string(), vec![owner("A"), owner("B")]),
    ]);
    assert_eq!(found.len(), 2);
    assert!(matches!(&found[0], Error::FileWithoutOwner { path } if path == "none.rb"));
    assert!(matches!(&found[1], Error::FileWithMultipleOwners { path, owners } if path == "two.rb" && owners.len() == 2));
    assert_eq!(unique_paths(&paths(&["a/b", "a//b", "c", "a/b"])), vec!["a/b", "c"]);
}

#[test]
fn headlines() {
    let stale = Error::CodeownershipFileIsStale { executable_name: "bin/co".to_string(), diff: String::new() };
    assert_eq!(stale.category(), "CODEOWNERS out of date. Run `bin/co` to update the CODEOWNERS file");
    assert!(stale.messages().is_empty());
    assert!(Errors(vec![stale]).info_messages().is_empty(), "an empty difference is not worth a message");
}

#[test]
fn texts_are_sorted_by_their_characters() {
    let list = ["b", "", "Ä", "a", "ab", "B", "a"].map(|s| s.to_string()).to_vec();
    assert_eq!(sort_texts(&list), vec!["", "B", "a", "a", "ab", "b", "Ä"]);
}
