use codeowners::ownership::file_owner_finder::{DirectoryOverrider, FileOwnerFinder, TeamClaim, group_claims, owners_from_claims};
use codeowners::ownership::mapper::{OwnerMatcher, Source};

fn glob(glob: &str, subtracted: &[&str], team: &str, source: Source) -> OwnerMatcher {
    OwnerMatcher::Glob {
        glob: glob.to_string(),
        subtracted_globs: subtracted.iter().map(|g| g.to_string()).collect(),
        team_name: team.to_string(),
        source,
    }
}

fn claim(team: &str, source: Source) -> TeamClaim {
    TeamClaim { team_name: team.to_string(), source }
}

fn directory(dir: &str) -> Source {
    Source::Directory(dir.to_string())
}

fn found(matchers: &Vec<OwnerMatcher>, path: &str) -> Vec<(String, Vec<Source>)> {
    let finder = FileOwnerFinder { owner_matchers: matchers };
    finder.find(path).into_iter().map(|owner| (owner.team_name, owner.sources)).collect()
}

#[test]
fn test_directory_overrider() {
    let mut directory_overrider = DirectoryOverrider::default();
    assert_eq!(directory_overrider.specific_directory_owner(), None);
    let team_name_1 = "team1".to_string();
    let source_1 = Source::Directory("src/**".to_string());
    directory_overrider.process(&team_name_1, &source_1);
    assert_eq!(directory_overrider.specific_directory_owner(), Some((&team_name_1, &source_1)));

    let team_name_longest = "team2".to_string();
    let source_longest = Source::Directory("source/subdir/**".to_string());
    directory_overrider.process(&team_name_longest, &source_longest);
    assert_eq!(
        directory_overrider.specific_directory_owner(),
        Some((&team_name_longest, &source_longest))
    );

    let team_name_3 = "team3".to_string();
    let source_3 = Source::Directory("source/**".to_string());
    directory_overrider.process(&team_name_3, &source_3);
    assert_eq!(
        directory_overrider.specific_directory_owner(),
        Some((&team_name_longest, &source_longest))
    );
}

#[test]
fn no_rules_no_owner() {
    assert!(found(&vec![], "ruby/a.rb").is_empty());
}

#[test]
fn a_rule_owns_what_it_matches() {
    let matchers = vec![glob("ruby/**/*.rb", &["ruby/vendor/**"], "Payroll", Source::TeamGlob("ruby/**/*.rb".to_string()))];
    assert_eq!(
        found(&matchers, "ruby/app/a.rb"),
        vec![("Payroll".to_string(), vec![Source::TeamGlob("ruby/**/*.rb".to_string())])]
    );
    assert!(found(&matchers, "ruby/vendor/a.rb").is_empty());
    assert!(found(&matchers, "frontend/a.tsx").is_empty());
}

#[test]
fn files_are_named_one_by_one() {
    let matchers = vec![OwnerMatcher::ExactMatches(
        vec![("a/b.rb".to_string(), "One".to_string()), ("a/c.rb".to_string(), "Two".to_string())],
        Source::AnnotatedFile,
    )];
    assert_eq!(found(&matchers, "a/c.rb"), vec![("Two".to_string(), vec![Source::AnnotatedFile])]);
    assert_eq!(found(&matchers, "a//b.rb"), vec![("One".to_string(), vec![Source::AnnotatedFile])]);
    assert!(found(&matchers, "a/d.rb").is_empty());
}

#[test]
fn the_most_specific_directory_wins() {
    let matchers = vec![
        glob("ruby/**/**", &[], "Outer", directory("ruby")),
        glob("ruby/app/services/**/**", &[], "Inner", directory("ruby/app/services")),
        glob("ruby/app/**/**", &[], "Middle", directory("ruby/app")),
    ];
    assert_eq!(
        found(&matchers, "ruby/app/services/a.rb"),
        vec![("Inner".to_string(), vec![directory("ruby/app/services")])]
    );
    assert_eq!(found(&matchers, "ruby/app/a.rb"), vec![("Middle".to_string(), vec![directory("ruby/app")])]);
}

#[test]
fn a_team_is_named_once_with_all_that_makes_it_an_owner() {
    let matchers = vec![
        glob("ruby/**/**", &[], "Payroll", directory("ruby")),
        glob("**/*.rb", &[], "Payroll", Source::TeamGlob("**/*.rb".to_string())),
        glob("ruby/a.rb", &[], "Payments", Source::AnnotatedFile),
    ];
    assert_eq!(
        found(&matchers, "ruby/a.rb"),
        vec![
            ("Payroll".to_string(), vec![Source::TeamGlob("**/*.rb".to_string()), directory("ruby")]),
            ("Payments".to_string(), vec![Source::AnnotatedFile]),
        ]
    );
}

#[test]
fn grouping_keeps_every_claim() {
    let claims = vec![
        claim("A", Source::TeamYml),
        claim("B", Source::AnnotatedFile),
        claim("A", directory("x")),
        claim("A", directory("x/y")),
    ];
    let grouped = group_claims(&claims);
    assert_eq!(grouped.len(), 2);
    assert_eq!(grouped[0].team_name, "A");
    assert_eq!(grouped[0].sources, vec![Source::TeamYml, directory("x"), directory("x/y")]);
    assert_eq!(grouped[1].sources, vec![Source::AnnotatedFile]);

    let effective = owners_from_claims(&claims);
    assert_eq!(effective[0].sources, vec![Source::TeamYml, directory("x/y")]);
}

#[test]
fn sources_in_words() {
    assert_eq!(directory("ruby/app").to_string(), "Owner specified in `ruby/app/.codeowner`");
    assert_eq!(Source::AnnotatedFile.to_string(), "Owner annotation at the top of the file");
    assert_eq!(Source::TeamGem.to_string(), "Owner specified in Team YML's `owned_gems`");
    assert_eq!(
        Source::TeamGlob("a/**".to_string()).to_string(),
        "Owner specified in Team YML as an owned_glob `a/**`"
    );
    assert_eq!(
        Source::Package("p/package.yml".to_string(), "p/**/**".to_string()).to_string(),
        "Owner defined in `p/package.yml` with implicity owned glob: `p/**/**`"
    );
    assert_eq!(
        Source::TeamYml.to_string(),
        "Owner specified in Team YML itself (Teams own their configuration files)"
    );
    assert_eq!(directory("a/b/c").len(), 2);
    assert_eq!(Source::TeamYml.len(), 0);
}
