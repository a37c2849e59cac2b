use std::sync::Arc;

use codeowners::config::Config;
use codeowners::ownership::file_owner_finder::TeamClaim;
use codeowners::ownership::file_owner_resolver::{
    DirectoryFacts, FileFacts, PackageStep, RubyManifest, file_owners_from_claims, find_file_owners,
    most_specific_directory_owner, nearest_package_owner, read_js_package_owner, read_top_of_file_team,
    searched_directories, source_priority, try_javascript_package, try_ruby_package, vendored_gem_owner,
};
use codeowners::ownership::mapper::Source;
use codeowners::ownership::team_cache::{
    LoadedTeams, TeamCache, TeamCacheKey, TeamLoad, TeamsByName, begin_load, build_teams_by_name_map, cache_teams,
    clear_team_cache, finish_load, load_teams, loaded_teams, team_glob, teams_cache_root,
};
use codeowners::project::{JavascriptPackage, Metadata, Team};
use codeowners::project_file_builder::read_first_line;

const ROOT: &str = "/proj";

fn strings(list: &[&str]) -> Vec<String> {
    list.iter().map(|s| s.to_string()).collect()
}

fn build_config_for_temp(frontend_glob: &str, ruby_glob: &str, vendored_path: &str) -> Config {
    Config {
        owned_globs: vec!["**/*".to_string()],
        ruby_package_paths: vec![ruby_glob.to_string()],
        javascript_package_paths: vec![frontend_glob.to_string()],
        team_file_glob: vec!["config/teams/**/*.yml".to_string()],
        unowned_globs: vec![],
        vendored_gems_path: vendored_path.to_string(),
        cache_directory: "tmp/cache/codeowners".to_string(),
        ignore_dirs: vec![],
        executable_name: "codeowners".to_string(),
        codeowners_path: ".github".to_string(),
    }
}

fn team_named(name: &str) -> Team {
    Team {
        path: "config/teams/foo.yml".to_string(),
        name: name.to_string(),
        github_team: format!("@{}Team", name),
        owned_globs: vec![],
        subtracted_globs: vec![],
        owned_gems: vec![],
        avoid_ownership: false,
    }
}

fn teams_named(names: &[&str]) -> TeamsByName {
    let mut tbn = TeamsByName::new();
    for name in names {
        let t = team_named(name);
        tbn.insert(t.name.clone(), t);
    }
    tbn
}

fn directory(path: &str) -> DirectoryFacts {
    DirectoryFacts {
        path: format!("{ROOT}/{path}"),
        codeowner: None,
        ruby_package: RubyManifest::Missing,
        javascript_package: None,
    }
}

fn codeowner(path: &str, contents: &str) -> DirectoryFacts {
    DirectoryFacts { codeowner: Some(contents.to_string()), ..directory(path) }
}

fn ruby(path: &str, manifest: RubyManifest) -> DirectoryFacts {
    DirectoryFacts { ruby_package: manifest, ..directory(path) }
}

fn ruby_owner(path: &str, owner: &str) -> DirectoryFacts {
    ruby(path, RubyManifest::Read(Some(owner.to_string())))
}

fn javascript(path: &str, owner: Option<&str>) -> DirectoryFacts {
    let package = JavascriptPackage { metadata: Some(Metadata { owner: owner.map(str::to_string) }) };
    DirectoryFacts { javascript_package: Some(Ok(package)), ..directory(path) }
}

fn nothing() -> FileFacts {
    FileFacts { first_line: None, directories: vec![] }
}

fn loaded(teams: Vec<Team>) -> LoadedTeams {
    let teams_by_name = build_teams_by_name_map(&teams);
    LoadedTeams { teams, teams_by_name }
}

fn payroll(glob: &str) -> Team {
    Team { path: format!("{ROOT}/config/teams/payroll.yml"), owned_globs: strings(&[glob]), ..team_named("Payroll") }
}

fn billing(glob: &str) -> Team {
    Team { path: format!("{ROOT}/config/teams/billing.yml"), owned_globs: strings(&[glob]), ..team_named("Billing") }
}

fn owners(teams: &LoadedTeams, file: &str, facts: &FileFacts) -> Vec<(String, Vec<Source>)> {
    let config = build_config_for_temp("frontend/**/*", "packs/**/*", "vendored");
    find_file_owners(ROOT, &config, file, Ok(teams), facts)
        .unwrap()
        .into_iter()
        .map(|owner| (owner.team.name, owner.sources))
        .collect()
}

#[test]
fn test_read_top_of_file_team_parses_at_and_colon_forms() {
    let line = read_first_line(&b"# @team Payroll\nputs 'x'\n".to_vec());
    assert_eq!(read_top_of_file_team("at_form.rb", line.as_deref()), Some("Payroll".to_string()));
    assert_eq!(read_top_of_file_team("gone.rb", None), None);
}

#[test]
fn test_most_specific_directory_owner_prefers_deeper() {
    let directories = vec![
        codeowner("a", "TopTeam"),
        codeowner("a/b", "MidTeam"),
        codeowner("a/b/c", "DeepTeam"),
    ];
    let tbn = teams_named(&["TopTeam", "MidTeam", "DeepTeam"]);

    let result = most_specific_directory_owner(ROOT, "a/b/c/file.rb", &tbn, &directories).unwrap();
    match result.source {
        Source::Directory(path) => {
            assert!(path.ends_with("a/b/c"), "expected deepest directory, got {}", path);
        }
        _ => panic!("expected Directory source"),
    }
    assert_eq!(result.team_name, "DeepTeam");
}

#[test]
fn a_directory_that_names_no_team_is_passed_over() {
    let directories = vec![codeowner("a", " TopTeam\n"), codeowner("a/b", "NoSuchTeam")];
    let tbn = teams_named(&["TopTeam"]);
    assert_eq!(
        most_specific_directory_owner(ROOT, "a/b/c/file.rb", &tbn, &directories),
        Some(TeamClaim { team_name: "TopTeam".to_string(), source: Source::Directory("a".to_string()) })
    );
    assert_eq!(most_specific_directory_owner(ROOT, "b/file.rb", &tbn, &directories), None);
}

#[test]
fn the_project_itself_can_have_an_owner() {
    let directories = vec![codeowner("", "TopTeam")];
    let tbn = teams_named(&["TopTeam"]);
    assert_eq!(
        most_specific_directory_owner(ROOT, "a/file.rb", &tbn, &directories),
        Some(TeamClaim { team_name: "TopTeam".to_string(), source: Source::Directory(String::new()) })
    );
}

#[test]
fn test_nearest_package_owner_ruby_metadata_owner() {
    let config = build_config_for_temp("frontend/**/*", "packs/**/*", "vendored");
    let directories = vec![ruby_owner("packs/payroll", "Payroll")];
    let tbn = teams_named(&["Payroll"]);

    let ruby_owner =
        nearest_package_owner(ROOT, "packs/payroll/app/models/thing.rb", &config, &tbn, &directories).unwrap();
    assert_eq!(ruby_owner.team_name, "Payroll");
    match ruby_owner.source {
        Source::Package(pkg_path, glob) => {
            assert!(pkg_path.ends_with("packs/payroll/package.yml"));
            assert_eq!(glob, "packs/payroll/**/**");
        }
        _ => panic!("expected Package source for ruby"),
    }
}

#[test]
fn test_nearest_package_owner_ruby_conflicting_owners_yields_none() {
    let config = build_config_for_temp("frontend/**/*", "packs/**/*", "vendored");
    let directories = vec![ruby("packs/payroll", RubyManifest::Rejected)];
    let tbn = teams_named(&["Payroll", "Benefits"]);

    assert!(nearest_package_owner(ROOT, "packs/payroll/app/models/thing.rb", &config, &tbn, &directories).is_none());
}

#[test]
fn test_nearest_package_owner_ruby_conflict_does_not_fall_through_to_outer_package() {
    let config = build_config_for_temp("frontend/**/*", "packs/**/*", "vendored");
    let directories = vec![ruby_owner("packs/outer", "Outer"), ruby("packs/outer/inner", RubyManifest::Rejected)];
    let tbn = teams_named(&["Outer", "InnerA", "InnerB"]);

    assert!(nearest_package_owner(ROOT, "packs/outer/inner/x.rb", &config, &tbn, &directories).is_none());
}

#[test]
fn test_nearest_package_owner_ruby_ownerless_inner_package_falls_through_to_outer() {
    let config = build_config_for_temp("frontend/**/*", "packs/**/*", "vendored");
    let directories = vec![ruby_owner("packs/outer", "Outer"), ruby("packs/outer/inner", RubyManifest::Read(None))];
    let tbn = teams_named(&["Outer"]);

    let owner = nearest_package_owner(ROOT, "packs/outer/inner/x.rb", &config, &tbn, &directories).unwrap();
    assert_eq!(owner.team_name, "Outer");
}

#[test]
fn test_nearest_package_owner_ruby_and_js() {
    let config = build_config_for_temp("frontend/**/*", "packs/**/*", "vendored");
    let directories = vec![ruby_owner("packs/payroll", "Payroll"), javascript("frontend/flow", Some("UX"))];
    let tbn = teams_named(&["Payroll", "UX"]);

    // Ruby nearest
    let ruby_owner =
        nearest_package_owner(ROOT, "packs/payroll/app/models/thing.rb", &config, &tbn, &directories).unwrap();
    assert_eq!(ruby_owner.team_name, "Payroll");
    match ruby_owner.source {
        Source::Package(pkg_path, glob) => {
            assert!(pkg_path.ends_with("packs/payroll/package.yml"));
            assert_eq!(glob, "packs/payroll/**/**");
        }
        _ => panic!("expected Package source for ruby"),
    }

    // JS nearest
    let js_owner = nearest_package_owner(ROOT, "frontend/flow/src/index.ts", &config, &tbn, &directories).unwrap();
    assert_eq!(js_owner.team_name, "UX");
    match js_owner.source {
        Source::Package(pkg_path, glob) => {
            assert!(pkg_path.ends_with("frontend/flow/package.json"));
            assert_eq!(glob, "frontend/flow/**/**");
        }
        _ => panic!("expected Package source for js"),
    }
}

#[test]
fn packages_lie_where_the_configuration_says() {
    let config = build_config_for_temp("frontend/**/*", "packs/**/*", "vendored");
    let tbn = teams_named(&["Payroll"]);
    let directories = vec![ruby_owner("lib/payroll", "Payroll"), javascript("lib/flow", Some("Payroll"))];
    assert!(nearest_package_owner(ROOT, "lib/payroll/a.rb", &config, &tbn, &directories).is_none());
    assert!(nearest_package_owner(ROOT, "lib/flow/a.ts", &config, &tbn, &directories).is_none());
}

#[test]
fn what_a_directory_tells_of_packages() {
    let tbn = teams_named(&["Payroll"]);
    let read = |owner: Option<&str>| RubyManifest::Read(owner.map(str::to_string));
    let step = |in_place: bool, manifest: RubyManifest| try_ruby_package(in_place, "packs/a", &tbn, &manifest);
    let claim = TeamClaim {
        team_name: "Payroll".to_string(),
        source: Source::Package("packs/a/package.yml".to_string(), "packs/a/**/**".to_string()),
    };
    assert!(matches!(step(true, read(Some("Payroll"))), PackageStep::Found(c) if c == claim));
    assert!(matches!(step(false, read(Some("Payroll"))), PackageStep::Next));
    assert!(matches!(step(true, read(Some("Web3"))), PackageStep::Next));
    assert!(matches!(step(true, read(None)), PackageStep::Next));
    assert!(matches!(step(true, RubyManifest::Missing), PackageStep::Next));
    assert!(matches!(step(true, RubyManifest::Rejected), PackageStep::Stop));
    assert!(matches!(step(false, RubyManifest::Rejected), PackageStep::Next));

    let bad = Some(Err("not JSON".to_string()));
    assert!(matches!(try_javascript_package(true, "frontend", &tbn, &bad), PackageStep::Next));
    assert!(matches!(try_javascript_package(true, "frontend", &tbn, &None), PackageStep::Next));
    let good = javascript("frontend", Some("Payroll")).javascript_package;
    assert!(matches!(try_javascript_package(true, "", &tbn, &good), PackageStep::Found(c)
        if c.source == Source::Package("package.json".to_string(), "/**/**".to_string())));
    assert!(matches!(try_javascript_package(false, "", &tbn, &good), PackageStep::Next));
}

#[test]
fn owners_of_javascript_packages() {
    let package = |owner: Option<&str>| JavascriptPackage {
        metadata: Some(Metadata { owner: owner.map(str::to_string) }),
    };
    assert_eq!(read_js_package_owner(&Ok(package(Some("UX")))), Ok("UX".to_string()));
    assert_eq!(read_js_package_owner(&Ok(package(None))), Err("Missing owner".to_string()));
    assert_eq!(read_js_package_owner(&Ok(JavascriptPackage { metadata: None })), Err("Missing owner".to_string()));
    assert_eq!(read_js_package_owner(&Err("no such file".to_string())), Err("no such file".to_string()));
}

#[test]
fn test_vendored_gem_owner() {
    let config = build_config_for_temp("frontend/**/*", "packs/**/*", "vendored");
    let mut teams: Vec<Team> = vec![team_named("Payroll")];
    teams[0].owned_gems = vec!["awesome_gem".to_string()];

    let result = vendored_gem_owner("vendored/awesome_gem/lib/a.rb", &config, &teams).unwrap();
    assert_eq!(result.team_name, "Payroll");
    assert!(matches!(result.source, Source::TeamGem));

    assert!(vendored_gem_owner("vendored/other_gem/lib/a.rb", &config, &teams).is_none());
    assert!(vendored_gem_owner("gems/awesome_gem/lib/a.rb", &config, &teams).is_none());
    assert!(vendored_gem_owner("vendored", &config, &teams).is_none());
    assert!(vendored_gem_owner("/vendored/awesome_gem", &config, &teams).is_none());
}

#[test]
fn test_teams_cache_root_is_absolute_for_relative_roots() {
    assert_eq!(teams_cache_root("some/project", Some("/work")), "/work/some/project");
    assert_eq!(teams_cache_root(".", Some("/work")), "/work/.");
    assert_eq!(teams_cache_root("/work", Some("/work")), "/work");
    assert_eq!(teams_cache_root("some/project", None), "some/project");
    assert_eq!(teams_cache_root("", Some("/work")), "");
}

/// A project whose team files can change, with the teams that are kept of it.
struct World {
    cache: TeamCache,
    files: Vec<Option<Team>>,
}

impl World {
    fn owner_of(&mut self, file: &str) -> Option<String> {
        let key: TeamCacheKey = (teams_cache_root(ROOT, None), strings(&["config/teams/**/*.yml"]));
        let files = &self.files;
        let teams = loaded_teams(&mut self.cache, key, |_| load_teams(vec![Ok(files.clone())])).unwrap();
        owners(&teams, file, &nothing()).first().map(|(name, _)| name.clone())
    }
}

#[test]
fn test_find_file_owners_reuses_loaded_teams_until_cleared() {
    let mut world = World { cache: TeamCache::default(), files: vec![Some(payroll("app/payroll/**/*"))] };
    assert_eq!(world.owner_of("app/payroll/a.rb"), Some("Payroll".to_string()));

    world.files = vec![Some(payroll("app/other/**/*"))];
    assert_eq!(
        world.owner_of("app/payroll/a.rb"),
        Some("Payroll".to_string()),
        "team files are loaded once"
    );

    clear_team_cache(&mut world.cache);
    assert_eq!(world.owner_of("app/payroll/a.rb"), None);
    assert_eq!(world.owner_of("app/other/a.rb"), Some("Payroll".to_string()));
}

#[test]
fn test_find_file_owners_shares_loaded_teams_across_threads() {
    // Two holders of one cache see the same teams, and each other's clears.
    let mut world = World { cache: TeamCache::default(), files: vec![Some(payroll("app/payroll/**/*"))] };
    assert_eq!(world.owner_of("app/payroll/a.rb"), Some("Payroll".to_string()));
    world.files = vec![Some(payroll("app/other/**/*"))];

    let key: TeamCacheKey = (ROOT.to_string(), strings(&["config/teams/**/*.yml"]));
    let one = world.cache.get(&key).unwrap();
    let other = world.cache.get(&key).unwrap();
    assert!(Arc::ptr_eq(&one, &other), "loaded teams are shared, not copied");
    clear_team_cache(&mut world.cache);
    assert_eq!(owners(&one, "app/payroll/a.rb", &nothing()).len(), 1, "what was handed out stays");

    assert_eq!(world.owner_of("app/payroll/a.rb"), None);
}

#[test]
fn test_clear_team_cache_during_a_load_is_not_undone_by_its_result() {
    let mut cache = TeamCache::default();
    let key: TeamCacheKey = ("/clear-during-load".to_string(), vec!["config/teams/**/*.yml".to_string()]);
    let loaded = || Arc::new(LoadedTeams { teams: Vec::new(), teams_by_name: TeamsByName::new() });

    let generation = cache.generation();
    clear_team_cache(&mut cache);
    cache_teams(&mut cache, key.clone(), loaded(), generation);
    assert!(!cache.contains_key(&key), "a load that started before the clear must not be cached");

    let generation = cache.generation();
    cache_teams(&mut cache, key.clone(), loaded(), generation);
    assert!(cache.contains_key(&key));
    clear_team_cache(&mut cache);
    assert!(!cache.contains_key(&key));
}

#[test]
fn test_find_file_owners_does_not_cache_a_load_with_an_unreadable_team_directory() {
    // A directory that cannot be read stands for its team files.
    let mut world =
        World { cache: TeamCache::default(), files: vec![Some(payroll("app/payroll/**/*")), None] };
    let found_payroll = world.owner_of("app/payroll/a.rb");
    let billing_while_unreadable = world.owner_of("app/billing/a.rb");
    world.files = vec![Some(payroll("app/payroll/**/*")), Some(billing("app/billing/**/*"))];
    let billing_once_readable = world.owner_of("app/billing/a.rb");

    assert_eq!(found_payroll, Some("Payroll".to_string()));
    assert_eq!(billing_while_unreadable, None);
    assert_eq!(
        billing_once_readable,
        Some("Billing".to_string()),
        "a team directory that becomes readable takes effect without clearing the cache"
    );
}

#[test]
fn test_find_file_owners_does_not_cache_a_load_that_skipped_a_team_file() {
    let mut world =
        World { cache: TeamCache::default(), files: vec![None, Some(payroll("app/payroll/**/*"))] };
    assert_eq!(world.owner_of("app/payroll/a.rb"), Some("Payroll".to_string()));
    assert_eq!(world.owner_of("app/billing/a.rb"), None);

    world.files = vec![Some(billing("app/billing/**/*")), Some(payroll("app/payroll/**/*"))];
    assert_eq!(
        world.owner_of("app/billing/a.rb"),
        Some("Billing".to_string()),
        "fixing the team file takes effect without clearing the cache"
    );

    world.files = vec![Some(billing("app/other/**/*")), Some(payroll("app/payroll/**/*"))];
    assert_eq!(
        world.owner_of("app/billing/a.rb"),
        Some("Billing".to_string()),
        "once every team file loads, the teams are cached"
    );
}

#[test]
fn test_team_cache_is_keyed_on_team_file_glob() {
    let mut cache = TeamCache::default();
    let key = |glob: &str| -> TeamCacheKey { (ROOT.to_string(), strings(&[glob])) };
    for (glob, name) in [("config/teams/a/*.yml", "Payroll"), ("config/teams/b/*.yml", "Billing")] {
        let team = Team { owned_globs: strings(&["app/**/*"]), ..team_named(name) };
        loaded_teams(&mut cache, key(glob), |_| load_teams(vec![Ok(vec![Some(team)])])).unwrap();
    }
    let owner_of = |glob: &str| owners(&cache.get(&key(glob)).unwrap(), "app/a.rb", &nothing())[0].0.clone();

    assert_eq!(owner_of("config/teams/a/*.yml"), "Payroll");
    assert_eq!(owner_of("config/teams/b/*.yml"), "Billing");
    assert_eq!(owner_of("config/teams/a/*.yml"), "Payroll");
    assert!(cache.get(&("/other".to_string(), strings(&["config/teams/a/*.yml"]))).is_none());
    assert!(cache.get(&("/proj//".to_string(), strings(&["config/teams/a/*.yml"]))).is_some());
}

#[test]
fn kept_teams_are_given_without_a_load() {
    let mut cache = TeamCache::default();
    let key: TeamCacheKey = (ROOT.to_string(), vec![]);
    let load = || Ok(TeamLoad { teams: vec![team_named("One")], skipped_team_file: false });
    assert!(matches!(begin_load(&cache, &key), Err(0)));
    loaded_teams(&mut cache, key.clone(), |asked| {
        assert_eq!(asked, &(ROOT.to_string(), vec![]));
        load()
    })
    .unwrap();
    let again = loaded_teams(&mut cache, key.clone(), |_| panic!("the teams are kept")).unwrap();
    assert_eq!(again.teams[0].name, "One");
    assert!(begin_load(&cache, &key).is_ok());
    clear_team_cache(&mut cache);
    assert!(matches!(begin_load(&cache, &key), Err(1)));
    // What was found by a load that began before the clear is used, but not kept.
    assert_eq!(finish_load(&mut cache, key.clone(), 0, load()).unwrap().teams.len(), 1);
    assert!(matches!(begin_load(&cache, &key), Err(1)));
}

#[test]
fn a_later_load_replaces_an_earlier_one() {
    let mut cache = TeamCache::default();
    let key: TeamCacheKey = (ROOT.to_string(), vec![]);
    for name in ["One", "Two"] {
        let load = TeamLoad { teams: vec![team_named(name)], skipped_team_file: false };
        finish_load(&mut cache, key.clone(), 0, Ok(load)).unwrap();
    }
    assert_eq!(cache.get(&key).unwrap().teams[0].name, "Two");
}

#[test]
fn a_bad_glob_is_an_error() {
    let error = load_teams(vec![Ok(vec![Some(team_named("A"))]), Err("first".to_string()), Err("second".to_string())]);
    assert!(matches!(&error, Err(e) if e == "first"));
    let mut cache = TeamCache::default();
    let key: TeamCacheKey = (ROOT.to_string(), vec![]);
    let load = loaded_teams(&mut cache, key.clone(), |_| error);
    assert!(matches!(load, Err(e) if e == "first"));
    assert!(!cache.contains_key(&key));
    assert_eq!(team_glob("/proj", "config/teams/*.yml"), "/proj/config/teams/*.yml");
}

#[test]
fn teams_go_by_their_names_and_those_of_their_github_teams() {
    let teams = vec![team_named("Payroll"), Team { github_team: "Payroll".to_string(), ..team_named("Billing") }];
    let map = build_teams_by_name_map(&teams);
    assert_eq!(map.get("@PayrollTeam").unwrap().name, "Payroll");
    assert_eq!(map.get("Billing").unwrap().name, "Billing");
    assert_eq!(map.get("Payroll").unwrap().name, "Billing", "the later team counts");
    assert!(map.get("Web3").is_none());
}

#[test]
fn every_kind_of_claim_counts() {
    let teams = loaded(vec![
        Team { path: format!("{ROOT}/config/teams/alpha.yml"), ..team_named("Alpha") },
        Team {
            path: format!("{ROOT}/config/teams/beta.yml"),
            owned_globs: strings(&["packs/**/*", "packs/a/*.rb"]),
            subtracted_globs: strings(&["packs/b/**"]),
            ..team_named("Beta")
        },
        Team { owned_gems: strings(&["awesome"]), ..team_named("Gamma") },
    ]);
    let facts = FileFacts {
        first_line: Some("# @team Alpha\n".to_string()),
        directories: vec![
            DirectoryFacts { codeowner: Some("Gamma".to_string()), ..ruby_owner("packs/a", "@BetaTeam") },
        ],
    };
    assert_eq!(
        owners(&teams, "packs/a/x.rb", &facts),
        vec![
            ("Alpha".to_string(), vec![Source::AnnotatedFile]),
            ("Gamma".to_string(), vec![Source::Directory("packs/a".to_string())]),
            (
                "Beta".to_string(),
                vec![
                    Source::Package("packs/a/package.yml".to_string(), "packs/a/**/**".to_string()),
                    Source::TeamGlob("packs/**/*".to_string()),
                    Source::TeamGlob("packs/a/*.rb".to_string()),
                ]
            ),
        ]
    );
    assert!(owners(&teams, "packs/b/x.rb", &nothing()).is_empty(), "subtracted globs are not owned");
    assert_eq!(owners(&teams, "vendored/awesome/x.rb", &nothing()), vec![("Gamma".to_string(), vec![Source::TeamGem])]);
    assert_eq!(
        owners(&teams, "/proj/config/teams/alpha.yml", &nothing()),
        vec![("Alpha".to_string(), vec![Source::TeamYml])]
    );
}

#[test]
fn annotations_count_only_where_an_owner_is_needed() {
    let teams = loaded(vec![team_named("Alpha")]);
    let facts = FileFacts { first_line: Some("# @team Alpha".to_string()), directories: vec![] };
    let mut config = build_config_for_temp("frontend/**/*", "packs/**/*", "vendored");
    config.owned_globs = strings(&["ruby/**/*.rb"]);
    config.unowned_globs = strings(&["ruby/vendor/**/*"]);
    let count = |file: &str| find_file_owners(ROOT, &config, file, Ok(&teams), &facts).unwrap().len();
    assert_eq!(count("ruby/a.rb"), 1);
    assert_eq!(count("ruby/vendor/a.rb"), 0);
    assert_eq!(count("other/a.rb"), 0);
}

#[test]
fn owners_of_equal_rank_come_by_name() {
    let teams = loaded(vec![team_named("b"), team_named("a"), team_named("C")]);
    let claim = |team: &str, source: Source| TeamClaim { team_name: team.to_string(), source };
    let claims = vec![
        claim("b", Source::TeamYml),
        claim("a", Source::TeamYml),
        claim("C", Source::TeamYml),
        claim("b", Source::TeamGem),
        claim("unknown", Source::AnnotatedFile),
    ];
    let names: Vec<String> =
        file_owners_from_claims(ROOT, &claims, &teams).into_iter().map(|o| o.team.name).collect();
    assert_eq!(names, vec!["b", "C", "a"]);
    assert!(source_priority(&Source::AnnotatedFile) < source_priority(&Source::Directory(String::new())));
    assert_eq!(source_priority(&Source::TeamYml), 5);
}

#[test]
fn teams_that_cannot_be_loaded_are_an_error() {
    let config = build_config_for_temp("frontend/**/*", "packs/**/*", "vendored");
    let result = find_file_owners(ROOT, &config, "a.rb", Err("no teams".to_string()), &nothing());
    assert_eq!(result.unwrap_err(), "no teams");
}

#[test]
fn the_search_goes_from_the_file_up_to_the_project() {
    let expected = strings(&["/proj/a/b", "/proj/a", "/proj"]);
    assert_eq!(searched_directories(ROOT, "a/b/c.rb"), expected);
    assert_eq!(searched_directories(ROOT, "/proj/a/b/c.rb"), expected);
}
