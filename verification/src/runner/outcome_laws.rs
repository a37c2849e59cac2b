//! What a run judges and what it has to say, stated of what it is given.

use crate::cache::Cache;
use crate::config::{Config, ConfigView};
use crate::lists;
use crate::order;
use crate::outside;
use crate::outside::JsonFieldView;
use crate::ownership;
use crate::ownership::judgement_laws::law_named_paths_without_owner;
use crate::ownership::mapper::SourceView;
use crate::ownership::validator;
use crate::ownership::validator::ErrorView;
use crate::ownership::{FileOwnerView, Ownership, TeamOwnership, TeamOwnershipView};
use crate::path;
use crate::path_utils;
use crate::project::TeamView;
use crate::runner;
use crate::runner::laws::law_judged_paths_are_spelled_alike;
use crate::runner::result;
use crate::runner::result::{Error, ErrorValue, RunResultView};
use crate::runner::{RunConfig, RunConfigView, RunFactsView, Runner};
use crate::text;
use vstd::prelude::*;
use vstd::string::*;

verus! {

/// Of the supplied paths, those that need an owner are those that one of the owned globs
/// matches, at whatever position, and none of the unowned globs, in order.
pub proof fn law_any_owned_glob_asks_for_an_owner(config: ConfigView, paths: Seq<Seq<char>>)
    ensures
        runner::owned(config, paths) == paths.filter(
            |p: Seq<char>|
                (exists|i: int|
                    0 <= i < config.owned_globs.len() && outside::glob_matches(#[trigger] config.owned_globs[i], p)) && (
                forall|j: int|
                    0 <= j < config.unowned_globs.len() ==> !outside::glob_matches(
                        #[trigger] config.unowned_globs[j],
                        p,
                    )),
        ),
    decreases paths.len(),
{
    reveal(Seq::filter);
    if paths.len() > 0 {
        law_any_owned_glob_asks_for_an_owner(config, paths.drop_last());
    } else {
        assert(runner::owned(config, paths) =~= Seq::empty());
    }
}

/// A path needs an owner exactly if it was supplied, one of the owned globs matches it and
/// none of the unowned globs does.
pub proof fn law_which_paths_need_an_owner(config: ConfigView, paths: Seq<Seq<char>>, p: Seq<char>)
    ensures
        runner::owned(config, paths).contains(p) <==> paths.contains(p) && (exists|i: int|
            0 <= i < config.owned_globs.len() && outside::glob_matches(#[trigger] config.owned_globs[i], p)) && (forall|
            j: int,
        |
            0 <= j < config.unowned_globs.len() ==> !outside::glob_matches(#[trigger] config.unowned_globs[j], p)),
{
    let needed = |p: Seq<char>|
        (exists|i: int|
            0 <= i < config.owned_globs.len() && outside::glob_matches(#[trigger] config.owned_globs[i], p)) && (
        forall|j: int|
            0 <= j < config.unowned_globs.len() ==> !outside::glob_matches(#[trigger] config.unowned_globs[j], p));
    law_any_owned_glob_asks_for_an_owner(config, paths);
    let kept = paths.filter(needed);
    if kept.contains(p) {
        paths.lemma_filter_contains_rev(needed, p);
        let k = choose|k: int| 0 <= k < kept.len() && kept[k] == p;
        paths.lemma_filter_pred(needed, k);
    }
    if paths.contains(p) && needed(p) {
        let k = choose|k: int| 0 <= k < paths.len() && paths[k] == p;
        paths.lemma_filter_contains(needed, k);
    }
}

/// The paths that are judged are the places of all given paths that have one and are not
/// gone, in the order in which they are given.
pub proof fn law_every_given_path_is_looked_up(root: Seq<char>, facts: RunFactsView, file_paths: Seq<Seq<char>>)
    ensures
        runner::supplied(root, facts, file_paths) == file_paths.filter(
            |f: Seq<char>|
                path_utils::resolved_text(root, facts.canonical_root, f, facts.disk) is Some
                    && !facts.disk.missing.contains(
                    path::join_text(
                        root,
                        path_utils::resolved_text(root, facts.canonical_root, f, facts.disk)->0,
                    ),
                ),
        ).map_values(|f: Seq<char>| path_utils::resolved_text(root, facts.canonical_root, f, facts.disk)->0),
    decreases file_paths.len(),
{
    let p = |f: Seq<char>|
        path_utils::resolved_text(root, facts.canonical_root, f, facts.disk) is Some && !facts.disk.missing.contains(
            path::join_text(root, path_utils::resolved_text(root, facts.canonical_root, f, facts.disk)->0),
        );
    let g = |f: Seq<char>| path_utils::resolved_text(root, facts.canonical_root, f, facts.disk)->0;
    lists::lemma_filter_map_step(file_paths, p, g);
    if file_paths.len() > 0 {
        law_every_given_path_is_looked_up(root, facts, file_paths.drop_last());
    }
}

proof fn lemma_supplied(root: Seq<char>, facts: RunFactsView, file_paths: Seq<Seq<char>>, place: Seq<char>)
    ensures
        runner::supplied(root, facts, file_paths).contains(place) <==> exists|i: int|
            0 <= i < file_paths.len() && path_utils::resolved_text(
                root,
                facts.canonical_root,
                #[trigger] file_paths[i],
                facts.disk,
            ) == Some(place) && !facts.disk.missing.contains(path::join_text(root, place)),
{
    let p = |f: Seq<char>|
        path_utils::resolved_text(root, facts.canonical_root, f, facts.disk) is Some && !facts.disk.missing.contains(
            path::join_text(root, path_utils::resolved_text(root, facts.canonical_root, f, facts.disk)->0),
        );
    let g = |f: Seq<char>| path_utils::resolved_text(root, facts.canonical_root, f, facts.disk)->0;
    law_every_given_path_is_looked_up(root, facts, file_paths);
    lists::lemma_filter_map_contains(file_paths, p, g, place);
    if exists|i: int| 0 <= i < file_paths.len() && p(#[trigger] file_paths[i]) && g(file_paths[i]) == place {
        let i = choose|i: int| 0 <= i < file_paths.len() && p(#[trigger] file_paths[i]) && g(file_paths[i]) == place;
        assert(path_utils::resolved_text(root, facts.canonical_root, file_paths[i], facts.disk) == Some(place));
    }
    if exists|i: int|
        0 <= i < file_paths.len() && path_utils::resolved_text(
            root,
            facts.canonical_root,
            #[trigger] file_paths[i],
            facts.disk,
        ) == Some(place) && !facts.disk.missing.contains(path::join_text(root, place)) {
        let i = choose|i: int|
            0 <= i < file_paths.len() && path_utils::resolved_text(
                root,
                facts.canonical_root,
                #[trigger] file_paths[i],
                facts.disk,
            ) == Some(place) && !facts.disk.missing.contains(path::join_text(root, place));
        assert(p(file_paths[i]) && g(file_paths[i]) == place);
    }
}

/// A run over some paths reports a path as without an owner exactly if it is the place of one
/// of these paths and not gone, one of the owned globs matches it and none of the unowned
/// ones, and no rule attributes it to a team.
pub proof fn law_which_paths_are_reported_without_owner(
    runner: Runner,
    facts: RunFactsView,
    file_paths: Seq<Seq<char>>,
    p: Seq<char>,
)
    requires
        runner.run_config@.project_root.len() > 0,
        facts.canonical_root is Some ==> (facts.canonical_root->0).len() > 0,
    ensures
        runner.errors_in(facts, file_paths).contains(ErrorView::FileWithoutOwner { path: p }) <==> {
            &&& exists|i: int|
                0 <= i < file_paths.len() && path_utils::resolved_text(
                    runner.run_config@.project_root,
                    facts.canonical_root,
                    #[trigger] file_paths[i],
                    facts.disk,
                ) == Some(p)
            &&& !facts.disk.missing.contains(path::join_text(runner.run_config@.project_root, p))
            &&& exists|i: int|
                0 <= i < runner.config@.owned_globs.len() && outside::glob_matches(
                    #[trigger] runner.config@.owned_globs[i],
                    p,
                )
            &&& forall|j: int|
                0 <= j < runner.config@.unowned_globs.len() ==> !outside::glob_matches(
                    #[trigger] runner.config@.unowned_globs[j],
                    p,
                )
            &&& forall|k: int| 0 <= k < runner.rules().len() ==> (#[trigger] runner.rules()[k]).owner(p) is None
        },
{
    let root = runner.run_config@.project_root;
    let paths = runner::supplied(root, facts, file_paths);
    let kept = runner::owned(runner.config@, paths);
    law_named_paths_without_owner(runner.project(), runner.rules(), kept, paths, p);
    law_which_paths_need_an_owner(runner.config@, paths, p);
    lemma_supplied(root, facts, file_paths, p);
    law_judged_paths_are_spelled_alike(root, facts, file_paths);
    if kept.contains(p) {
        let i = first_of(kept, p, choose|i: int| 0 <= i < kept.len() && kept[i] == p);
        assert forall|j: int| 0 <= j < i implies path::components(#[trigger] kept[j]) != path::components(p) by {
            assert(kept.contains(kept[j]));
            law_which_paths_need_an_owner(runner.config@, paths, kept[j]);
            let a = choose|a: int| 0 <= a < paths.len() && paths[a] == kept[j];
            let b = choose|b: int| 0 <= b < paths.len() && paths[b] == p;
            assert(path_utils::spelled(path::components(paths[a])) == paths[a]);
            assert(path_utils::spelled(path::components(paths[b])) == paths[b]);
        }
        assert(kept[i] == p);
    }
}

proof fn first_of(list: Seq<Seq<char>>, p: Seq<char>, n: int) -> (r: int)
    requires
        0 <= n < list.len(),
        list[n] == p,
    ensures
        0 <= r <= n,
        list[r] == p,
        forall|j: int| 0 <= j < r ==> #[trigger] list[j] != p,
    decreases n,
{
    if exists|m: int| 0 <= m < n && #[trigger] list[m] == p {
        let m = choose|m: int| 0 <= m < n && #[trigger] list[m] == p;
        first_of(list, p, m)
    } else {
        n
    }
}

/// Without paths the whole project and its CODEOWNERS file are judged, with paths just these.
/// All defects go into one report; of the whole project the changes that the CODEOWNERS file
/// needs are told beside it. Without a defect nothing is said.
pub proof fn law_what_a_verdict_says(runner: Runner, facts: RunFactsView, file_paths: Seq<Seq<char>>)
    ensures
        ({
            let all = validator::project_errors(runner.project(), runner.rules()) + validator::staleness_errors(
                runner.ownership.validator.executable_name@,
                facts.current_file,
                runner.ownership.generated_file@,
            );
            let some = runner.errors_in(facts, file_paths);
            let said = runner.verdict(facts, file_paths);
            let none = Seq::<Seq<char>>::empty();
            &&& file_paths.len() == 0 && all.len() > 0 ==> said.validation_errors == seq![validator::report(all)]
                && said.info_messages == validator::infos(all)
            &&& file_paths.len() == 0 && all.len() == 0 ==> said.validation_errors == none && said.info_messages
                == none
            &&& file_paths.len() > 0 && some.len() > 0 ==> said.validation_errors == seq![validator::report(some)]
            &&& file_paths.len() > 0 && some.len() == 0 ==> said.validation_errors == none
            &&& file_paths.len() > 0 ==> said.info_messages == none
            &&& said.io_errors == none
        }),
{
}

/// The report on a team has a headline and then, category after category, its heading and what
/// the team owns in it, line by line, or that this is nothing.
pub proof fn law_every_category_of_a_team_is_told(team_name: Seq<char>, list: Seq<TeamOwnershipView>)
    ensures
        runner::team_report(team_name, list) == seq!["# Code Ownership Report for `"@ + team_name + "` Team"@]
            + list.flat_map(
            |t: TeamOwnershipView|
                seq![
                    "\n#"@ + t.heading,
                    if t.globs.len() == 0 {
                        "This team owns nothing in this category."@
                    } else {
                        text::joined(t.globs, "\n"@)
                    },
                ],
        ),
    decreases list.len(),
{
    let f = |t: TeamOwnershipView|
        seq![
            "\n#"@ + t.heading,
            if t.globs.len() == 0 {
                "This team owns nothing in this category."@
            } else {
                text::joined(t.globs, "\n"@)
            },
        ];
    let head = seq!["# Code Ownership Report for `"@ + team_name + "` Team"@];
    lists::lemma_flat_map_step(list, f);
    if list.len() == 0 {
        assert(head + list.flat_map(f) =~= head);
    } else {
        let init = list.drop_last();
        law_every_category_of_a_team_is_told(team_name, init);
        assert(head + list.flat_map(f) =~= (head + init.flat_map(f)) + f(list.last()));
        assert((head + init.flat_map(f)) + f(list.last()) =~= (head + init.flat_map(f)).push(f(list.last())[0]).push(
            f(list.last())[1],
        ));
    }
}

/// What is known of a team is told as information, and why it is not known as a failure.
pub proof fn law_a_team_is_told_or_the_failure_is(team_name: Seq<char>, list: Vec<TeamOwnership>, e: String)
    ensures
        ({
            let told = runner::team_result(team_name, Ok::<Vec<TeamOwnership>, String>(list));
            let failed = runner::team_result(team_name, Err::<Vec<TeamOwnership>, String>(e));
            let none = Seq::<Seq<char>>::empty();
            &&& told.info_messages == runner::team_report(team_name, list@.map_values(|t: TeamOwnership| t@))
            &&& told.io_errors == none && told.validation_errors == none
            &&& failed.io_errors == seq![e@]
            &&& failed.info_messages == none && failed.validation_errors == none
        }),
{
    assert(ownership::team_ownership_views(list@) =~= list@.map_values(|t: TeamOwnership| t@));
}

/// Several owners are a defect, of which every one of them is told, in order.
pub proof fn law_every_owner_of_several_is_told(owners: Seq<FileOwnerView>)
    ensures
        runner::many_owners(owners) == seq!["Error: file is owned by multiple teams!"@] + owners.map_values(
            |o: FileOwnerView| "\n"@ + o.described(),
        ),
    decreases owners.len(),
{
    let g = |o: FileOwnerView| "\n"@ + o.described();
    let head = seq!["Error: file is owned by multiple teams!"@];
    if owners.len() == 0 {
        assert(head + owners.map_values(g) =~= head);
    } else {
        let init = owners.drop_last();
        law_every_owner_of_several_is_told(init);
        assert(head + owners.map_values(g) =~= (head + init.map_values(g)).push(g(owners.last())));
    }
}

/// No owner is told as an owner called `Unowned`, one owner as itself, and several as a defect.
pub proof fn law_what_is_told_of_owners(owners: Seq<FileOwnerView>)
    ensures
        ({
            let told = runner::owners_result(owners, false);
            let none = Seq::<Seq<char>>::empty();
            &&& owners.len() == 0 ==> told.info_messages == seq![
                "Team: Unowned\nGithub Team: Unowned\nTeam YML: \nDescription: Unowned"@,
            ]
            &&& owners.len() == 1 ==> told.info_messages == seq![owners[0].described()]
            &&& owners.len() <= 1 ==> told.validation_errors == none
            &&& owners.len() > 1 ==> told.validation_errors == runner::many_owners(owners) && told.info_messages
                == none
            &&& told.io_errors == none
        }),
{
    reveal_strlit("Team: Unowned\nGithub Team: Unowned\nTeam YML: \nDescription: Unowned");
    reveal_strlit("Unowned");
    reveal_strlit("Team: ");
    reveal_strlit("\nGithub Team: ");
    reveal_strlit("\nTeam YML: ");
    reveal_strlit("\nDescription: ");
    if owners.len() == 0 {
        assert(ownership::unowned().described()
            =~= "Team: Unowned\nGithub Team: Unowned\nTeam YML: \nDescription: Unowned"@);
    }
}

/// Asked for JSON, the same is told as an object: of no owner and of one owner its team, its
/// team file and each of its sources, of several all that is told of them.
pub proof fn law_what_is_told_of_owners_as_json(owners: Seq<FileOwnerView>)
    ensures
        ({
            let told = runner::owners_result(owners, true);
            let one = |o: FileOwnerView|
                outside::json_pretty(
                    seq![
                        ("team_name"@, JsonFieldView::Text(o.team.name)),
                        ("github_team"@, JsonFieldView::Text(o.team.github_team)),
                        ("team_yml"@, JsonFieldView::Text(o.team_config_file_path)),
                        ("description"@, JsonFieldView::List(o.sources.map_values(|s: SourceView| s.described()))),
                    ],
                );
            let none = Seq::<Seq<char>>::empty();
            let unowned = ownership::unowned();
            let several = outside::json_pretty(
                seq![("validation_errors"@, JsonFieldView::List(runner::many_owners(owners)))],
            );
            &&& unowned.team.name == "Unowned"@ && unowned.team.github_team == "Unowned"@
                && unowned.team_config_file_path.len() == 0 && unowned.sources.len() == 0
            &&& owners.len() == 0 && one(unowned) is Ok ==> told.info_messages == seq![one(unowned)->Ok_0]
            &&& owners.len() == 1 && one(owners[0]) is Ok ==> told.info_messages == seq![one(owners[0])->Ok_0]
            &&& owners.len() > 1 && several is Ok ==> told.validation_errors == seq![several->Ok_0]
                && told.info_messages == none && told.io_errors == none
            &&& (owners.len() == 0 && one(unowned) is Ok) || (owners.len() == 1 && one(owners[0]) is Ok)
                ==> told.validation_errors == none && told.io_errors == none
        }),
{
    assert forall|o: FileOwnerView| #[trigger] result::for_file(o).members() == (seq![
        ("team_name"@, JsonFieldView::Text(o.team.name)),
        ("github_team"@, JsonFieldView::Text(o.team.github_team)),
        ("team_yml"@, JsonFieldView::Text(o.team_config_file_path)),
        ("description"@, JsonFieldView::List(o.sources.map_values(|s: SourceView| s.described()))),
    ]) by {
        assert(ownership::descriptions(o.sources) =~= o.sources.map_values(|s: SourceView| s.described()));
    }
}

/// An owner is told by its team, its team file and each of its sources, in order, one on a
/// line; one without a source is unowned.
pub proof fn law_an_owner_in_words(owner: FileOwnerView)
    ensures
        owner.described() == "Team: "@ + owner.team.name + "\nGithub Team: "@ + owner.team.github_team
            + "\nTeam YML: "@ + owner.team_config_file_path + "\nDescription: "@ + if owner.sources.len() == 0 {
            "Unowned"@
        } else {
            "\n- "@ + text::joined(
                order::sorted_texts(owner.sources.map_values(|s: SourceView| s.described())),
                "\n- "@,
            )
        },
{
    assert(ownership::descriptions(owner.sources) =~= owner.sources.map_values(|s: SourceView| s.described()));
}

/// What the CODEOWNERS file alone says is told as the team that it gives, as unowned, or as the
/// failure to find out.
pub proof fn law_what_the_codeowners_file_alone_says(root: Seq<char>, team: TeamView, e: Seq<char>)
    ensures
        ({
            let found = runner::codeowners_result(root, Ok(Some(team)), false);
            let missing = runner::codeowners_result(root, Ok(None), false);
            let failed = runner::codeowners_result(root, Err(e), false);
            let json = runner::codeowners_result(root, Ok(Some(team)), true);
            let written = outside::json_pretty(
                seq![
                    ("team_name"@, JsonFieldView::Text(team.name)),
                    ("github_team"@, JsonFieldView::Text(team.github_team)),
                    ("team_yml"@, JsonFieldView::Text(path_utils::relative_text(root, team.path))),
                    ("description"@, JsonFieldView::List(seq!["Owner inferred from codeowners file"@])),
                ],
            );
            let none = Seq::<Seq<char>>::empty();
            &&& found.info_messages == seq![
                "Team: "@ + team.name + "\nGithub Team: "@ + team.github_team + "\nTeam YML: "@
                    + path_utils::relative_text(root, team.path)
                    + "\nDescription:\n- "@ + "Owner inferred from codeowners file"@,
            ]
            &&& found.validation_errors == none && found.io_errors == none
            &&& written is Ok ==> json.info_messages == seq![written->Ok_0] && json.validation_errors == none
                && json.io_errors == none
            &&& missing == runner::owners_result(Seq::empty(), false)
            &&& runner::codeowners_result(root, Ok(None), true) == runner::owners_result(Seq::empty(), true)
            &&& failed.io_errors == seq![e]
            &&& failed.validation_errors == none && failed.info_messages == none
        }),
{
    let one = seq!["Owner inferred from codeowners file"@];
    assert(text::joined(one, "\n- "@) =~= one[0]);
}

/// A failure is told in its own words, in JSON as the one member `error`. Where JSON cannot be
/// written, that is the failure, with its quotation marks escaped.
pub proof fn law_failures_are_told(message: Seq<char>, e: Seq<char>)
    ensures
        ({
            let none = Seq::<Seq<char>>::empty();
            let plain = result::io_error_result(ErrorValue::Io(message), false);
            let json = result::io_error_result(ErrorValue::Io(message), true);
            let written = outside::json_compact(seq![("error"@, JsonFieldView::Text(message))]);
            let broken = result::fallback(e);
            &&& plain.io_errors == seq![message]
            &&& written is Ok ==> json.io_errors == seq![written->Ok_0]
            &&& written is Err ==> json == result::fallback("JSON serialization failed: "@ + written->Err_0)
            &&& broken.io_errors == seq!["{\"error\": \""@ + text::replaced(e, '"', "\\\""@) + "\"}"@]
            &&& plain.validation_errors == none && plain.info_messages == none
            &&& json.validation_errors == none && json.info_messages == none
            &&& broken.validation_errors == none && broken.info_messages == none
            &&& result::json_info_result(Err(e)) == broken
            &&& result::json_validation_error_result(Err(e)) == result::fallback("JSON serialization failed: "@ + e)
            &&& ErrorValue::ValidationFailed.described() == "Error::ValidationFailed"@
        }),
{
}

/// A run fails exactly if something is told as a defect or as a failure.
pub proof fn law_a_run_fails_for_any_error(r: RunResultView)
    ensures
        r.has_errors() <==> r.validation_errors != Seq::<Seq<char>>::empty() || r.io_errors
            != Seq::<Seq<char>>::empty(),
{
    if !r.has_errors() {
        assert(r.validation_errors =~= Seq::<Seq<char>>::empty());
        assert(r.io_errors =~= Seq::<Seq<char>>::empty());
    }
}

/// The name of the executable that a run is given replaces that of the configuration, and
/// nothing else is replaced.
pub proof fn law_only_the_executable_name_is_replaced(run_config: RunConfigView, config: ConfigView)
    ensures
        ({
            let c = runner::configured(run_config, config);
            &&& run_config.executable_name is Some ==> c.executable_name == run_config.executable_name->0
            &&& run_config.executable_name is None ==> c.executable_name == config.executable_name
            &&& c.owned_globs == config.owned_globs
            &&& c.unowned_globs == config.unowned_globs
            &&& c.ruby_package_paths == config.ruby_package_paths
            &&& c.javascript_package_paths == config.javascript_package_paths
            &&& c.team_file_glob == config.team_file_glob
            &&& c.vendored_gems_path == config.vendored_gems_path
            &&& c.cache_directory == config.cache_directory
            &&& c.ignore_dirs == config.ignore_dirs
            &&& c.codeowners_path == config.codeowners_path
        }),
{
}

/// The CODEOWNERS file is the one that the run is given; else the one that the environment
/// names, unless that is empty; else the one in the configured directory. The latter two are
/// looked for from the root of the project.
pub proof fn law_where_the_codeowners_file_lies(
    run_config: RunConfigView,
    config: ConfigView,
    given: Seq<char>,
    named: Seq<char>,
)
    ensures
        ({
            let root = run_config.project_root;
            let free = RunConfigView { codeowners_file_path: None, ..run_config };
            let configured = path::join_text(path::join_text(root, config.codeowners_path), "CODEOWNERS"@);
            &&& forall|environment: Option<Seq<char>>| #[trigger]
                runner::codeowners_path(
                    RunConfigView { codeowners_file_path: Some(given), ..run_config },
                    config,
                    environment,
                ) == given
            &&& named.len() > 0 ==> runner::codeowners_path(free, config, Some(named)) == path::join_text(root, named)
            &&& runner::codeowners_path(free, config, Some(Seq::empty())) == configured
            &&& runner::codeowners_path(free, config, None) == configured
        }),
{
}

/// A run that is set up did all of its steps: it opened a cache, unless it is to do without,
/// built its rules with it, and kept what was learned. It holds what was built.
pub proof fn law_a_run_takes_every_step<C, B, P>(
    run_config: &RunConfig,
    config: Config,
    path: String,
    runner: Runner,
    create_cache: C,
    build: B,
    persist: P,
) where
    C: FnOnce(&RunConfig, &Config) -> Result<Cache, String>,
    B: FnOnce(&RunConfig, &Config, &String, Cache) -> Result<(Ownership, Cache), String>,
    P: FnOnce(&Cache) -> Result<(), String>,

    requires
        runner::is_set_up(run_config, config, path, Ok(runner), create_cache, build, persist),
    ensures
        runner.run_config@ == run_config@,
        runner.config == config,
        runner.codeowners_file_path == path,
        exists|kept: Result<(), String>| #[trigger] call_ensures(persist, (&runner.cache,), kept) && kept is Ok,
        exists|cache: Cache|
            #[trigger] call_ensures(
                build,
                (run_config, &config, &path, cache),
                Ok((runner.ownership, runner.cache)),
            ) && (run_config@.no_cache ==> cache == Cache::Noop) && (!run_config@.no_cache ==> call_ensures(
                create_cache,
                (run_config, &config),
                Ok(cache),
            )),
{
    let r: Result<Runner, Error> = Ok(runner);
    let opened = choose|opened: Result<Cache, Error>| #[trigger]
        runner::is_opened(run_config, config, create_cache, opened) && match opened {
            Err(e) => r is Err && r->Err_0@ == e@,
            Ok(cache) => exists|built: Result<(Ownership, Cache), String>| #[trigger]
                call_ensures(build, (run_config, &config, &path, cache), built) && match built {
                    Err(_) => r is Err && r->Err_0@ == ErrorValue::Io(
                        "Can't build project: "@ + run_config@.config_path,
                    ),
                    Ok((ownership, learned)) => exists|kept: Result<(), String>| #[trigger]
                        call_ensures(persist, (&learned,), kept) && match kept {
                            Err(_) => r is Err && r->Err_0@ == ErrorValue::Io(
                                "Can't persist cache: "@ + run_config@.config_path,
                            ),
                            Ok(_) => match r {
                                Ok(runner) => {
                                    &&& runner.run_config@ == run_config@
                                    &&& runner.ownership == ownership
                                    &&& runner.cache == learned
                                    &&& runner.config == config
                                    &&& runner.codeowners_file_path == path
                                },
                                Err(_) => false,
                            },
                        },
                },
        };
    let cache = opened->Ok_0;
    assert(call_ensures(build, (run_config, &config, &path, cache), Ok((runner.ownership, runner.cache))));
}

/// A run that is not set up failed at one of its steps, which its error names together with
/// the configuration file.
pub proof fn law_a_failed_step_is_named<C, B, P>(
    run_config: &RunConfig,
    config: Config,
    path: String,
    e: Error,
    create_cache: C,
    build: B,
    persist: P,
) where
    C: FnOnce(&RunConfig, &Config) -> Result<Cache, String>,
    B: FnOnce(&RunConfig, &Config, &String, Cache) -> Result<(Ownership, Cache), String>,
    P: FnOnce(&Cache) -> Result<(), String>,

    requires
        runner::is_set_up(run_config, config, path, Err(e), create_cache, build, persist),
    ensures
        ({
            ||| e@ == ErrorValue::Io("Can't create cache: "@ + run_config@.config_path) && !run_config@.no_cache && (
            exists|said: String| #[trigger] call_ensures(create_cache, (run_config, &config), Err(said)))
            ||| e@ == ErrorValue::Io("Can't build project: "@ + run_config@.config_path) && (exists|
                cache: Cache,
                built: Result<(Ownership, Cache), String>,
            | #[trigger] call_ensures(build, (run_config, &config, &path, cache), built) && built is Err)
            ||| e@ == ErrorValue::Io("Can't persist cache: "@ + run_config@.config_path) && (exists|
                learned: Cache,
                kept: Result<(), String>,
            | #[trigger] call_ensures(persist, (&learned,), kept) && kept is Err)
        }),
{
    let r: Result<Runner, Error> = Err(e);
    let opened = choose|opened: Result<Cache, Error>| #[trigger]
        runner::is_opened(run_config, config, create_cache, opened) && match opened {
            Err(e) => r is Err && r->Err_0@ == e@,
            Ok(cache) => exists|built: Result<(Ownership, Cache), String>| #[trigger]
                call_ensures(build, (run_config, &config, &path, cache), built) && match built {
                    Err(_) => r is Err && r->Err_0@ == ErrorValue::Io(
                        "Can't build project: "@ + run_config@.config_path,
                    ),
                    Ok((ownership, learned)) => exists|kept: Result<(), String>| #[trigger]
                        call_ensures(persist, (&learned,), kept) && match kept {
                            Err(_) => r is Err && r->Err_0@ == ErrorValue::Io(
                                "Can't persist cache: "@ + run_config@.config_path,
                            ),
                            Ok(_) => match r {
                                Ok(runner) => {
                                    &&& runner.run_config@ == run_config@
                                    &&& runner.ownership == ownership
                                    &&& runner.cache == learned
                                    &&& runner.config == config
                                    &&& runner.codeowners_file_path == path
                                },
                                Err(_) => false,
                            },
                        },
                },
        };
    assert(runner::is_opened(run_config, config, create_cache, opened));
}

} // verus!
