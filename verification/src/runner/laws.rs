//! What holds of every run.

use crate::config::ConfigView;
use crate::ownership::FileOwnerView;
use crate::ownership::laws;
use crate::ownership::validator;
use crate::ownership::validator::ErrorView;
use crate::path;
use crate::path_utils;
use crate::runner;
use crate::runner::{RunFactsView, Runner};
use vstd::prelude::*;
use vstd::string::*;

verus! {

/// A judgement fails exactly if there is a defect, and it is never a failure of the run.
pub proof fn law_a_verdict_fails_for_defects_only(errors: Seq<ErrorView>)
    ensures
        runner::whole_result(errors).has_errors() <==> errors.len() > 0,
        runner::scoped_result(errors).has_errors() <==> errors.len() > 0,
        runner::whole_result(errors).io_errors.len() == 0,
        runner::scoped_result(errors).io_errors.len() == 0,
        runner::scoped_result(errors).info_messages.len() == 0,
{
}

/// A path that leaves the project has no place in it.
pub proof fn law_foreign_paths_are_skipped(root: Seq<char>, facts: RunFactsView, file_path: Seq<char>)
    requires
        !path::is_absolute(file_path),
        path_utils::escapes(path::components(file_path)),
    ensures
        runner::supplied_path(root, facts, file_path) is None,
{
    path_utils::law_escaping_paths_are_rejected(root, file_path);
}

/// A file that is known to be gone is not judged; one of which that is not known is.
pub proof fn law_only_gone_files_are_skipped(root: Seq<char>, facts: RunFactsView, file_path: Seq<char>, place: Seq<char>)
    requires
        path_utils::resolved_text(root, facts.canonical_root, file_path, facts.disk) == Some(place),
    ensures
        runner::supplied_path(root, facts, file_path) == if facts.disk.missing.contains(path::join_text(root, place)) {
            None
        } else {
            Some(place)
        },
{
}

/// A path that is skipped does not change what is judged.
pub proof fn law_skipped_paths_change_nothing(
    root: Seq<char>,
    facts: RunFactsView,
    file_paths: Seq<Seq<char>>,
    i: int,
)
    requires
        0 <= i < file_paths.len(),
        runner::supplied_path(root, facts, file_paths[i]) is None,
    ensures
        runner::supplied(root, facts, file_paths.remove(i)) == runner::supplied(root, facts, file_paths),
    decreases file_paths.len(),
{
    let less = file_paths.remove(i);
    let init = file_paths.drop_last();
    if i == file_paths.len() - 1 {
        assert(less =~= init);
    } else {
        assert(init[i] == file_paths[i]);
        law_skipped_paths_change_nothing(root, facts, init, i);
        assert(less.drop_last() =~= init.remove(i));
        assert(less.last() == file_paths.last());
    }
}

/// A leading `./` does not change what is judged.
pub proof fn law_a_leading_dot_does_not_matter(root: Seq<char>, facts: RunFactsView, file_path: Seq<char>)
    requires
        !path::is_absolute(file_path),
    ensures
        runner::supplied_path(root, facts, path::join_text("."@, file_path)) == runner::supplied_path(
            root,
            facts,
            file_path,
        ),
{
    reveal_strlit(".");
    path_utils::law_leading_dot_is_dropped(root, file_path);
    assert(path::join_text("."@, file_path)[0] == '.');
}

/// A file of the project is judged alike whether its path is relative to the project or in
/// full.
pub proof fn law_full_paths_are_judged_alike(root: Seq<char>, facts: RunFactsView, file_path: Seq<char>)
    requires
        path::is_absolute(root),
        !path::is_absolute(file_path),
        path_utils::project_relative_text(root, file_path) is Some,
    ensures
        runner::supplied_path(root, facts, path::join_text(root, file_path)) == runner::supplied_path(
            root,
            facts,
            file_path,
        ),
{
    path_utils::law_absolute_and_relative_agree(root, file_path);
}

/// A file of the project is judged alike whether its path is relative to the project or in
/// full below the resolved root, also when the project is known by a root that is not
/// resolved. Its directory has to resolve to itself: no link leads to it from inside the
/// project.
pub proof fn law_resolved_paths_are_judged_alike(
    root: Seq<char>,
    facts: RunFactsView,
    canonical_root: Seq<char>,
    file_path: Seq<char>,
    dir: Seq<char>,
    home: Seq<char>,
)
    requires
        facts.canonical_root == Some(canonical_root),
        path::is_absolute(canonical_root),
        !path::is_absolute(file_path),
        path_utils::project_relative_text(root, file_path) is Some,
        path::file_name_text(file_path) is Some,
        path_utils::project_relative_text(root, path::join_text(canonical_root, file_path)) is None,
        path::parent_text(path::join_text(canonical_root, file_path)) == Some(dir),
        path_utils::first_entry(facts.disk.resolved, dir) == Some(home),
        path::same_path(home, dir),
    ensures
        runner::supplied_path(root, facts, path::join_text(canonical_root, file_path)) == runner::supplied_path(
            root,
            facts,
            file_path,
        ),
{
    path_utils::law_resolved_root_completes_the_path(root, canonical_root, file_path, dir, home, facts.disk);
}

/// A detour through a directory and back does not change what is judged.
pub proof fn law_detours_do_not_matter(
    root: Seq<char>,
    facts: RunFactsView,
    above: Seq<char>,
    entry: Seq<char>,
    below: Seq<char>,
)
    requires
        !path::is_absolute(above),
        path::is_piece(entry),
        path::is_normal(entry),
        !path::is_absolute(below),
    ensures
        runner::supplied_path(
            root,
            facts,
            path::join_text(path::join_text(path::join_text(above, entry), ".."@), below),
        ) == runner::supplied_path(root, facts, path::join_text(above, below)),
{
    path_utils::law_interior_parent_is_resolved(root, above, entry, below);
}

/// Whether `s` is one of the ways in which a caller can give the path `p` of a file of the
/// project: as it is, with a leading `./`, with a detour, or in full below the root or below
/// the resolved root.
pub open spec fn is_spelling(root: Seq<char>, facts: RunFactsView, p: Seq<char>, s: Seq<char>) -> bool {
    ||| s == p
    ||| s == path::join_text("."@, p)
    ||| is_detour(p, s)
    ||| path::is_absolute(root) && s == path::join_text(root, p)
    ||| is_below_the_resolved_root(root, facts, p, s)
}

/// Whether `s` is `p` with a way down into a directory and up again.
pub open spec fn is_detour(p: Seq<char>, s: Seq<char>) -> bool {
    exists|above: Seq<char>, entry: Seq<char>, below: Seq<char>|
        !path::is_absolute(above) && path::is_piece(entry) && path::is_normal(entry) && !path::is_absolute(below)
            && #[trigger] path::join_text(above, below) == p && s == path::join_text(
            #[trigger] path::join_text(path::join_text(above, entry), ".."@),
            below,
        )
}

/// Whether `s` is `p` below the resolved root, does not lie below the root as it is given,
/// and has a directory that resolves to itself.
pub open spec fn is_below_the_resolved_root(root: Seq<char>, facts: RunFactsView, p: Seq<char>, s: Seq<char>) -> bool {
    &&& facts.canonical_root matches Some(canonical_root)
    &&& path::is_absolute(canonical_root)
    &&& s == path::join_text(canonical_root, p)
    &&& path_utils::project_relative_text(root, s) is None
    &&& path::parent_text(s) matches Some(dir)
    &&& path_utils::first_entry(facts.disk.resolved, dir) matches Some(home)
    &&& path::same_path(home, dir)
}

/// A file of the project gets the same verdict under every spelling of its path, and is
/// judged under its place in the project, never under the spelling.
pub proof fn law_every_spelling_gets_the_same_verdict(
    runner: Runner,
    facts: RunFactsView,
    p: Seq<char>,
    s: Seq<char>,
)
    requires
        path_utils::project_relative_text(runner.run_config@.project_root, p) == Some(p),
        !path::is_absolute(p),
        is_spelling(runner.run_config@.project_root, facts, p, s),
    ensures
        runner.verdict(facts, seq![s]) == runner.verdict(facts, seq![p]),
        runner::supplied(runner.run_config@.project_root, facts, seq![s]) == if facts.disk.missing.contains(
            path::join_text(runner.run_config@.project_root, p),
        ) {
            Seq::empty()
        } else {
            seq![p]
        },
{
    let root = runner.run_config@.project_root;
    if s == path::join_text("."@, p) {
        law_a_leading_dot_does_not_matter(root, facts, p);
    } else if is_detour(p, s) {
        let (above, entry, below) = choose|above: Seq<char>, entry: Seq<char>, below: Seq<char>|
            !path::is_absolute(above) && path::is_piece(entry) && path::is_normal(entry) && !path::is_absolute(below)
                && #[trigger] path::join_text(above, below) == p && s == path::join_text(
                #[trigger] path::join_text(path::join_text(above, entry), ".."@),
                below,
            );
        law_detours_do_not_matter(root, facts, above, entry, below);
    } else if path::is_absolute(root) && s == path::join_text(root, p) {
        law_full_paths_are_judged_alike(root, facts, p);
    } else if s != p {
        let canonical_root = facts.canonical_root->0;
        let dir = path::parent_text(s)->0;
        let home = path_utils::first_entry(facts.disk.resolved, dir)->0;
        path_utils::law_project_relative_is_canonical(root, p, p);
        assert(path::is_normal(path::components(p)[path::components(p).len() - 1]));
        law_resolved_paths_are_judged_alike(root, facts, canonical_root, p, dir, home);
    }
    lemma_one_path(root, facts, s);
    lemma_one_path(root, facts, p);
}

proof fn lemma_one_path(root: Seq<char>, facts: RunFactsView, s: Seq<char>)
    ensures
        runner::supplied(root, facts, seq![s]) == match runner::supplied_path(root, facts, s) {
            Some(p) => seq![p],
            None => Seq::empty(),
        },
{
    assert(seq![s].drop_last() =~= Seq::empty());
    assert(seq![s].last() == s);
    assert(runner::supplied(root, facts, Seq::empty()) =~= Seq::empty());
    assert(runner::supplied(root, facts, seq![s]) =~= match runner::supplied_path(root, facts, s) {
        Some(p) => seq![p],
        None => Seq::empty(),
    });
}

/// Among other paths, too, a path can be given in another spelling of the same place without
/// a change of the verdict.
pub proof fn law_the_place_decides(
    runner: Runner,
    facts: RunFactsView,
    file_paths: Seq<Seq<char>>,
    i: int,
    s: Seq<char>,
)
    requires
        0 <= i < file_paths.len(),
        runner::supplied_path(runner.run_config@.project_root, facts, s) == runner::supplied_path(
            runner.run_config@.project_root,
            facts,
            file_paths[i],
        ),
    ensures
        runner.verdict(facts, file_paths.update(i, s)) == runner.verdict(facts, file_paths),
{
    lemma_supplied_updated(runner.run_config@.project_root, facts, file_paths, i, s);
}

proof fn lemma_supplied_updated(
    root: Seq<char>,
    facts: RunFactsView,
    file_paths: Seq<Seq<char>>,
    i: int,
    s: Seq<char>,
)
    requires
        0 <= i < file_paths.len(),
        runner::supplied_path(root, facts, s) == runner::supplied_path(root, facts, file_paths[i]),
    ensures
        runner::supplied(root, facts, file_paths.update(i, s)) == runner::supplied(root, facts, file_paths),
    decreases file_paths.len(),
{
    let now = file_paths.update(i, s);
    let init = file_paths.drop_last();
    if i == file_paths.len() - 1 {
        assert(now.drop_last() =~= init);
    } else {
        assert(now.drop_last() =~= init.update(i, s));
        assert(now.last() == file_paths.last());
        lemma_supplied_updated(root, facts, init, i, s);
    }
}

/// Right after it was written, the CODEOWNERS file is not stale: only the project itself is
/// judged.
pub proof fn law_a_written_file_is_not_stale(runner: Runner)
    ensures
        runner.all_errors(runner.ownership.generated_file@) == validator::project_errors(
            runner.project(),
            runner.rules(),
        ),
{
    assert(runner.all_errors(runner.ownership.generated_file@) =~= validator::project_errors(
        runner.project(),
        runner.rules(),
    ));
}

/// What is judged right after the CODEOWNERS file was written never finds it out of date,
/// whether some paths are named or none, and has nothing to tell beside the report.
pub proof fn law_a_regenerated_file_is_never_out_of_date(
    runner: Runner,
    facts: RunFactsView,
    file_paths: Seq<Seq<char>>,
)
    requires
        facts.current_file == runner.ownership.generated_file@,
    ensures
        runner.verdict(facts, file_paths).info_messages.len() == 0,
        runner.verdict(facts, file_paths) == runner::scoped_result(
            if file_paths.len() == 0 {
                validator::project_errors(runner.project(), runner.rules())
            } else {
                runner.errors_in(facts, file_paths)
            },
        ),
        forall|i: int|
            0 <= i < validator::project_errors(runner.project(), runner.rules()).len() ==> !(
            #[trigger] validator::project_errors(runner.project(), runner.rules())[i] is CodeownershipFileIsStale),
        forall|i: int|
            0 <= i < runner.errors_in(facts, file_paths).len() ==> !(#[trigger] runner.errors_in(
                facts,
                file_paths,
            )[i] is CodeownershipFileIsStale),
{
    let errors = validator::project_errors(runner.project(), runner.rules());
    law_a_written_file_is_not_stale(runner);
    laws::law_whole_runs_judge_the_project_alone(runner.project(), runner.rules());
    assert(validator::infos(errors) =~= Seq::empty());
    assert(runner::whole_result(errors) =~= runner::scoped_result(errors));
    let paths = runner::supplied(runner.run_config@.project_root, facts, file_paths);
    let kept = runner::owned(runner.config@, paths);
    let some = runner.errors_in(facts, file_paths);
    assert forall|i: int| 0 <= i < some.len() implies !(#[trigger] some[i] is CodeownershipFileIsStale) by {
        assert(some.contains(some[i]));
        laws::law_scoped_runs_find_only_what_is_named(runner.project(), runner.rules(), kept, paths, some[i]);
    }
}

/// Naming every file that needs an owner, with every package in scope, gives the verdict on
/// the whole project, as long as the CODEOWNERS file is not stale.
pub proof fn law_every_path_gives_the_whole_verdict(runner: Runner, facts: RunFactsView, file_paths: Seq<Seq<char>>)
    requires
        file_paths.len() > 0,
        facts.current_file == runner.ownership.generated_file@,
        laws::paths_differ(runner.project().relative_files()),
        ({
            let paths = runner::supplied(runner.run_config@.project_root, facts, file_paths);
            &&& runner::owned(runner.config@, paths) == runner.project().relative_files()
            &&& forall|i: int|
                0 <= i < runner.project().packages.len() ==> runner.project().in_scope(
                    #[trigger] runner.project().packages[i],
                    paths,
                )
        }),
    ensures
        runner.verdict(facts, file_paths) == runner.verdict(facts, Seq::empty()),
{
    let paths = runner::supplied(runner.run_config@.project_root, facts, file_paths);
    let project = runner.project();
    let rules = runner.rules();
    law_a_written_file_is_not_stale(runner);
    laws::law_every_path_is_the_whole_project(project, rules, paths);
    laws::law_scoped_runs_have_no_infos(project, rules, project.relative_files(), paths);
    let errors = validator::project_errors(project, rules);
    assert(validator::infos(errors) =~= Seq::empty());
    assert(runner::whole_result(errors) =~= runner::scoped_result(errors));
}

/// A lookup fails exactly if several teams own the file.
pub proof fn law_a_lookup_fails_for_several_owners_only(owners: Seq<FileOwnerView>)
    ensures
        runner::owners_result(owners, false).has_errors() <==> owners.len() > 1,
    decreases owners.len(),
{
    lemma_many_owners(owners);
}

proof fn lemma_many_owners(owners: Seq<FileOwnerView>)
    ensures
        runner::many_owners(owners).len() == owners.len() + 1,
    decreases owners.len(),
{
    if owners.len() > 0 {
        lemma_many_owners(owners.drop_last());
    }
}

/// Only files that need an owner are reported for their owners, and every file that needs
/// one and is supplied is judged.
pub proof fn law_only_files_that_need_an_owner_are_judged(config: ConfigView, paths: Seq<Seq<char>>, p: Seq<char>)
    ensures
        runner::owned(config, paths).contains(p) <==> paths.contains(p) && runner::needs_owner(config, p),
{
    let needed = |q: Seq<char>| runner::needs_owner(config, q);
    if paths.contains(p) && runner::needs_owner(config, p) {
        let i = choose|i: int| 0 <= i < paths.len() && paths[i] == p;
        paths.lemma_filter_contains(needed, i);
    }
    if runner::owned(config, paths).contains(p) {
        paths.lemma_filter_contains_rev(needed, p);
        let kept = paths.filter(needed);
        let i = choose|i: int| 0 <= i < kept.len() && kept[i] == p;
        paths.lemma_filter_pred(needed, i);
    }
}

proof fn lemma_supplied_without(root: Seq<char>, facts: RunFactsView, file_paths: Seq<Seq<char>>, i: int)
    requires
        0 <= i < file_paths.len(),
    ensures
        runner::supplied(root, facts, file_paths).to_multiset() == match runner::supplied_path(
            root,
            facts,
            file_paths[i],
        ) {
            Some(p) => runner::supplied(root, facts, file_paths.remove(i)).to_multiset().insert(p),
            None => runner::supplied(root, facts, file_paths.remove(i)).to_multiset(),
        },
    decreases file_paths.len(),
{
    broadcast use vstd::multiset::group_multiset_axioms;

    let init = file_paths.drop_last();
    let less = file_paths.remove(i);
    let now = runner::supplied(root, facts, file_paths).to_multiset();
    runner::supplied(root, facts, init).to_multiset_ensures();
    if i == file_paths.len() - 1 {
        assert(less =~= init);
    } else {
        lemma_supplied_without(root, facts, init, i);
        assert(less.drop_last() =~= init.remove(i));
        assert(less.last() == file_paths.last());
        assert(init[i] == file_paths[i]);
        runner::supplied(root, facts, init.remove(i)).to_multiset_ensures();
    }
    match runner::supplied_path(root, facts, file_paths[i]) {
        Some(p) => {
            assert(now =~= runner::supplied(root, facts, less).to_multiset().insert(p));
        },
        None => {
            assert(now =~= runner::supplied(root, facts, less).to_multiset());
        },
    }
}

proof fn lemma_supplied_forgets_the_order(
    root: Seq<char>,
    facts: RunFactsView,
    a: Seq<Seq<char>>,
    b: Seq<Seq<char>>,
)
    requires
        a.to_multiset() == b.to_multiset(),
    ensures
        runner::supplied(root, facts, a).to_multiset() == runner::supplied(root, facts, b).to_multiset(),
    decreases a.len(),
{
    a.to_multiset_ensures();
    b.to_multiset_ensures();
    if a.len() > 0 {
        let p = a.last();
        let last = a.len() - 1;
        assert(a[last] == p);
        assert(a.contains(p));
        assert(b.to_multiset().count(p) > 0);
        assert(b.contains(p));
        let k = choose|k: int| 0 <= k < b.len() && b[k] == p;
        assert(a.remove(last) =~= a.drop_last());
        assert(a.remove(last).to_multiset() =~= b.remove(k).to_multiset());
        lemma_supplied_forgets_the_order(root, facts, a.remove(last), b.remove(k));
        lemma_supplied_without(root, facts, a, last);
        lemma_supplied_without(root, facts, b, k);
    } else {
        assert(a =~= b);
    }
}

proof fn lemma_owned_without(config: ConfigView, paths: Seq<Seq<char>>, i: int)
    requires
        0 <= i < paths.len(),
    ensures
        runner::owned(config, paths).to_multiset() == if runner::needs_owner(config, paths[i]) {
            runner::owned(config, paths.remove(i)).to_multiset().insert(paths[i])
        } else {
            runner::owned(config, paths.remove(i)).to_multiset()
        },
    decreases paths.len(),
{
    broadcast use vstd::multiset::group_multiset_axioms;

    reveal(Seq::filter);
    let init = paths.drop_last();
    let less = paths.remove(i);
    let now = runner::owned(config, paths).to_multiset();
    runner::owned(config, init).to_multiset_ensures();
    if i == paths.len() - 1 {
        assert(less =~= init);
    } else {
        lemma_owned_without(config, init, i);
        assert(less.drop_last() =~= init.remove(i));
        assert(less.last() == paths.last());
        assert(init[i] == paths[i]);
        runner::owned(config, init.remove(i)).to_multiset_ensures();
    }
    if runner::needs_owner(config, paths[i]) {
        assert(now =~= runner::owned(config, less).to_multiset().insert(paths[i]));
    } else {
        assert(now =~= runner::owned(config, less).to_multiset());
    }
}

proof fn lemma_owned_forgets_the_order(config: ConfigView, a: Seq<Seq<char>>, b: Seq<Seq<char>>)
    requires
        a.to_multiset() == b.to_multiset(),
    ensures
        runner::owned(config, a).to_multiset() == runner::owned(config, b).to_multiset(),
    decreases a.len(),
{
    a.to_multiset_ensures();
    b.to_multiset_ensures();
    if a.len() > 0 {
        let p = a.last();
        let last = a.len() - 1;
        assert(a[last] == p);
        assert(a.contains(p));
        assert(b.to_multiset().count(p) > 0);
        assert(b.contains(p));
        let k = choose|k: int| 0 <= k < b.len() && b[k] == p;
        assert(a.remove(last) =~= a.drop_last());
        assert(a.remove(last).to_multiset() =~= b.remove(k).to_multiset());
        lemma_owned_forgets_the_order(config, a.remove(last), b.remove(k));
        lemma_owned_without(config, a, last);
        lemma_owned_without(config, b, k);
    } else {
        assert(a =~= b);
    }
}

proof fn lemma_supplied_path_is_canonical(root: Seq<char>, facts: RunFactsView, file_path: Seq<char>, p: Seq<char>)
    requires
        root.len() > 0,
        facts.canonical_root is Some ==> (facts.canonical_root->0).len() > 0,
        runner::supplied_path(root, facts, file_path) == Some(p),
    ensures
        path_utils::spelled(path::components(p)) == p,
{
    if path_utils::project_relative_text(root, file_path) == Some(p) {
        path_utils::law_project_relative_is_canonical(root, file_path, p);
    } else {
        let home = path_utils::first_entry(facts.disk.resolved, path::parent_text(file_path)->0)->0;
        let found = path::join_text(home, path::file_name_text(file_path)->0);
        let base = match facts.canonical_root {
            Some(c) => c,
            None => root,
        };
        path_utils::law_project_relative_is_canonical(base, found, p);
    }
}

/// However the paths are given, those that are judged are spelled in one way.
pub proof fn law_judged_paths_are_spelled_alike(root: Seq<char>, facts: RunFactsView, file_paths: Seq<Seq<char>>)
    requires
        root.len() > 0,
        facts.canonical_root is Some ==> (facts.canonical_root->0).len() > 0,
    ensures
        laws::spelled_alike(runner::supplied(root, facts, file_paths)),
        forall|i: int|
            0 <= i < runner::supplied(root, facts, file_paths).len() ==> path_utils::spelled(
                path::components(#[trigger] runner::supplied(root, facts, file_paths)[i]),
            ) == runner::supplied(root, facts, file_paths)[i],
    decreases file_paths.len(),
{
    let now = runner::supplied(root, facts, file_paths);
    if file_paths.len() > 0 {
        let before = runner::supplied(root, facts, file_paths.drop_last());
        law_judged_paths_are_spelled_alike(root, facts, file_paths.drop_last());
        if let Some(p) = runner::supplied_path(root, facts, file_paths.last()) {
            lemma_supplied_path_is_canonical(root, facts, file_paths.last(), p);
        }
        assert forall|i: int| 0 <= i < now.len() implies path_utils::spelled(path::components(#[trigger] now[i]))
            == now[i] by {
            if i < before.len() {
                assert(now[i] == before[i]);
            }
        }
    }
}

/// The verdict on some paths does not depend on the order in which they are named.
pub proof fn law_the_order_of_paths_does_not_matter(
    runner: Runner,
    facts: RunFactsView,
    file_paths: Seq<Seq<char>>,
    other_paths: Seq<Seq<char>>,
)
    requires
        file_paths.to_multiset() == other_paths.to_multiset(),
        runner.run_config@.project_root.len() > 0,
        facts.canonical_root is Some ==> (facts.canonical_root->0).len() > 0,
    ensures
        runner.verdict(facts, file_paths) == runner.verdict(facts, other_paths),
{
    let root = runner.run_config@.project_root;
    let a = runner::supplied(root, facts, file_paths);
    let b = runner::supplied(root, facts, other_paths);
    file_paths.to_multiset_ensures();
    other_paths.to_multiset_ensures();
    lemma_supplied_forgets_the_order(root, facts, file_paths, other_paths);
    lemma_owned_forgets_the_order(runner.config@, a, b);
    law_judged_paths_are_spelled_alike(root, facts, file_paths);
    let kept = runner::owned(runner.config@, a);
    assert(laws::spelled_alike(kept)) by {
        assert forall|i: int, j: int|
            0 <= i < kept.len() && 0 <= j < kept.len() && path::same_path(#[trigger] kept[i], #[trigger] kept[j])
            implies kept[i] == kept[j] by {
            assert(kept.contains(kept[i]) && kept.contains(kept[j]));
            law_only_files_that_need_an_owner_are_judged(runner.config@, a, kept[i]);
            law_only_files_that_need_an_owner_are_judged(runner.config@, a, kept[j]);
            let k = choose|k: int| 0 <= k < a.len() && a[k] == kept[i];
            let l = choose|l: int| 0 <= l < a.len() && a[l] == kept[j];
            assert(path::same_path(a[k], a[l]));
        }
    }
    laws::law_the_order_of_paths_does_not_matter(
        runner.project(),
        runner.rules(),
        kept,
        runner::owned(runner.config@, b),
        a,
        b,
    );
    runner.errors_in(facts, file_paths).to_multiset_ensures();
    runner.errors_in(facts, other_paths).to_multiset_ensures();
}

} // verus!
