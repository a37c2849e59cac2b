//! What the rules of a project say of its files.

use crate::lists;
use crate::outside;
use crate::ownership::file_owner_finder;
use crate::ownership::file_owner_finder::{Claim, OwnerView};
use crate::ownership::mapper;
use crate::ownership::mapper::{Mapper, OwnerMatcherView, SourceView};
use crate::path;
use crate::text;
use vstd::prelude::*;
use vstd::string::*;

verus! {

/// For texts of ordinary length, a glob matches what the matcher says.
pub proof fn law_globs_of_ordinary_length(glob: Seq<char>, p: Seq<char>)
    requires
        vstd::utf8::encode_utf8(glob).len() < 0x8000_0000 || !glob.contains('{'),
        vstd::utf8::encode_utf8(glob).len() < 0xffff_ffff && vstd::utf8::encode_utf8(p).len() < 0xffff_fffe
            || !glob.contains('*'),
    ensures
        outside::glob_matches(glob, p) == outside::fast_glob_match(glob, p),
{
}

/// A list of globs matches a path exactly if one of its globs does, at whatever position.
pub proof fn law_a_list_of_globs_matches_by_any_of_them(globs: Seq<Seq<char>>, p: Seq<char>)
    ensures
        mapper::any_glob_matches(globs, p) <==> exists|i: int|
            0 <= i < globs.len() && outside::glob_matches(#[trigger] globs[i], p),
{
}

/// A rule with a glob attributes a path to its team exactly if the glob matches the path and
/// no subtracted glob does. It goes by its source.
pub proof fn law_a_glob_rule_attributes_what_it_matches(
    glob: Seq<char>,
    subtracted_globs: Seq<Seq<char>>,
    team_name: Seq<char>,
    source: SourceView,
    p: Seq<char>,
)
    ensures
        ({
            let rule = OwnerMatcherView::Glob { glob, subtracted_globs, team_name, source };
            &&& rule.source() == source
            &&& rule.owner(p) == if outside::glob_matches(glob, p) && (forall|j: int|
                0 <= j < subtracted_globs.len() ==> !outside::glob_matches(#[trigger] subtracted_globs[j], p)) {
                Some(team_name)
            } else {
                None
            }
        }),
{
}

/// A rule that names files one by one attributes a path to the team of the first entry that
/// names it, in whatever spelling, and to none if no entry does.
pub proof fn law_an_exact_rule_attributes_what_it_names(
    list: Seq<(Seq<char>, Seq<char>)>,
    source: SourceView,
    p: Seq<char>,
)
    ensures
        ({
            let rule = OwnerMatcherView::ExactMatches(list, source);
            &&& rule.source() == source
            &&& rule.owner(p) is None <==> forall|i: int|
                0 <= i < list.len() ==> path::components((#[trigger] list[i]).0) != path::components(p)
            &&& rule.owner(p) matches Some(team) ==> exists|i: int|
                0 <= i < list.len() && path::components((#[trigger] list[i]).0) == path::components(p) && list[i].1 == team
                    && (forall|j: int| 0 <= j < i ==> path::components((#[trigger] list[j]).0) != path::components(p))
        }),
{
    lemma_exact_match(list, p);
}

proof fn lemma_exact_match(list: Seq<(Seq<char>, Seq<char>)>, p: Seq<char>)
    ensures
        mapper::exact_match(list, p) is None <==> forall|i: int|
            0 <= i < list.len() ==> path::components((#[trigger] list[i]).0) != path::components(p),
        mapper::exact_match(list, p) matches Some(team) ==> exists|i: int|
            0 <= i < list.len() && path::components((#[trigger] list[i]).0) == path::components(p) && list[i].1 == team && (
            forall|j: int| 0 <= j < i ==> path::components((#[trigger] list[j]).0) != path::components(p)),
    decreases list.len(),
{
    if list.len() > 0 {
        let rest = list.skip(1);
        lemma_exact_match(rest, p);
        assert forall|i: int| 0 <= i < rest.len() implies #[trigger] rest[i] == list[i + 1] by {}
        if path::same_path(list[0].0, p) {
            assert(path::components(list[0].0) == path::components(p));
        } else {
            assert(path::components(list[0].0) != path::components(p));
            if mapper::exact_match(rest, p) is None {
                assert forall|i: int| 0 <= i < list.len() implies path::components((#[trigger] list[i]).0)
                    != path::components(p) by {
                    if i > 0 {
                        assert(rest[i - 1] == list[i]);
                    }
                }
            } else {
                let k = choose|k: int|
                    0 <= k < rest.len() && path::components((#[trigger] rest[k]).0) == path::components(p) && rest[k].1
                        == mapper::exact_match(rest, p)->0 && (forall|j: int|
                        0 <= j < k ==> path::components((#[trigger] rest[j]).0) != path::components(p));
                assert(list[k + 1] == rest[k]);
                assert forall|j: int| 0 <= j < k + 1 implies path::components((#[trigger] list[j]).0)
                    != path::components(p) by {
                    if j > 0 {
                        assert(rest[j - 1] == list[j]);
                    }
                }
            }
        }
    }
}

/// The rules of a project are all rules of all kinds of ownership, one kind after the other.
pub proof fn law_every_rule_of_every_kind_counts(mappers: Seq<Mapper>)
    ensures
        mapper::all_rules(mappers) == mappers.flat_map(
            |m: Mapper| m.owner_matchers@.map_values(|r: mapper::OwnerMatcher| r@),
        ),
        forall|i: int, j: int|
            0 <= i < mappers.len() && 0 <= j < mappers[i].owner_matchers@.len() ==> mapper::all_rules(mappers).contains(
                (#[trigger] mappers[i].owner_matchers@[j])@,
            ),
    decreases mappers.len(),
{
    let f = |m: Mapper| m.owner_matchers@.map_values(|r: mapper::OwnerMatcher| r@);
    lemma_all_rules(mappers);
    assert forall|i: int, j: int|
        0 <= i < mappers.len() && 0 <= j < mappers[i].owner_matchers@.len() implies mapper::all_rules(mappers).contains(
        (#[trigger] mappers[i].owner_matchers@[j])@,
    ) by {
        let r = mappers[i].owner_matchers@[j]@;
        lists::lemma_flat_map_contains(mappers, f, r);
        assert(f(mappers[i])[j] == r);
        assert(f(mappers[i]).contains(r));
    }
}

proof fn lemma_all_rules(mappers: Seq<Mapper>)
    ensures
        mapper::all_rules(mappers) == mappers.flat_map(
            |m: Mapper| m.owner_matchers@.map_values(|r: mapper::OwnerMatcher| r@),
        ),
    decreases mappers.len(),
{
    let f = |m: Mapper| m.owner_matchers@.map_values(|r: mapper::OwnerMatcher| r@);
    lists::lemma_flat_map_step(mappers, f);
    if mappers.len() > 0 {
        lemma_all_rules(mappers.drop_last());
        assert(f(mappers.last()) =~= mapper::matcher_views(mappers.last().owner_matchers@));
    }
}

/// How deep a directory lies is how many separators its path holds.
pub proof fn law_depth_counts_separators(dir: Seq<char>)
    ensures
        SourceView::Directory(dir).depth() == dir.filter(|c: char| c == '/').len(),
    decreases dir.len(),
{
    reveal(Seq::filter);
    if dir.len() > 0 {
        law_depth_counts_separators(dir.drop_last());
    }
}

/// The claims to a path are those of the rules that attribute it to a team, in the order of
/// the rules.
pub proof fn law_every_rule_that_attributes_a_path_claims_it(rules: Seq<OwnerMatcherView>, p: Seq<char>)
    ensures
        file_owner_finder::claims_to(rules, p) == rules.filter(
            |r: OwnerMatcherView| r.owner(p) is Some,
        ).map_values(|r: OwnerMatcherView| (r.owner(p)->0, r.source())),
    decreases rules.len(),
{
    let kept = |r: OwnerMatcherView| r.owner(p) is Some;
    let claim = |r: OwnerMatcherView| (r.owner(p)->0, r.source());
    lists::lemma_filter_map_step(rules, kept, claim);
    if rules.len() > 0 {
        law_every_rule_that_attributes_a_path_claims_it(rules.drop_last(), p);
    }
}

/// All claims that do not rest on a directory count, in their order, and behind them at most
/// one that does.
pub proof fn law_only_directories_are_overridden(claims: Seq<Claim>)
    ensures
        ({
            let direct = claims.filter(|c: Claim| !(c.1 is Directory));
            let counted = file_owner_finder::effective_claims(claims);
            &&& direct.is_prefix_of(counted)
            &&& counted.len() <= direct.len() + 1
            &&& counted.len() == direct.len() <==> forall|i: int|
                0 <= i < claims.len() ==> !((#[trigger] claims[i]).1 is Directory)
        }),
{
    lemma_direct_claims(claims);
    lemma_directory_claim_exists(claims);
}

proof fn lemma_direct_claims(claims: Seq<Claim>)
    ensures
        file_owner_finder::direct_claims(claims) == claims.filter(|c: Claim| !(c.1 is Directory)),
    decreases claims.len(),
{
    reveal(Seq::filter);
    if claims.len() > 0 {
        lemma_direct_claims(claims.drop_last());
    } else {
        assert(file_owner_finder::direct_claims(claims) =~= claims.filter(|c: Claim| !(c.1 is Directory)));
    }
}

proof fn lemma_directory_claim_exists(claims: Seq<Claim>)
    ensures
        file_owner_finder::directory_claim(claims) is None <==> forall|i: int|
            0 <= i < claims.len() ==> !((#[trigger] claims[i]).1 is Directory),
    decreases claims.len(),
{
    if claims.len() > 0 {
        let init = claims.drop_last();
        lemma_directory_claim_exists(init);
        assert(claims[claims.len() - 1] == claims.last());
        assert forall|i: int| 0 <= i < init.len() implies #[trigger] init[i] == claims[i] by {}
        if file_owner_finder::directory_claim(init) is Some {
            let i = choose|i: int| 0 <= i < init.len() && (#[trigger] init[i]).1 is Directory;
            assert(claims[i].1 is Directory);
        } else if !(claims.last().1 is Directory) {
            assert forall|i: int| 0 <= i < claims.len() implies !((#[trigger] claims[i]).1 is Directory) by {
                if i < init.len() {
                    assert(init[i] == claims[i]);
                }
            }
        }
    }
}

/// Whether a rule that goes by a directory decides for a path: no other such rule that
/// attributes the path goes by a deeper directory, and none before it by one as deep.
pub open spec fn decides(rules: Seq<OwnerMatcherView>, p: Seq<char>, i: int) -> bool {
    forall|j: int|
        0 <= j < rules.len() && (#[trigger] rules[j]).owner(p) is Some && rules[j].source() is Directory
            ==> rules[j].source().depth() <= rules[i].source().depth() && (j < i ==> rules[j].source().depth()
            < rules[i].source().depth())
}

proof fn lemma_direct_by_rules(rules: Seq<OwnerMatcherView>, p: Seq<char>, claim: Claim)
    ensures
        file_owner_finder::direct_claims(file_owner_finder::claims_to(rules, p)).contains(claim) <==> exists|i: int|
            0 <= i < rules.len() && (#[trigger] rules[i]).owner(p) == Some(claim.0) && rules[i].source() == claim.1 && !(
            claim.1 is Directory),
{
    let all = file_owner_finder::claims_to(rules, p);
    let kept = |r: OwnerMatcherView| r.owner(p) is Some;
    let made = |r: OwnerMatcherView| (r.owner(p)->0, r.source());
    let direct = |c: Claim| !(c.1 is Directory);
    law_every_rule_that_attributes_a_path_claims_it(rules, p);
    lemma_direct_claims(all);
    lists::lemma_filter_map_contains(rules, kept, made, claim);
    if all.contains(claim) && direct(claim) {
        let i = choose|i: int| 0 <= i < all.len() && all[i] == claim;
        all.lemma_filter_contains(direct, i);
    }
    if all.filter(direct).contains(claim) {
        let some = all.filter(direct);
        let k = choose|k: int| 0 <= k < some.len() && some[k] == claim;
        all.lemma_filter_pred(direct, k);
        all.lemma_filter_contains_rev(direct, claim);
    }
    if all.contains(claim) {
        let i = choose|i: int| 0 <= i < rules.len() && kept(#[trigger] rules[i]) && made(rules[i]) == claim;
        assert(rules[i].owner(p) == Some(claim.0) && rules[i].source() == claim.1);
    }
    if exists|i: int|
        0 <= i < rules.len() && (#[trigger] rules[i]).owner(p) == Some(claim.0) && rules[i].source() == claim.1 && !(
        claim.1 is Directory) {
        let i = choose|i: int|
            0 <= i < rules.len() && (#[trigger] rules[i]).owner(p) == Some(claim.0) && rules[i].source() == claim.1 && !(
            claim.1 is Directory);
        assert(kept(rules[i]) && made(rules[i]) == claim);
    }
}

proof fn lemma_directory_by_rules(rules: Seq<OwnerMatcherView>, p: Seq<char>) -> (r: int)
    ensures
        match file_owner_finder::directory_claim(file_owner_finder::claims_to(rules, p)) {
            None => forall|j: int|
                0 <= j < rules.len() ==> !((#[trigger] rules[j]).owner(p) is Some && rules[j].source() is Directory),
            Some(claim) => 0 <= r < rules.len() && rules[r].owner(p) == Some(claim.0) && rules[r].source() == claim.1
                && claim.1 is Directory && decides(rules, p, r),
        },
    decreases rules.len(),
{
    if rules.len() == 0 {
        0
    } else {
        let init = rules.drop_last();
        let last = rules.len() - 1;
        let rule = rules.last();
        let r = lemma_directory_by_rules(init, p);
        assert(rules[last] == rule);
        assert forall|j: int| 0 <= j < init.len() implies #[trigger] init[j] == rules[j] by {}
        let before = file_owner_finder::claims_to(init, p);
        let now = file_owner_finder::claims_to(rules, p);
        if rule.owner(p) is Some {
            assert(now.drop_last() =~= before);
            assert(now.last() == (rule.owner(p)->0, rule.source()));
        }
        let was = file_owner_finder::directory_claim(before);
        let is = file_owner_finder::directory_claim(now);
        if rule.owner(p) is Some && rule.source() is Directory && (was is None || (was->0).1.depth()
            < rule.source().depth()) {
            assert forall|j: int|
                0 <= j < rules.len() && (#[trigger] rules[j]).owner(p) is Some && rules[j].source() is Directory implies
                rules[j].source().depth() <= rule.source().depth() && (j < last ==> rules[j].source().depth()
                < rule.source().depth()) by {
                if j < last {
                    assert(init[j] == rules[j]);
                }
            }
            assert(decides(rules, p, last));
            last
        } else {
            if was is Some {
                assert(init[r] == rules[r]);
                assert forall|j: int|
                    0 <= j < rules.len() && (#[trigger] rules[j]).owner(p) is Some && rules[j].source() is Directory
                    implies rules[j].source().depth() <= rules[r].source().depth() && (j < r
                    ==> rules[j].source().depth() < rules[r].source().depth()) by {
                    if j < last {
                        assert(init[j] == rules[j]);
                    }
                }
                assert(decides(rules, p, r));
            } else {
                assert forall|j: int| 0 <= j < rules.len() implies !((#[trigger] rules[j]).owner(p) is Some
                    && rules[j].source() is Directory) by {
                    if j < last {
                        assert(init[j] == rules[j]);
                    }
                }
            }
            r
        }
    }
}

/// A team owns a path by a source exactly if a rule with that source attributes the path to
/// the team; of the rules that go by a directory, only the one that decides counts. No other
/// rule is left out, whatever it goes by.
pub proof fn law_owners_are_those_of_the_rules(rules: Seq<OwnerMatcherView>, p: Seq<char>, team: Seq<char>, source: SourceView)
    ensures
        file_owner_finder::owns_by(file_owner_finder::owners_of(rules, p), (team, source)) <==> exists|i: int|
            0 <= i < rules.len() && (#[trigger] rules[i]).owner(p) == Some(team) && rules[i].source() == source && (
            source is Directory ==> decides(rules, p, i)),
{
    let all = file_owner_finder::claims_to(rules, p);
    let counted = file_owner_finder::effective_claims(all);
    let direct = file_owner_finder::direct_claims(all);
    let claim = (team, source);
    file_owner_finder::law_grouping_keeps_every_claim(counted);
    assert(file_owner_finder::owns_by(file_owner_finder::owners_of(rules, p), claim) <==> counted.contains(claim));
    lemma_direct_by_rules(rules, p, claim);
    let r = lemma_directory_by_rules(rules, p);
    let directory = file_owner_finder::directory_claim(all);
    assert(counted.contains(claim) <==> direct.contains(claim) || directory == Some(claim)) by {
        if direct.contains(claim) {
            let k = choose|k: int| 0 <= k < direct.len() && direct[k] == claim;
            assert(counted[k] == claim);
        }
        if directory == Some(claim) {
            assert(counted[direct.len() as int] == claim);
        }
        if counted.contains(claim) {
            let k = choose|k: int| 0 <= k < counted.len() && counted[k] == claim;
            if k < direct.len() {
                assert(direct[k] == claim);
            }
        }
    }
    if exists|i: int|
        0 <= i < rules.len() && (#[trigger] rules[i]).owner(p) == Some(team) && rules[i].source() == source && (
        source is Directory ==> decides(rules, p, i)) {
        let i = choose|i: int|
            0 <= i < rules.len() && (#[trigger] rules[i]).owner(p) == Some(team) && rules[i].source() == source && (
            source is Directory ==> decides(rules, p, i));
        if source is Directory {
            assert(rules[i].owner(p) is Some && rules[i].source() is Directory);
            assert(directory is Some);
            assert(rules[r].owner(p) is Some && rules[r].source() is Directory);
            assert(r == i);
        }
    }
}

/// A path has an owner exactly if some rule attributes it to a team.
pub proof fn law_an_attributed_path_has_an_owner(rules: Seq<OwnerMatcherView>, p: Seq<char>)
    ensures
        file_owner_finder::owners_of(rules, p).len() > 0 <==> exists|i: int|
            0 <= i < rules.len() && (#[trigger] rules[i]).owner(p) is Some,
{
    let owners = file_owner_finder::owners_of(rules, p);
    let r = lemma_directory_by_rules(rules, p);
    if exists|i: int| 0 <= i < rules.len() && (#[trigger] rules[i]).owner(p) is Some {
        let i = choose|i: int| 0 <= i < rules.len() && (#[trigger] rules[i]).owner(p) is Some;
        let j = if rules[i].source() is Directory { r } else { i };
        law_owners_are_those_of_the_rules(rules, p, rules[j].owner(p)->0, rules[j].source());
        assert(rules[j].owner(p) == Some(rules[j].owner(p)->0));
        assert(file_owner_finder::owns_by(owners, (rules[j].owner(p)->0, rules[j].source())));
    }
    if owners.len() > 0 {
        law_owners_have_sources(file_owner_finder::effective_claims(file_owner_finder::claims_to(rules, p)));
        let claim = (owners[0].team_name, owners[0].sources[0]);
        assert(owners[0].sources.contains(claim.1));
        assert(file_owner_finder::owns_by(owners, claim));
        law_owners_are_those_of_the_rules(rules, p, claim.0, claim.1);
    }
}

/// A path has several owners exactly if two rules attribute it to different teams and, if
/// they go by a directory, decide.
pub proof fn law_several_owners_come_from_several_rules(rules: Seq<OwnerMatcherView>, p: Seq<char>)
    ensures
        file_owner_finder::owners_of(rules, p).len() > 1 <==> exists|i: int, j: int|
            0 <= i < rules.len() && 0 <= j < rules.len() && (#[trigger] rules[i]).owner(p) is Some && (
            #[trigger] rules[j]).owner(p) is Some && rules[i].owner(p) != rules[j].owner(p) && (
            rules[i].source() is Directory ==> decides(rules, p, i)) && (rules[j].source() is Directory ==> decides(
                rules,
                p,
                j,
            )),
{
    let claims = file_owner_finder::effective_claims(file_owner_finder::claims_to(rules, p));
    let owners = file_owner_finder::owners_of(rules, p);
    file_owner_finder::law_grouping_keeps_every_claim(claims);
    if owners.len() > 1 {
        law_owners_have_sources(claims);
        let a = (owners[0].team_name, owners[0].sources[0]);
        let b = (owners[1].team_name, owners[1].sources[0]);
        assert(owners[0].sources.contains(a.1) && owners[1].sources.contains(b.1));
        assert(file_owner_finder::owns_by(owners, a));
        assert(file_owner_finder::owns_by(owners, b));
        law_owners_are_those_of_the_rules(rules, p, a.0, a.1);
        law_owners_are_those_of_the_rules(rules, p, b.0, b.1);
        let i = choose|i: int|
            0 <= i < rules.len() && (#[trigger] rules[i]).owner(p) == Some(a.0) && rules[i].source() == a.1 && (
            a.1 is Directory ==> decides(rules, p, i));
        let j = choose|j: int|
            0 <= j < rules.len() && (#[trigger] rules[j]).owner(p) == Some(b.0) && rules[j].source() == b.1 && (
            b.1 is Directory ==> decides(rules, p, j));
        assert(owners[0].team_name != owners[1].team_name);
        assert(rules[i].owner(p) != rules[j].owner(p));
    }
    if exists|i: int, j: int|
        0 <= i < rules.len() && 0 <= j < rules.len() && (#[trigger] rules[i]).owner(p) is Some && (
        #[trigger] rules[j]).owner(p) is Some && rules[i].owner(p) != rules[j].owner(p) && (
        rules[i].source() is Directory ==> decides(rules, p, i)) && (rules[j].source() is Directory ==> decides(
            rules,
            p,
            j,
        )) {
        let (i, j) = choose|i: int, j: int|
            0 <= i < rules.len() && 0 <= j < rules.len() && (#[trigger] rules[i]).owner(p) is Some && (
            #[trigger] rules[j]).owner(p) is Some && rules[i].owner(p) != rules[j].owner(p) && (
            rules[i].source() is Directory ==> decides(rules, p, i)) && (rules[j].source() is Directory ==> decides(
                rules,
                p,
                j,
            ));
        let a = (rules[i].owner(p)->0, rules[i].source());
        let b = (rules[j].owner(p)->0, rules[j].source());
        assert(rules[i].owner(p) == Some(a.0) && rules[j].owner(p) == Some(b.0));
        law_owners_are_those_of_the_rules(rules, p, a.0, a.1);
        law_owners_are_those_of_the_rules(rules, p, b.0, b.1);
        assert(file_owner_finder::owns_by(owners, a));
        assert(file_owner_finder::owns_by(owners, b));
        let x = choose|x: int|
            0 <= x < owners.len() && (#[trigger] owners[x]).team_name == a.0 && owners[x].sources.contains(a.1);
        let y = choose|y: int|
            0 <= y < owners.len() && (#[trigger] owners[y]).team_name == b.0 && owners[y].sources.contains(b.1);
        assert(owners[x].team_name != owners[y].team_name);
    }
}

/// Every owner has something that makes it one.
pub proof fn law_owners_have_sources(claims: Seq<Claim>)
    ensures
        forall|i: int|
            0 <= i < file_owner_finder::grouped(claims).len() ==> (#[trigger] file_owner_finder::grouped(
                claims,
            )[i]).sources.len() > 0,
{
    let groups = file_owner_finder::grouped(claims);
    law_groups_hold_the_claims_of_a_team(claims);
    assert forall|i: int| 0 <= i < groups.len() implies (#[trigger] groups[i]).sources.len() > 0 by {
        let names = claims.map_values(|c: Claim| c.0);
        let team = groups[i].team_name;
        let mine = |c: Claim| c.0 == team;
        let source = |c: Claim| c.1;
        text::law_different_texts(names, 0);
        assert(text::distinct(names)[i] == team);
        assert(text::distinct(names).contains(team));
        let k = choose|k: int| 0 <= k < names.len() && names[k] == team;
        lists::lemma_filter_map_contains(claims, mine, source, claims[k].1);
        assert(mine(claims[k]) && source(claims[k]) == claims[k].1);
        assert(groups[i].sources.contains(claims[k].1));
    }
}

/// Claims are grouped by team, in the order in which the teams first claim, and each team
/// has all its sources in the order of its claims.
pub proof fn law_groups_hold_the_claims_of_a_team(claims: Seq<Claim>)
    ensures
        ({
            let groups = file_owner_finder::grouped(claims);
            &&& groups.map_values(|o: OwnerView| o.team_name) == text::distinct(claims.map_values(|c: Claim| c.0))
            &&& forall|i: int|
                0 <= i < groups.len() ==> (#[trigger] groups[i]).sources == claims.filter(
                    |c: Claim| c.0 == groups[i].team_name,
                ).map_values(|c: Claim| c.1)
        }),
    decreases claims.len(),
{
    let groups = file_owner_finder::grouped(claims);
    let names = claims.map_values(|c: Claim| c.0);
    let team_names = groups.map_values(|o: OwnerView| o.team_name);
    if claims.len() == 0 {
        assert(team_names =~= text::distinct(names));
    } else {
        let init = claims.drop_last();
        let before = file_owner_finder::grouped(init);
        let (team, source) = claims.last();
        law_groups_hold_the_claims_of_a_team(init);
        file_owner_finder::law_grouping_keeps_every_claim(init);
        let old_names = before.map_values(|o: OwnerView| o.team_name);
        assert(names.drop_last() =~= init.map_values(|c: Claim| c.0));
        assert(names.last() == team);
        let k = file_owner_finder::lemma_with_source_place(before, team, source);
        if k < before.len() {
            assert(old_names[k] == team);
            assert(old_names.contains(team));
            assert(team_names =~= old_names);
        } else {
            if old_names.contains(team) {
                let j = choose|j: int| 0 <= j < old_names.len() && old_names[j] == team;
                assert(before[j].team_name == team);
            }
            assert(team_names =~= old_names.push(team));
        }
        assert forall|i: int| 0 <= i < groups.len() implies (#[trigger] groups[i]).sources == claims.filter(
            |c: Claim| c.0 == groups[i].team_name,
        ).map_values(|c: Claim| c.1) by {
            let name = groups[i].team_name;
            let mine = |c: Claim| c.0 == name;
            let of = |c: Claim| c.1;
            lists::lemma_filter_map_step(claims, mine, of);
            if i == k {
                if k < before.len() {
                    assert(before[i].sources == init.filter(mine).map_values(of));
                    assert(groups[i].sources == before[i].sources.push(source));
                } else {
                    assert(groups[i].sources =~= seq![source]);
                    lemma_no_claims_of(init, name);
                    assert(Seq::<SourceView>::empty().push(source) =~= seq![source]);
                }
            } else {
                assert(groups[i] == before[i]);
                if name == team {
                    if k < before.len() {
                        assert(before[i].team_name == before[k].team_name);
                    }
                }
            }
        }
    }
}

proof fn lemma_no_claims_of(claims: Seq<Claim>, team: Seq<char>)
    requires
        forall|i: int|
            0 <= i < file_owner_finder::grouped(claims).len() ==> (#[trigger] file_owner_finder::grouped(
                claims,
            )[i]).team_name != team,
    ensures
        claims.filter(|c: Claim| c.0 == team).map_values(|c: Claim| c.1) == Seq::<SourceView>::empty(),
{
    let groups = file_owner_finder::grouped(claims);
    let mine = |c: Claim| c.0 == team;
    let of = |c: Claim| c.1;
    let some = claims.filter(mine).map_values(of);
    file_owner_finder::law_grouping_keeps_every_claim(claims);
    if some.len() > 0 {
        lists::lemma_filter_map_contains(claims, mine, of, some[0]);
        assert(some.contains(some[0]));
        let i = choose|i: int| 0 <= i < claims.len() && mine(#[trigger] claims[i]) && of(claims[i]) == some[0];
        assert(claims.contains(claims[i]));
        assert(file_owner_finder::owns_by(groups, claims[i]));
        let k = choose|k: int|
            0 <= k < groups.len() && (#[trigger] groups[k]).team_name == claims[i].0 && groups[k].sources.contains(
                claims[i].1,
            );
        assert(groups[k].team_name == team);
    }
    assert(some =~= Seq::<SourceView>::empty());
}

} // verus!
