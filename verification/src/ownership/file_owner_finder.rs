//! The owners of a single file, according to the rules of the project.

use crate::ownership::mapper;
use crate::ownership::mapper::{OwnerMatcher, OwnerMatcherView, Source, SourceView, TeamName};
use vstd::prelude::*;
use vstd::string::*;

verus! {

/// A team that owns a file, with everything that makes it an owner.
#[derive(Debug)]
pub struct Owner {
    pub sources: Vec<Source>,
    pub team_name: TeamName,
}

/// An [`Owner`] as a value.
#[verifier::ext_equal]
pub struct OwnerView {
    pub sources: Seq<SourceView>,
    pub team_name: Seq<char>,
}

impl View for Owner {
    type V = OwnerView;

    open spec fn view(&self) -> OwnerView {
        OwnerView { sources: mapper::source_views(self.sources@), team_name: self.team_name@ }
    }
}

/// The owners of a list as values.
pub open spec fn owner_views(list: Seq<Owner>) -> Seq<OwnerView> {
    list.map_values(|o: Owner| o@)
}

/// A team's claim to a file, and what it rests on.
pub type Claim = (Seq<char>, SourceView);

/// A [`Claim`] in memory.
#[derive(Debug, PartialEq, Eq)]
pub struct TeamClaim {
    pub team_name: TeamName,
    pub source: Source,
}

impl View for TeamClaim {
    type V = Claim;

    open spec fn view(&self) -> Claim {
        (self.team_name@, self.source@)
    }
}

/// The claims of a list as values.
pub open spec fn claim_views(list: Seq<TeamClaim>) -> Seq<Claim> {
    list.map_values(|c: TeamClaim| c@)
}

/// `owners` with one more source for `team`: behind the sources that the team has, or, if it
/// has none yet, as a new owner at the end.
pub open spec fn with_source(owners: Seq<OwnerView>, team: Seq<char>, source: SourceView) -> Seq<OwnerView>
    decreases owners.len(),
{
    if owners.len() == 0 {
        seq![OwnerView { sources: seq![source], team_name: team }]
    } else if owners[0].team_name == team {
        seq![OwnerView { sources: owners[0].sources.push(source), team_name: team }] + owners.skip(1)
    } else {
        seq![owners[0]] + with_source(owners.skip(1), team, source)
    }
}

/// The owners that a list of claims makes, in the order in which each first claims.
pub open spec fn grouped(claims: Seq<Claim>) -> Seq<OwnerView>
    decreases claims.len(),
{
    if claims.len() == 0 {
        Seq::empty()
    } else {
        with_source(grouped(claims.drop_last()), claims.last().0, claims.last().1)
    }
}

/// The claims that the rules make to `path`, in the order of the rules.
pub open spec fn claims_to(rules: Seq<OwnerMatcherView>, path: Seq<char>) -> Seq<Claim>
    decreases rules.len(),
{
    if rules.len() == 0 {
        Seq::empty()
    } else {
        let before = claims_to(rules.drop_last(), path);
        match rules.last().owner(path) {
            Some(team) => before.push((team, rules.last().source())),
            None => before,
        }
    }
}

/// The claims that do not rest on a directory.
pub open spec fn direct_claims(claims: Seq<Claim>) -> Seq<Claim>
    decreases claims.len(),
{
    if claims.len() == 0 {
        Seq::empty()
    } else if claims.last().1 is Directory {
        direct_claims(claims.drop_last())
    } else {
        direct_claims(claims.drop_last()).push(claims.last())
    }
}

/// The claim that rests on the deepest directory, the first one among several.
pub open spec fn directory_claim(claims: Seq<Claim>) -> Option<Claim>
    decreases claims.len(),
{
    if claims.len() == 0 {
        None
    } else {
        let before = directory_claim(claims.drop_last());
        if claims.last().1 is Directory {
            overridden(before, claims.last())
        } else {
            before
        }
    }
}

/// What is left of a directory claim when another one is made: the deeper of the two.
pub open spec fn overridden(current: Option<Claim>, claim: Claim) -> Option<Claim> {
    match current {
        Some(c) => if c.1.depth() < claim.1.depth() {
            Some(claim)
        } else {
            current
        },
        None => Some(claim),
    }
}

/// The claims that count: of those that rest on a directory only the most specific one, and
/// that behind all others.
pub open spec fn effective_claims(claims: Seq<Claim>) -> Seq<Claim> {
    match directory_claim(claims) {
        Some(claim) => direct_claims(claims).push(claim),
        None => direct_claims(claims),
    }
}

/// The owners of `path` according to the rules.
pub open spec fn owners_of(rules: Seq<OwnerMatcherView>, path: Seq<char>) -> Seq<OwnerView> {
    grouped(effective_claims(claims_to(rules, path)))
}

proof fn lemma_with_source_at(owners: Seq<OwnerView>, team: Seq<char>, source: SourceView, i: int)
    requires
        0 <= i <= owners.len(),
        forall|j: int| 0 <= j < i ==> (#[trigger] owners[j]).team_name != team,
        i < owners.len() ==> owners[i].team_name == team,
    ensures
        i < owners.len() ==> with_source(owners, team, source) == owners.update(
            i,
            OwnerView { sources: owners[i].sources.push(source), team_name: team },
        ),
        i == owners.len() ==> with_source(owners, team, source) == owners.push(
            OwnerView { sources: seq![source], team_name: team },
        ),
    decreases owners.len(),
{
    let w = with_source(owners, team, source);
    if owners.len() == 0 {
        assert(w =~= owners.push(OwnerView { sources: seq![source], team_name: team }));
    } else if i == 0 {
        assert(w =~= owners.update(0, OwnerView { sources: owners[0].sources.push(source), team_name: team }));
    } else {
        let rest = owners.skip(1);
        assert forall|j: int| 0 <= j < i - 1 implies (#[trigger] rest[j]).team_name != team by {
            assert(rest[j] == owners[j + 1]);
        }
        lemma_with_source_at(rest, team, source, i - 1);
        if i < owners.len() {
            assert(w =~= owners.update(i, OwnerView { sources: owners[i].sources.push(source), team_name: team }));
        } else {
            assert(w =~= owners.push(OwnerView { sources: seq![source], team_name: team }));
        }
    }
}

/// Adds `source` to what makes `team_name` an owner.
pub fn push_source(owners: &mut Vec<Owner>, team_name: &TeamName, source: &Source)
    ensures
        owner_views(final(owners)@) == with_source(owner_views(old(owners)@), team_name@, source@),
{
    let ghost before = owner_views(owners@);
    let mut i: usize = 0;
    while i < owners.len() && owners[i].team_name != *team_name
        invariant
            i <= owners.len(),
            before == owner_views(owners@),
            forall|j: int| 0 <= j < i ==> (#[trigger] before[j]).team_name != team_name@,
        decreases owners.len() - i,
    {
        assert(before[i as int] == owners@[i as int]@);
        i = i + 1;
    }
    proof {
        assert(i < before.len() ==> before[i as int] == owners@[i as int]@);
        lemma_with_source_at(before, team_name@, source@, i as int);
    }
    if i < owners.len() {
        let mut sources = mapper::copy_sources(&owners[i].sources);
        let ghost old_sources = sources@;
        sources.push(source.clone());
        assert(mapper::source_views(sources@) =~= mapper::source_views(old_sources).push(source@));
        owners.set(i, Owner { sources, team_name: team_name.clone() });
        assert(owner_views(owners@) =~= before.update(i as int, owners@[i as int]@));
    } else {
        let mut sources: Vec<Source> = Vec::new();
        sources.push(source.clone());
        assert(mapper::source_views(sources@) =~= seq![source@]);
        owners.push(Owner { sources, team_name: team_name.clone() });
        assert(owner_views(owners@) =~= before.push(owners@.last()@));
    }
}

/// Keeps, of the directories that claim a file, the most specific one.
#[derive(Debug)]
pub struct DirectoryOverrider<'a> {
    specific_directory_owner: Option<(&'a TeamName, &'a Source)>,
}

impl<'a> View for DirectoryOverrider<'a> {
    type V = Option<Claim>;

    closed spec fn view(&self) -> Option<Claim> {
        match self.specific_directory_owner {
            Some((team_name, source)) => Some((team_name@, source@)),
            None => None,
        }
    }
}

impl<'a> Default for DirectoryOverrider<'a> {
    fn default() -> (r: DirectoryOverrider<'a>)
        ensures
            r@ is None,
    {
        DirectoryOverrider { specific_directory_owner: None }
    }
}

impl<'a> DirectoryOverrider<'a> {
    /// Takes one more claim into account.
    pub fn process(&mut self, team_name: &'a TeamName, source: &'a Source)
        ensures
            final(self)@ == overridden(old(self)@, (team_name@, source@)),
    {
        let deeper: bool = match self.specific_directory_owner {
            Some((_, current)) => current.len() < source.len(),
            None => true,
        };
        if deeper {
            self.specific_directory_owner = Some((team_name, source));
        }
    }

    /// The claim that is left.
    pub fn specific_directory_owner(&self) -> (r: Option<(&'a TeamName, &'a Source)>)
        ensures
            match r {
                Some((team_name, source)) => self@ == Some((team_name@, source@)),
                None => self@ is None,
            },
    {
        self.specific_directory_owner
    }
}

/// The owners that a list of claims makes, in the order in which each first claims.
pub fn group_claims(claims: &Vec<TeamClaim>) -> (r: Vec<Owner>)
    ensures
        owner_views(r@) == grouped(claim_views(claims@)),
{
    let mut owners: Vec<Owner> = Vec::new();
    let ghost all = claim_views(claims@);
    assert(all.take(0) =~= Seq::empty());
    assert(owner_views(owners@) =~= Seq::empty());
    for i in 0..claims.len()
        invariant
            all == claim_views(claims@),
            owner_views(owners@) == grouped(all.take(i as int)),
    {
        assert(all.take(i + 1).drop_last() =~= all.take(i as int));
        assert(all.take(i + 1).last() == claims@[i as int]@);
        push_source(&mut owners, &claims[i].team_name, &claims[i].source);
    }
    assert(all.take(claims@.len() as int) =~= all);
    owners
}

/// The owners that a list of claims makes when, of the directories, only the most specific
/// one counts.
pub fn owners_from_claims<'a>(claims: &'a Vec<TeamClaim>) -> (r: Vec<Owner>)
    ensures
        owner_views(r@) == grouped(effective_claims(claim_views(claims@))),
{
    let mut owners: Vec<Owner> = Vec::new();
    let mut overrider: DirectoryOverrider<'a> = DirectoryOverrider::default();
    let ghost all = claim_views(claims@);
    assert(all.take(0) =~= Seq::empty());
    assert(owner_views(owners@) =~= Seq::empty());
    for i in 0..claims.len()
        invariant
            all == claim_views(claims@),
            owner_views(owners@) == grouped(direct_claims(all.take(i as int))),
            overrider@ == directory_claim(all.take(i as int)),
    {
        proof {
            assert(all.take(i + 1).drop_last() =~= all.take(i as int));
            assert(all.take(i + 1).last() == claims@[i as int]@);
            let direct = direct_claims(all.take(i as int));
            assert(direct.push(claims@[i as int]@).drop_last() =~= direct);
        }
        let claim = &claims[i];
        if claim.source.is_directory() {
            overrider.process(&claim.team_name, &claim.source);
        } else {
            push_source(&mut owners, &claim.team_name, &claim.source);
        }
    }
    assert(all.take(claims@.len() as int) =~= all);
    if let Some((team_name, source)) = overrider.specific_directory_owner() {
        push_source(&mut owners, team_name, source);
        proof {
            let direct = direct_claims(all);
            assert(direct.push((team_name@, source@)).drop_last() =~= direct);
        }
    }
    owners
}

/// Finds the owners of files.
pub struct FileOwnerFinder<'a> {
    pub owner_matchers: &'a Vec<OwnerMatcher>,
}

impl<'a> FileOwnerFinder<'a> {
    /// The owners of `relative_path`. A file with no owner has an empty list.
    pub fn find(&self, relative_path: &str) -> (r: Vec<Owner>)
        ensures
            owner_views(r@) == owners_of(mapper::matcher_views(self.owner_matchers@), relative_path@),
    {
        let mut claims: Vec<TeamClaim> = Vec::new();
        let ghost rules = mapper::matcher_views(self.owner_matchers@);
        assert(rules.take(0) =~= Seq::empty());
        assert(claim_views(claims@) =~= Seq::empty());
        for i in 0..self.owner_matchers.len()
            invariant
                rules == mapper::matcher_views(self.owner_matchers@),
                claim_views(claims@) == claims_to(rules.take(i as int), relative_path@),
        {
            let ghost before = claims@;
            proof {
                assert(rules.take(i + 1).drop_last() =~= rules.take(i as int));
                assert(rules.take(i + 1).last() == self.owner_matchers@[i as int]@);
            }
            let (owner, source) = self.owner_matchers[i].owner_for(relative_path);
            if let Some(team_name) = owner {
                claims.push(TeamClaim { team_name: team_name.clone(), source: source.clone() });
                assert(claim_views(claims@) =~= claim_views(before).push((team_name@, source@)));
            }
        }
        assert(rules.take(self.owner_matchers@.len() as int) =~= rules);
        owners_from_claims(&claims)
    }
}

/// Whether a team stands in a list of owners.
pub open spec fn owns(owners: Seq<OwnerView>, team: Seq<char>) -> bool {
    exists|i: int| 0 <= i < owners.len() && (#[trigger] owners[i]).team_name == team
}

/// No team stands twice in a list of owners.
pub open spec fn teams_differ(owners: Seq<OwnerView>) -> bool {
    forall|i: int, j: int|
        0 <= i < j < owners.len() ==> (#[trigger] owners[i]).team_name != (#[trigger] owners[j]).team_name
}

/// Whether a team stands among the owners with this source.
pub open spec fn owns_by(owners: Seq<OwnerView>, claim: Claim) -> bool {
    exists|i: int|
        0 <= i < owners.len() && (#[trigger] owners[i]).team_name == claim.0 && owners[i].sources.contains(claim.1)
}

proof fn lemma_with_source(owners: Seq<OwnerView>, team: Seq<char>, source: SourceView)
    requires
        teams_differ(owners),
    ensures
        teams_differ(with_source(owners, team, source)),
        forall|claim: Claim|
            #[trigger] owns_by(with_source(owners, team, source), claim) <==> owns_by(owners, claim) || claim == (
                team,
                source,
            ),
{
    let i = find_team(owners, team, 0);
    lemma_with_source_at(owners, team, source, i);
    let w = with_source(owners, team, source);
    assert forall|claim: Claim| #[trigger] owns_by(w, claim) <==> owns_by(owners, claim) || claim == (team, source) by {
        if owns_by(owners, claim) {
            let k = choose|k: int|
                0 <= k < owners.len() && (#[trigger] owners[k]).team_name == claim.0 && owners[k].sources.contains(
                    claim.1,
                );
            let s = choose|s: int| 0 <= s < owners[k].sources.len() && owners[k].sources[s] == claim.1;
            assert(w[k].sources[s] == claim.1);
            assert(w[k].team_name == claim.0);
        }
        if claim == (team, source) {
            assert(w[i].sources.last() == source);
            assert(w[i].team_name == team);
        }
        if owns_by(w, claim) {
            let k = choose|k: int|
                0 <= k < w.len() && (#[trigger] w[k]).team_name == claim.0 && w[k].sources.contains(claim.1);
            let s = choose|s: int| 0 <= s < w[k].sources.len() && w[k].sources[s] == claim.1;
            if k != i {
                assert(w[k] == owners[k]);
            } else if i < owners.len() && s < owners[i].sources.len() {
                assert(owners[i].sources[s] == claim.1);
            }
        }
    }
}

/// Where a source is added: at the first owner of that name, or behind all owners.
pub proof fn lemma_with_source_place(owners: Seq<OwnerView>, team: Seq<char>, source: SourceView) -> (i: int)
    ensures
        0 <= i <= owners.len(),
        forall|j: int| 0 <= j < i ==> (#[trigger] owners[j]).team_name != team,
        i < owners.len() ==> owners[i].team_name == team && with_source(owners, team, source) == owners.update(
            i,
            OwnerView { sources: owners[i].sources.push(source), team_name: team },
        ),
        i == owners.len() ==> with_source(owners, team, source) == owners.push(
            OwnerView { sources: seq![source], team_name: team },
        ),
{
    let i = find_team(owners, team, 0);
    lemma_with_source_at(owners, team, source, i);
    i
}

/// The first position, from `i` on, at which a team stands.
proof fn find_team(owners: Seq<OwnerView>, team: Seq<char>, i: int) -> (r: int)
    requires
        0 <= i <= owners.len(),
        forall|j: int| 0 <= j < i ==> (#[trigger] owners[j]).team_name != team,
    ensures
        i <= r <= owners.len(),
        forall|j: int| 0 <= j < r ==> (#[trigger] owners[j]).team_name != team,
        r < owners.len() ==> owners[r].team_name == team,
    decreases owners.len() - i,
{
    if i == owners.len() || owners[i].team_name == team {
        i
    } else {
        find_team(owners, team, i + 1)
    }
}

/// Grouping claims by team names each team once, and keeps every claim and no other.
pub proof fn law_grouping_keeps_every_claim(claims: Seq<Claim>)
    ensures
        teams_differ(grouped(claims)),
        forall|claim: Claim| #[trigger] owns_by(grouped(claims), claim) <==> claims.contains(claim),
    decreases claims.len(),
{
    if claims.len() > 0 {
        let before = claims.drop_last();
        law_grouping_keeps_every_claim(before);
        lemma_with_source(grouped(before), claims.last().0, claims.last().1);
        assert forall|claim: Claim| #[trigger] owns_by(grouped(claims), claim) <==> claims.contains(claim) by {
            if before.contains(claim) {
                let i = choose|i: int| 0 <= i < before.len() && before[i] == claim;
                assert(claims[i] == claim);
            }
            if claims.contains(claim) {
                let i = choose|i: int| 0 <= i < claims.len() && claims[i] == claim;
                if i < before.len() {
                    assert(before[i] == claim);
                }
            }
            assert(claims[claims.len() - 1] == claims.last());
        }
    }
}

/// A file is claimed through one directory at most: one that makes a claim, and than which
/// no other claiming directory lies deeper.
pub proof fn law_most_specific_directory_wins(claims: Seq<Claim>, claim: Claim)
    requires
        claims.contains(claim),
        claim.1 is Directory,
    ensures
        directory_claim(claims) is Some,
        claims.contains(directory_claim(claims)->0),
        (directory_claim(claims)->0).1 is Directory,
        claim.1.depth() <= (directory_claim(claims)->0).1.depth(),
    decreases claims.len(),
{
    let before = claims.drop_last();
    let i = choose|i: int| 0 <= i < claims.len() && claims[i] == claim;
    assert(claims[claims.len() - 1] == claims.last());
    if i < before.len() {
        assert(before[i] == claim);
        law_most_specific_directory_wins(before, claim);
        let j = choose|j: int| 0 <= j < before.len() && before[j] == directory_claim(before)->0;
        assert(claims[j] == before[j]);
    } else {
        lemma_directory_claim(before);
        if directory_claim(before) is Some {
            let j = choose|j: int| 0 <= j < before.len() && before[j] == directory_claim(before)->0;
            assert(claims[j] == before[j]);
        }
    }
}

proof fn lemma_directory_claim(claims: Seq<Claim>)
    ensures
        directory_claim(claims) is Some ==> claims.contains(directory_claim(claims)->0)
            && (directory_claim(claims)->0).1 is Directory,
    decreases claims.len(),
{
    if claims.len() > 0 {
        let before = claims.drop_last();
        lemma_directory_claim(before);
        assert(claims[claims.len() - 1] == claims.last());
        if directory_claim(claims) is Some && directory_claim(claims) == directory_claim(before) {
            let j = choose|j: int| 0 <= j < before.len() && before[j] == directory_claim(before)->0;
            assert(claims[j] == before[j]);
        }
    }
}

/// No rule, no owner.
pub proof fn law_no_rules_no_owner(path: Seq<char>)
    ensures
        owners_of(Seq::empty(), path).len() == 0,
{
    let none = Seq::<OwnerMatcherView>::empty();
    assert(claims_to(none, path) =~= Seq::empty());
    assert(effective_claims(claims_to(none, path)) =~= Seq::empty());
}

} // verus!
