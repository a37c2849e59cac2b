//! The teams of a project, loaded once and shared until they are cleared.

use crate::lists;
use crate::outside::share;
use crate::path;
use crate::path::{is_same, join};
use crate::project;
use crate::project::{Team, TeamView};
use crate::text;
use std::sync::Arc;
use vstd::hash_map::StringHashMap;
use vstd::prelude::*;
use vstd::string::*;

verus! {

/// Teams under the names by which they are referred to.
pub struct TeamsByName {
    teams: StringHashMap<Team>,
}

impl View for TeamsByName {
    type V = Map<Seq<char>, TeamView>;

    closed spec fn view(&self) -> Map<Seq<char>, TeamView> {
        self.teams@.map_values(|t: Team| t@)
    }
}

impl TeamsByName {
    /// No teams.
    pub fn new() -> (r: TeamsByName)
        ensures
            r@ == Map::<Seq<char>, TeamView>::empty(),
    {
        let r = TeamsByName { teams: StringHashMap::new() };
        assert(r@ =~= Map::empty());
        r
    }

    /// Makes `team` the one that `name` refers to.
    pub fn insert(&mut self, name: String, team: Team)
        ensures
            final(self)@ == old(self)@.insert(name@, team@),
    {
        let ghost before = self@;
        let ghost key = name@;
        self.teams.insert(name, team);
        assert(self@ =~= before.insert(key, team@));
    }

    /// The team that `name` refers to.
    pub fn get(&self, name: &str) -> (r: Option<&Team>)
        ensures
            match r {
                Some(team) => self@.contains_key(name@) && self@[name@] == team@,
                None => !self@.contains_key(name@),
            },
    {
        self.teams.get(name)
    }
}

/// The teams of a list under their names and the names of their GitHub teams. Where two are
/// named alike, the later one counts.
pub open spec fn teams_map(teams: Seq<TeamView>) -> Map<Seq<char>, TeamView>
    decreases teams.len(),
{
    if teams.len() == 0 {
        Map::empty()
    } else {
        let team = teams.last();
        teams_map(teams.drop_last()).insert(team.name, team).insert(team.github_team, team)
    }
}

/// The teams of `teams` under their names and the names of their GitHub teams.
pub fn build_teams_by_name_map(teams: &Vec<Team>) -> (r: TeamsByName)
    ensures
        r@ == teams_map(project::team_views(teams@)),
{
    let mut map = TeamsByName::new();
    let ghost all = project::team_views(teams@);
    assert(all.take(0) =~= Seq::empty());
    for i in 0..teams.len()
        invariant
            all == project::team_views(teams@),
            map@ == teams_map(all.take(i as int)),
    {
        assert(all.take(i + 1).drop_last() =~= all.take(i as int));
        assert(all.take(i + 1).last() == teams@[i as int]@);
        let team = &teams[i];
        map.insert(team.name.clone(), team.clone());
        map.insert(team.github_team.clone(), team.clone());
    }
    assert(all.take(teams@.len() as int) =~= all);
    map
}

/// The teams of a project, in the order of their files and by name.
pub struct LoadedTeams {
    pub teams: Vec<Team>,
    pub teams_by_name: TeamsByName,
}

/// A [`LoadedTeams`] as a value.
#[verifier::ext_equal]
pub struct LoadedTeamsView {
    pub teams: Seq<TeamView>,
    pub teams_by_name: Map<Seq<char>, TeamView>,
}

impl View for LoadedTeams {
    type V = LoadedTeamsView;

    open spec fn view(&self) -> LoadedTeamsView {
        LoadedTeamsView { teams: project::team_views(self.teams@), teams_by_name: self.teams_by_name@ }
    }
}

/// The teams of a list, in their order and by name.
pub open spec fn loaded_view(teams: Seq<TeamView>) -> LoadedTeamsView {
    LoadedTeamsView { teams, teams_by_name: teams_map(teams) }
}

/// What the team files gave: the teams, and whether some file had to be left out.
pub struct TeamLoad {
    pub teams: Vec<Team>,
    pub skipped_team_file: bool,
}

/// What one glob for team files found: each file with its team, if the file could be read,
/// or what is wrong with the glob.
pub type GlobOutcome = Result<Vec<Option<Team>>, String>;

/// The teams of the files that could be read.
pub open spec fn readable_teams(files: Seq<Option<Team>>) -> Seq<TeamView>
    decreases files.len(),
{
    if files.len() == 0 {
        Seq::empty()
    } else {
        match files.last() {
            Some(team) => readable_teams(files.drop_last()).push(team@),
            None => readable_teams(files.drop_last()),
        }
    }
}

/// The teams that the globs found, one glob after the other.
pub open spec fn teams_found(found: Seq<GlobOutcome>) -> Seq<TeamView>
    decreases found.len(),
{
    if found.len() == 0 {
        Seq::empty()
    } else {
        match found.last() {
            Ok(files) => teams_found(found.drop_last()) + readable_teams(files@),
            Err(_) => teams_found(found.drop_last()),
        }
    }
}

/// Whether some glob found a file that could not be read.
pub open spec fn leaves_a_file_out(found: Seq<GlobOutcome>) -> bool {
    exists|i: int, j: int|
        0 <= i < found.len() && found[i] is Ok && 0 <= j < found[i]->Ok_0@.len() && (#[trigger] found[i]->Ok_0@[j]) is None
}

/// Whether `i` is the first glob that is not a valid one.
pub open spec fn is_first_bad_glob(found: Seq<GlobOutcome>, i: int) -> bool {
    &&& 0 <= i < found.len()
    &&& found[i] is Err
    &&& forall|j: int| 0 <= j < i ==> #[trigger] found[j] is Ok
}

/// `glob` in the project at `project_root`.
pub fn team_glob(project_root: &str, glob: &str) -> (r: String)
    ensures
        r@ == path::join_text(project_root@, glob@),
{
    join(project_root, glob)
}

/// The teams that the globs for team files found. A file that could not be read is left out;
/// a glob that is not valid is an error.
pub fn load_teams(found: Vec<GlobOutcome>) -> (r: Result<TeamLoad, String>)
    ensures
        match r {
            Ok(load) => {
                &&& forall|i: int| 0 <= i < found@.len() ==> #[trigger] found@[i] is Ok
                &&& project::team_views(load.teams@) == teams_found(found@)
                &&& load.skipped_team_file == leaves_a_file_out(found@)
                &&& load.teams@.len() == readable_files(found@)
                &&& forall|team: TeamView| #[trigger]
                    project::team_views(load.teams@).contains(team) <==> exists|i: int, j: int|
                        0 <= i < found@.len() && found@[i] is Ok && 0 <= j < found@[i]->Ok_0@.len() && (
                        #[trigger] found@[i]->Ok_0@[j]) is Some && (found@[i]->Ok_0@[j]->0)@ == team
            },
            Err(e) => exists|i: int| #[trigger] is_first_bad_glob(found@, i) && e@ == found@[i]->Err_0@,
        },
{
    let mut teams: Vec<Team> = Vec::new();
    let mut skipped_team_file: bool = false;
    assert(found@.take(0) =~= Seq::empty());
    assert(project::team_views(teams@) =~= Seq::empty());
    for i in 0..found.len()
        invariant
            forall|k: int| 0 <= k < i ==> #[trigger] found@[k] is Ok,
            project::team_views(teams@) == teams_found(found@.take(i as int)),
            skipped_team_file == leaves_a_file_out(found@.take(i as int)),
    {
        proof {
            assert(found@.take(i + 1).drop_last() =~= found@.take(i as int));
            assert(found@.take(i + 1).last() == found@[i as int]);
            if leaves_a_file_out(found@.take(i as int)) {
                let (k, j) = choose|k: int, j: int|
                    0 <= k < i && found@.take(i as int)[k] is Ok && 0 <= j < found@.take(i as int)[k]->Ok_0@.len() && (
                    #[trigger] found@.take(i as int)[k]->Ok_0@[j]) is None;
                assert(found@.take(i + 1)[k]->Ok_0@[j] is None);
            }
        }
        match &found[i] {
            Err(e) => {
                assert(is_first_bad_glob(found@, i as int));
                return Err(e.clone());
            },
            Ok(files) => {
                let ghost before = project::team_views(teams@);
                let ghost skipped = skipped_team_file;
                assert(files@.take(0) =~= Seq::empty());
                assert(before + readable_teams(Seq::empty()) =~= before);
                for j in 0..files.len()
                    invariant
                        project::team_views(teams@) == before + readable_teams(files@.take(j as int)),
                        skipped_team_file <==> skipped || (exists|k: int|
                            0 <= k < j && (#[trigger] files@[k]) is None),
                {
                    assert(files@.take(j + 1).drop_last() =~= files@.take(j as int));
                    assert(files@.take(j + 1).last() == files@[j as int]);
                    match &files[j] {
                        Some(team) => {
                            let ghost now = teams@;
                            teams.push(team.clone());
                            assert(project::team_views(teams@) =~= project::team_views(now).push(team@));
                        },
                        None => {
                            skipped_team_file = true;
                        },
                    }
                }
                proof {
                    assert(files@.take(files@.len() as int) =~= files@);
                    if exists|k: int| 0 <= k < files@.len() && (#[trigger] files@[k]) is None {
                        let k = choose|k: int| 0 <= k < files@.len() && (#[trigger] files@[k]) is None;
                        assert(found@.take(i + 1)[i as int]->Ok_0@[k] is None);
                    }
                    if leaves_a_file_out(found@.take(i + 1)) {
                        let (k, j) = choose|k: int, j: int|
                            0 <= k < i + 1 && found@.take(i + 1)[k] is Ok && 0 <= j < found@.take(
                                i + 1,
                            )[k]->Ok_0@.len() && (#[trigger] found@.take(i + 1)[k]->Ok_0@[j]) is None;
                        if k < i {
                            assert(found@.take(i as int)[k]->Ok_0@[j] is None);
                        } else {
                            assert(files@[j] is None);
                        }
                    }
                }
            },
        }
    }
    assert(found@.take(found@.len() as int) =~= found@);
    proof {
        law_globs_add_up(found@, Seq::empty());
        assert forall|team: TeamView| #[trigger]
            project::team_views(teams@).contains(team) <==> exists|i: int, j: int|
                0 <= i < found@.len() && found@[i] is Ok && 0 <= j < found@[i]->Ok_0@.len() && (
                #[trigger] found@[i]->Ok_0@[j]) is Some && (found@[i]->Ok_0@[j]->0)@ == team by {
            law_a_team_is_loaded_if_a_glob_found_its_file(found@, team);
        }
        assert(project::team_views(teams@).len() == teams@.len());
    }
    Ok(TeamLoad { teams, skipped_team_file })
}

/// What loaded teams are kept under: the project, and the globs for its team files.
pub type TeamCacheKey = (String, Vec<String>);

/// A [`TeamCacheKey`] as a value: projects are told apart by the components of their paths.
pub open spec fn key_view(key: TeamCacheKey) -> (Seq<Seq<char>>, Seq<Seq<char>>) {
    (path::components(key.0@), text::texts(key.1@))
}

/// The entries of a cache as values, the last one for each key.
pub open spec fn entries(list: Seq<(TeamCacheKey, Arc<LoadedTeams>)>) -> Map<
    (Seq<Seq<char>>, Seq<Seq<char>>),
    LoadedTeamsView,
>
    decreases list.len(),
{
    if list.len() == 0 {
        Map::empty()
    } else {
        entries(list.drop_last()).insert(key_view(list.last().0), list.last().1@)
    }
}

/// The teams that were loaded, by project and globs.
pub struct TeamCache {
    /// Counts the clears, so that a load that was running during one cannot undo it.
    generation: u64,
    loaded: Vec<(TeamCacheKey, Arc<LoadedTeams>)>,
}

/// A [`TeamCache`] as a value.
#[verifier::ext_equal]
pub struct TeamCacheView {
    pub generation: int,
    pub loaded: Map<(Seq<Seq<char>>, Seq<Seq<char>>), LoadedTeamsView>,
}

impl View for TeamCache {
    type V = TeamCacheView;

    closed spec fn view(&self) -> TeamCacheView {
        TeamCacheView { generation: self.generation as int, loaded: entries(self.loaded@) }
    }
}

impl Default for TeamCache {
    fn default() -> (r: TeamCache)
        ensures
            r@ == (TeamCacheView { generation: 0, loaded: Map::empty() }),
    {
        TeamCache { generation: 0, loaded: Vec::new() }
    }
}

/// Whether two keys are the same.
fn same_key(a: &TeamCacheKey, b: &TeamCacheKey) -> (r: bool)
    ensures
        r == (key_view(*a) == key_view(*b)),
{
    if a.1.len() != b.1.len() || !is_same(a.0.as_str(), b.0.as_str()) {
        assert(text::texts(a.1@).len() == a.1@.len());
        assert(text::texts(b.1@).len() == b.1@.len());
        return false;
    }
    for i in 0..a.1.len()
        invariant
            a.1@.len() == b.1@.len(),
            forall|j: int| 0 <= j < i ==> a.1@[j]@ == (#[trigger] b.1@[j])@,
    {
        if a.1[i] != b.1[i] {
            assert(text::texts(a.1@)[i as int] != text::texts(b.1@)[i as int]);
            return false;
        }
    }
    assert(text::texts(a.1@) =~= text::texts(b.1@));
    true
}

proof fn lemma_entry_replaced(
    list: Seq<(TeamCacheKey, Arc<LoadedTeams>)>,
    i: int,
    entry: (TeamCacheKey, Arc<LoadedTeams>),
)
    requires
        0 <= i < list.len(),
        key_view(list[i].0) == key_view(entry.0),
        forall|j: int| i < j < list.len() ==> key_view((#[trigger] list[j]).0) != key_view(entry.0),
    ensures
        entries(list.update(i, entry)) == entries(list).insert(key_view(entry.0), entry.1@),
    decreases list.len(),
{
    let now = list.update(i, entry);
    let init = list.drop_last();
    if i == list.len() - 1 {
        assert(now.drop_last() =~= init);
        assert(entries(now) =~= entries(list).insert(key_view(entry.0), entry.1@));
    } else {
        assert(now.drop_last() =~= init.update(i, entry));
        assert forall|j: int| i < j < init.len() implies key_view((#[trigger] init[j]).0) != key_view(entry.0) by {
            assert(init[j] == list[j]);
        }
        lemma_entry_replaced(init, i, entry);
        assert(now.last() == list.last());
        assert(list[list.len() - 1] == list.last());
        assert(entries(now) =~= entries(list).insert(key_view(entry.0), entry.1@));
    }
}

impl TeamCache {
    /// How often the cache was cleared.
    pub fn generation(&self) -> (r: u64)
        ensures
            r == self@.generation,
    {
        self.generation
    }

    /// Whether teams are kept under `key`.
    pub fn contains_key(&self, key: &TeamCacheKey) -> (r: bool)
        ensures
            r == self@.loaded.contains_key(key_view(*key)),
    {
        self.get(key).is_some()
    }

    /// The teams that are kept under `key`.
    pub fn get(&self, key: &TeamCacheKey) -> (r: Option<Arc<LoadedTeams>>)
        ensures
            r is Some <==> self@.loaded.contains_key(key_view(*key)),
            r matches Some(teams) ==> teams@ == self@.loaded[key_view(*key)],
    {
        let ghost k = key_view(*key);
        let mut i: usize = self.loaded.len();
        assert(self.loaded@.take(i as int) =~= self.loaded@);
        while i > 0
            invariant
                i <= self.loaded.len(),
                k == key_view(*key),
                entries(self.loaded@.take(i as int)).contains_key(k) <==> self@.loaded.contains_key(k),
                self@.loaded.contains_key(k) ==> entries(self.loaded@.take(i as int))[k] == self@.loaded[k],
            decreases i,
        {
            assert(self.loaded@.take(i as int).drop_last() =~= self.loaded@.take(i - 1));
            assert(self.loaded@.take(i as int).last() == self.loaded@[i - 1]);
            if same_key(&self.loaded[i - 1].0, key) {
                return Some(share(&self.loaded[i - 1].1));
            }
            i = i - 1;
        }
        None
    }
}

/// A cache after a load that began at `generation`: the teams are kept, unless the cache was
/// cleared since.
pub open spec fn after_caching(
    cache: TeamCacheView,
    key: (Seq<Seq<char>>, Seq<Seq<char>>),
    loaded: LoadedTeamsView,
    generation: int,
) -> TeamCacheView {
    if cache.generation == generation {
        TeamCacheView { loaded: cache.loaded.insert(key, loaded), ..cache }
    } else {
        cache
    }
}

/// A cache after a clear.
pub open spec fn after_clear(cache: TeamCacheView) -> TeamCacheView {
    TeamCacheView { generation: cache.generation + 1, loaded: Map::empty() }
}

/// Keeps the teams of a load, unless the cache was cleared since `generation`, when the
/// load began.
pub fn cache_teams(cache: &mut TeamCache, key: TeamCacheKey, loaded: Arc<LoadedTeams>, generation: u64)
    ensures
        final(cache)@ == after_caching(old(cache)@, key_view(key), loaded@, generation as int),
{
    if cache.generation != generation {
        return;
    }
    let ghost before = cache.loaded@;
    let ghost k = key_view(key);
    let mut i: usize = cache.loaded.len();
    while i > 0
        invariant
            i <= cache.loaded.len(),
            cache.loaded@ == before,
            cache.generation == old(cache).generation == generation,
            old(cache).loaded@ == before,
            k == key_view(key),
            forall|j: int| i <= j < before.len() ==> key_view((#[trigger] before[j]).0) != k,
        decreases i,
    {
        if same_key(&cache.loaded[i - 1].0, &key) {
            proof {
                lemma_entry_replaced(before, i - 1, (key, loaded));
            }
            cache.loaded.set(i - 1, (key, loaded));
            return;
        }
        i = i - 1;
    }
    cache.loaded.push((key, loaded));
    assert(cache.loaded@.drop_last() =~= before);
}

/// What a lookup begins with: the teams that are kept, or the generation at which a load
/// begins.
pub open spec fn begun(cache: TeamCacheView, key: (Seq<Seq<char>>, Seq<Seq<char>>)) -> Result<LoadedTeamsView, int> {
    if cache.loaded.contains_key(key) {
        Ok(cache.loaded[key])
    } else {
        Err(cache.generation)
    }
}

/// Begins a lookup: gives the teams that are kept under `key`, or, if there are none, the
/// generation at which a load begins.
pub fn begin_load(cache: &TeamCache, key: &TeamCacheKey) -> (r: Result<Arc<LoadedTeams>, u64>)
    ensures
        match r {
            Ok(teams) => begun(cache@, key_view(*key)) == Ok::<LoadedTeamsView, int>(teams@),
            Err(generation) => begun(cache@, key_view(*key)) == Err::<LoadedTeamsView, int>(generation as int),
        },
{
    match cache.get(key) {
        Some(teams) => Ok(teams),
        None => Err(cache.generation()),
    }
}

/// Whether a load that began at `generation` can end so: the teams are those that were found,
/// and they are kept if every team file could be read. A load that failed changes nothing.
pub open spec fn is_finished(
    before: TeamCacheView,
    key: (Seq<Seq<char>>, Seq<Seq<char>>),
    generation: int,
    load: Result<TeamLoad, String>,
    r: Result<Arc<LoadedTeams>, String>,
    after: TeamCacheView,
) -> bool {
    match (load, r) {
        (Ok(found), Ok(loaded)) => {
            &&& loaded@ == loaded_view(project::team_views(found.teams@))
            &&& after == after_load(before, key, generation, found.skipped_team_file, loaded@)
        },
        (Err(e), Err(said)) => said@ == e@ && after == before,
        _ => false,
    }
}

/// A cache after a load that began at `generation` and left out a file, or did not.
pub open spec fn after_load(
    cache: TeamCacheView,
    key: (Seq<Seq<char>>, Seq<Seq<char>>),
    generation: int,
    skipped_team_file: bool,
    loaded: LoadedTeamsView,
) -> TeamCacheView {
    if skipped_team_file {
        cache
    } else {
        after_caching(cache, key, loaded, generation)
    }
}

/// The teams of a load that began at `generation`. They are kept if every team file could be
/// read, so that a file that is put right takes effect at the next load.
pub fn finish_load(
    cache: &mut TeamCache,
    key: TeamCacheKey,
    generation: u64,
    load: Result<TeamLoad, String>,
) -> (r: Result<Arc<LoadedTeams>, String>)
    ensures
        is_finished(old(cache)@, key_view(key), generation as int, load, r, final(cache)@),
{
    let found: TeamLoad = match load {
        Ok(found) => found,
        Err(e) => {
            return Err(e);
        },
    };
    let teams_by_name = build_teams_by_name_map(&found.teams);
    let loaded = Arc::new(LoadedTeams { teams: found.teams, teams_by_name });
    if !found.skipped_team_file {
        cache_teams(cache, key, share(&loaded), generation);
    }
    Ok(loaded)
}

/// The teams under `key`: those that are kept, or, if there are none, those that `load` finds.
/// Where teams are kept, `load` is not called.
///
/// Whoever shares the cache with others begins and finishes the load in two steps, so that
/// the cache is free meanwhile.
pub fn loaded_teams<L>(cache: &mut TeamCache, key: TeamCacheKey, load: L) -> (r: Result<
    Arc<LoadedTeams>,
    String,
>) where L: FnOnce(&TeamCacheKey) -> Result<TeamLoad, String>
    requires
        begun(old(cache)@, key_view(key)) is Err ==> call_requires(load, (&key,)),
    ensures
        match begun(old(cache)@, key_view(key)) {
            Ok(kept) => r is Ok && r->Ok_0@ == kept && final(cache)@ == old(cache)@,
            Err(generation) => exists|found: Result<TeamLoad, String>| #[trigger]
                call_ensures(load, (&key,), found) && is_finished(
                    old(cache)@,
                    key_view(key),
                    generation,
                    found,
                    r,
                    final(cache)@,
                ),
        },
{
    let generation: u64 = match begin_load(cache, &key) {
        Ok(teams) => {
            return Ok(teams);
        },
        Err(generation) => generation,
    };
    let found = load(&key);
    assert(call_ensures(load, (&key,), found));
    finish_load(cache, key, generation, found)
}

/// Drops the teams that are kept, for callers whose team files change.
pub fn clear_team_cache(cache: &mut TeamCache)
    requires
        old(cache)@.generation < u64::MAX,
    ensures
        final(cache)@ == after_clear(old(cache)@),
{
    cache.generation = cache.generation + 1;
    cache.loaded = Vec::new();
}

/// The path under which the teams of a project are kept: absolute if it can be, so that a
/// relative path is not taken for another project when the working directory changes. An
/// empty path has no absolute form.
pub fn teams_cache_root(project_root: &str, working_directory: Option<&str>) -> (r: String)
    ensures
        r@ == match working_directory {
            Some(dir) => if project_root@.len() == 0 {
                project_root@
            } else {
                path::join_text(dir@, project_root@)
            },
            None => project_root@,
        },
{
    match working_directory {
        Some(dir) => {
            if project_root.is_empty() {
                project_root.to_owned()
            } else {
                join(dir, project_root)
            }
        },
        None => project_root.to_owned(),
    }
}

/// What can happen to a cache.
pub enum CacheStep {
    Clear,
    Load { key: (Seq<Seq<char>>, Seq<Seq<char>>), loaded: LoadedTeamsView, generation: int },
}

/// A cache after some steps.
pub open spec fn after_steps(cache: TeamCacheView, steps: Seq<CacheStep>) -> TeamCacheView
    decreases steps.len(),
{
    if steps.len() == 0 {
        cache
    } else {
        let before = after_steps(cache, steps.drop_last());
        match steps.last() {
            CacheStep::Clear => after_clear(before),
            CacheStep::Load { key, loaded, generation } => after_caching(before, key, loaded, generation),
        }
    }
}

proof fn lemma_generation_grows(cache: TeamCacheView, steps: Seq<CacheStep>)
    ensures
        after_steps(cache, steps).generation >= cache.generation,
    decreases steps.len(),
{
    if steps.len() > 0 {
        lemma_generation_grows(cache, steps.drop_last());
    }
}

/// A load that began before a clear never changes what is kept after it, whatever else
/// happens in between.
pub proof fn law_a_running_load_does_not_undo_a_clear(
    cache: TeamCacheView,
    steps: Seq<CacheStep>,
    key: (Seq<Seq<char>>, Seq<Seq<char>>),
    loaded: LoadedTeamsView,
)
    ensures
        after_clear(cache).loaded == Map::<(Seq<Seq<char>>, Seq<Seq<char>>), LoadedTeamsView>::empty(),
        ({
            let now = after_steps(after_clear(cache), steps);
            after_caching(now, key, loaded, cache.generation) == now
        }),
{
    lemma_generation_grows(after_clear(cache), steps);
}

/// Kept teams are kept until the next clear or the next load under the same key: no other
/// load touches them, and projects and lists of globs do not share theirs.
pub proof fn law_kept_teams_stay(
    cache: TeamCacheView,
    key: (Seq<Seq<char>>, Seq<Seq<char>>),
    loaded: LoadedTeamsView,
    steps: Seq<CacheStep>,
)
    requires
        forall|i: int| 0 <= i < steps.len() ==> (#[trigger] steps[i] is Load && steps[i]->key != key),
    ensures
        ({
            let now = after_steps(after_caching(cache, key, loaded, cache.generation), steps);
            now.loaded.contains_key(key) && now.loaded[key] == loaded
        }),
    decreases steps.len(),
{
    if steps.len() > 0 {
        let init = steps.drop_last();
        assert forall|i: int| 0 <= i < init.len() implies (#[trigger] init[i] is Load && init[i]->key != key) by {
            assert(init[i] == steps[i]);
        }
        law_kept_teams_stay(cache, key, loaded, init);
        assert(steps[steps.len() - 1] is Load && steps[steps.len() - 1]->key != key);
    }
}

/// Once teams are kept, a lookup never begins a load before the next clear, whatever else is
/// loaded meanwhile. It gives the teams that were kept, unless another load under the same
/// key, which must have begun before, was finished since.
pub proof fn law_kept_teams_are_given_until_a_clear(
    cache: TeamCacheView,
    key: (Seq<Seq<char>>, Seq<Seq<char>>),
    steps: Seq<CacheStep>,
)
    requires
        begun(cache, key) is Ok,
        forall|i: int| 0 <= i < steps.len() ==> #[trigger] steps[i] is Load,
    ensures
        begun(after_steps(cache, steps), key) is Ok,
        (forall|i: int| 0 <= i < steps.len() ==> (#[trigger] steps[i])->key != key) ==> begun(
            after_steps(cache, steps),
            key,
        ) == begun(cache, key),
        begun(after_clear(after_steps(cache, steps)), key) == Err::<LoadedTeamsView, int>(
            after_steps(cache, steps).generation + 1,
        ),
    decreases steps.len(),
{
    if steps.len() > 0 {
        let init = steps.drop_last();
        assert forall|i: int| 0 <= i < init.len() implies #[trigger] init[i] is Load by {
            assert(init[i] == steps[i]);
        }
        law_kept_teams_are_given_until_a_clear(cache, key, init);
        assert(steps[steps.len() - 1] is Load);
        if forall|i: int| 0 <= i < steps.len() ==> (#[trigger] steps[i])->key != key {
            assert forall|i: int| 0 <= i < init.len() implies (#[trigger] init[i])->key != key by {
                assert(init[i] == steps[i]);
            }
            assert(steps[steps.len() - 1]->key != key);
        }
    }
}

/// A lookup of teams: the key, and what a load would find by then.
pub struct TeamLookup {
    pub key: (Seq<Seq<char>>, Seq<Seq<char>>),
    pub loaded: LoadedTeamsView,
    pub skipped_team_file: bool,
}

/// What a lookup gives.
pub open spec fn looked_up(cache: TeamCacheView, lookup: TeamLookup) -> LoadedTeamsView {
    match begun(cache, lookup.key) {
        Ok(kept) => kept,
        Err(_) => lookup.loaded,
    }
}

/// A cache after some lookups, one after the other.
pub open spec fn after_lookups(cache: TeamCacheView, lookups: Seq<TeamLookup>) -> TeamCacheView
    decreases lookups.len(),
{
    if lookups.len() == 0 {
        cache
    } else {
        let before = after_lookups(cache, lookups.drop_last());
        let lookup = lookups.last();
        match begun(before, lookup.key) {
            Ok(_) => before,
            Err(generation) => after_load(before, lookup.key, generation, lookup.skipped_team_file, lookup.loaded),
        }
    }
}

/// Team files are loaded once: after a lookup that could read every team file, all lookups
/// under the same key give the same teams until the cache is cleared, whatever the files say
/// by then. After a clear a lookup gives what the files say.
pub proof fn law_teams_are_loaded_once(
    cache: TeamCacheView,
    first: TeamLookup,
    between: Seq<TeamLookup>,
    later: TeamLookup,
)
    requires
        !first.skipped_team_file,
        later.key == first.key,
    ensures
        ({
            let now = after_lookups(after_lookups(cache, seq![first]), between);
            &&& looked_up(now, later) == looked_up(cache, first)
            &&& looked_up(after_clear(now), later) == later.loaded
        }),
    decreases between.len(),
{
    let start = after_lookups(cache, seq![first]);
    assert(seq![first].drop_last() =~= Seq::empty());
    assert(after_lookups(cache, Seq::empty()) == cache);
    assert(seq![first].last() == first);
    assert(begun(start, first.key) == Ok::<LoadedTeamsView, int>(looked_up(cache, first)));
    if between.len() > 0 {
        law_teams_are_loaded_once(cache, first, between.drop_last(), later);
        lemma_lookups_keep(start, first.key, between);
    }
}

proof fn lemma_lookups_keep(cache: TeamCacheView, key: (Seq<Seq<char>>, Seq<Seq<char>>), lookups: Seq<TeamLookup>)
    requires
        begun(cache, key) is Ok,
    ensures
        begun(after_lookups(cache, lookups), key) == begun(cache, key),
    decreases lookups.len(),
{
    if lookups.len() > 0 {
        lemma_lookups_keep(cache, key, lookups.drop_last());
    }
}

/// Every team can be looked up by its name and by the name of its GitHub team, and a lookup
/// only ever gives a team that goes by the name that was asked for.
pub proof fn law_teams_are_found_by_name(teams: Seq<TeamView>, i: int, name: Seq<char>)
    ensures
        0 <= i < teams.len() ==> teams_map(teams).contains_key(teams[i].name) && teams_map(teams).contains_key(
            teams[i].github_team,
        ),
        teams_map(teams).contains_key(name) ==> exists|j: int|
            0 <= j < teams.len() && teams_map(teams)[name] == #[trigger] teams[j] && (teams[j].name == name
                || teams[j].github_team == name) && (forall|k: int|
                j < k < teams.len() ==> (#[trigger] teams[k]).name != name && teams[k].github_team != name),
    decreases teams.len(),
{
    if teams.len() > 0 {
        let init = teams.drop_last();
        let last = teams.len() - 1;
        law_teams_are_found_by_name(init, i, name);
        assert(teams[last] == teams.last());
        if i < last && i >= 0 {
            assert(init[i] == teams[i]);
        }
        if teams_map(teams).contains_key(name) {
            if teams[last].name == name || teams[last].github_team == name {
                assert(teams_map(teams)[name] == teams[last]);
            } else {
                let j = choose|j: int|
                    0 <= j < init.len() && teams_map(init)[name] == #[trigger] init[j] && (init[j].name == name
                        || init[j].github_team == name) && (forall|k: int|
                        j < k < init.len() ==> (#[trigger] init[k]).name != name && init[k].github_team != name);
                assert(teams[j] == init[j]);
                assert forall|k: int| j < k < teams.len() implies (#[trigger] teams[k]).name != name
                    && teams[k].github_team != name by {
                    if k < last {
                        assert(init[k] == teams[k]);
                    }
                }
            }
        }
    }
}

/// The loaded teams are those of all files that could be read, over all globs: glob after
/// glob, and within one in the order of its files.
pub proof fn law_the_teams_of_every_readable_file_are_loaded(found: Seq<GlobOutcome>)
    ensures
        teams_found(found) == found.flat_map(
            |outcome: GlobOutcome|
                match outcome {
                    Ok(files) => files@.filter(|f: Option<Team>| f is Some).map_values(|f: Option<Team>| (f->0)@),
                    Err(_) => Seq::empty(),
                },
        ),
    decreases found.len(),
{
    let f = |outcome: GlobOutcome|
        match outcome {
            Ok(files) => files@.filter(|f: Option<Team>| f is Some).map_values(|f: Option<Team>| (f->0)@),
            Err(_) => Seq::empty(),
        };
    lists::lemma_flat_map_step(found, f);
    if found.len() > 0 {
        law_the_teams_of_every_readable_file_are_loaded(found.drop_last());
        if let Ok(files) = found.last() {
            lemma_readable_teams(files@);
        } else {
            assert(teams_found(found.drop_last()) + Seq::empty() =~= teams_found(found.drop_last()));
        }
    }
}

proof fn lemma_readable_teams(files: Seq<Option<Team>>)
    ensures
        readable_teams(files) == files.filter(|f: Option<Team>| f is Some).map_values(|f: Option<Team>| (f->0)@),
    decreases files.len(),
{
    lists::lemma_filter_map_step(files, |f: Option<Team>| f is Some, |f: Option<Team>| (f->0)@);
    if files.len() > 0 {
        lemma_readable_teams(files.drop_last());
    }
}

/// A team is loaded exactly if some glob found a file of it that could be read.
pub proof fn law_a_team_is_loaded_if_a_glob_found_its_file(found: Seq<GlobOutcome>, team: TeamView)
    ensures
        teams_found(found).contains(team) <==> exists|i: int, j: int|
            0 <= i < found.len() && found[i] is Ok && 0 <= j < found[i]->Ok_0@.len() && (
            #[trigger] found[i]->Ok_0@[j]) is Some && (found[i]->Ok_0@[j]->0)@ == team,
{
    let readable = |f: Option<Team>| f is Some;
    let view = |f: Option<Team>| (f->0)@;
    let f = |outcome: GlobOutcome|
        match outcome {
            Ok(files) => files@.filter(|f: Option<Team>| f is Some).map_values(|f: Option<Team>| (f->0)@),
            Err(_) => Seq::empty(),
        };
    law_the_teams_of_every_readable_file_are_loaded(found);
    lists::lemma_flat_map_contains(found, f, team);
    if teams_found(found).contains(team) {
        let i = choose|i: int| 0 <= i < found.len() && f(#[trigger] found[i]).contains(team);
        let files = found[i]->Ok_0@;
        lists::lemma_filter_map_contains(files, readable, view, team);
        let j = choose|j: int| 0 <= j < files.len() && readable(#[trigger] files[j]) && view(files[j]) == team;
        assert(found[i]->Ok_0@[j] is Some);
    }
    if exists|i: int, j: int|
        0 <= i < found.len() && found[i] is Ok && 0 <= j < found[i]->Ok_0@.len() && (#[trigger] found[i]->Ok_0@[j]) is Some
            && (found[i]->Ok_0@[j]->0)@ == team {
        let (i, j) = choose|i: int, j: int|
            0 <= i < found.len() && found[i] is Ok && 0 <= j < found[i]->Ok_0@.len() && (
            #[trigger] found[i]->Ok_0@[j]) is Some && (found[i]->Ok_0@[j]->0)@ == team;
        let files = found[i]->Ok_0@;
        lists::lemma_filter_map_contains(files, readable, view, team);
        assert(readable(files[j]) && view(files[j]) == team);
        assert(f(found[i]).contains(team));
    }
}

/// How many files of a list of globs could be read.
pub open spec fn readable_files(found: Seq<GlobOutcome>) -> int
    decreases found.len(),
{
    if found.len() == 0 {
        0
    } else {
        readable_files(found.drop_last()) + match found.last() {
            Ok(files) => files@.filter(|f: Option<Team>| f is Some).len() as int,
            Err(_) => 0,
        }
    }
}

/// As many teams are loaded as files could be read, and globs can be taken one by one or
/// together: the teams of two lists of globs are those of the first and then those of the
/// second.
pub proof fn law_globs_add_up(found: Seq<GlobOutcome>, more: Seq<GlobOutcome>)
    ensures
        teams_found(found).len() == readable_files(found),
        teams_found(found + more) == teams_found(found) + teams_found(more),
        leaves_a_file_out(found + more) <==> leaves_a_file_out(found) || leaves_a_file_out(more),
    decreases found.len() + more.len(),
{
    lemma_count(found);
    lemma_concat(found, more);
    let all = found + more;
    if leaves_a_file_out(found) {
        let (i, j) = choose|i: int, j: int|
            0 <= i < found.len() && found[i] is Ok && 0 <= j < found[i]->Ok_0@.len() && (
            #[trigger] found[i]->Ok_0@[j]) is None;
        assert(all[i]->Ok_0@[j] is None);
    }
    if leaves_a_file_out(more) {
        let (i, j) = choose|i: int, j: int|
            0 <= i < more.len() && more[i] is Ok && 0 <= j < more[i]->Ok_0@.len() && (
            #[trigger] more[i]->Ok_0@[j]) is None;
        assert(all[found.len() + i]->Ok_0@[j] is None);
    }
    if leaves_a_file_out(all) {
        let (i, j) = choose|i: int, j: int|
            0 <= i < all.len() && all[i] is Ok && 0 <= j < all[i]->Ok_0@.len() && (#[trigger] all[i]->Ok_0@[j]) is None;
        if i < found.len() {
            assert(found[i]->Ok_0@[j] is None);
        } else {
            assert(more[i - found.len()]->Ok_0@[j] is None);
        }
    }
}

proof fn lemma_count(found: Seq<GlobOutcome>)
    ensures
        teams_found(found).len() == readable_files(found),
    decreases found.len(),
{
    if found.len() > 0 {
        lemma_count(found.drop_last());
        if let Ok(files) = found.last() {
            lemma_readable_teams(files@);
        }
    }
}

proof fn lemma_concat(found: Seq<GlobOutcome>, more: Seq<GlobOutcome>)
    ensures
        teams_found(found + more) == teams_found(found) + teams_found(more),
    decreases more.len(),
{
    if more.len() == 0 {
        assert(found + more =~= found);
        assert(teams_found(found) + teams_found(more) =~= teams_found(found));
    } else {
        lemma_concat(found, more.drop_last());
        assert((found + more).drop_last() =~= found + more.drop_last());
        assert((found + more).last() == more.last());
        assert(teams_found(found + more) =~= teams_found(found) + teams_found(more));
    }
}

/// A file is left out exactly if some glob found one that could not be read, and the first
/// glob that is not valid is the one with only valid ones before it.
pub proof fn law_what_is_left_out_and_what_is_wrong(found: Seq<GlobOutcome>, n: int)
    ensures
        leaves_a_file_out(found) <==> exists|i: int, j: int|
            0 <= i < found.len() && found[i] is Ok && 0 <= j < found[i]->Ok_0@.len() && (
            #[trigger] found[i]->Ok_0@[j]) is None,
        is_first_bad_glob(found, n) <==> 0 <= n < found.len() && found[n] is Err && (forall|j: int|
            0 <= j < n ==> #[trigger] found[j] is Ok),
{
}

/// Two keys are the same exactly if they name the same project, in whatever spelling, and
/// the same globs in the same order.
pub proof fn law_keys_are_told_apart_by_project_and_globs(a: TeamCacheKey, b: TeamCacheKey)
    ensures
        key_view(a) == key_view(b) <==> path::components(a.0@) == path::components(b.0@) && a.1@.len() == b.1@.len() && (
        forall|i: int| 0 <= i < a.1@.len() ==> (#[trigger] a.1@[i])@ == b.1@[i]@),
{
    let x = text::texts(a.1@);
    let y = text::texts(b.1@);
    assert(x.len() == a.1@.len() && y.len() == b.1@.len());
    if key_view(a) == key_view(b) {
        assert forall|i: int| 0 <= i < a.1@.len() implies (#[trigger] a.1@[i])@ == b.1@[i]@ by {
            assert(x[i] == y[i]);
        }
    }
    if a.1@.len() == b.1@.len() && (forall|i: int| 0 <= i < a.1@.len() ==> (#[trigger] a.1@[i])@ == b.1@[i]@) {
        assert(x =~= y);
    }
}

/// A load that could read every file and began at the present generation is given by the next
/// lookup; one that left a file out, or began at another generation, changes nothing.
pub proof fn law_only_complete_and_current_loads_are_kept(
    cache: TeamCacheView,
    key: (Seq<Seq<char>>, Seq<Seq<char>>),
    other: (Seq<Seq<char>>, Seq<Seq<char>>),
    generation: int,
    loaded: LoadedTeamsView,
)
    ensures
        after_load(cache, key, generation, true, loaded) == cache,
        generation != cache.generation ==> after_load(cache, key, generation, false, loaded) == cache,
        generation == cache.generation ==> {
            let after = after_load(cache, key, generation, false, loaded);
            &&& after.generation == cache.generation
            &&& begun(after, key) == Ok::<LoadedTeamsView, int>(loaded)
            &&& other != key ==> begun(after, other) == begun(cache, other)
        },
        begun(cache, key) matches Ok(kept) ==> cache.loaded.contains_key(key) && kept == cache.loaded[key],
        begun(cache, key) matches Err(g) ==> !cache.loaded.contains_key(key) && g == cache.generation,
{
}

/// A load ends as its files say: with their teams, by name as well, or with the error that
/// kept them from being read. The teams are kept under the key exactly if every file could be
/// read and the cache was not cleared since the load began; nothing else changes.
pub proof fn law_how_a_load_ends(
    before: TeamCacheView,
    key: (Seq<Seq<char>>, Seq<Seq<char>>),
    generation: int,
    load: Result<TeamLoad, String>,
    r: Result<Arc<LoadedTeams>, String>,
    after: TeamCacheView,
)
    requires
        is_finished(before, key, generation, load, r, after),
    ensures
        load is Ok <==> r is Ok,
        load is Err ==> r->Err_0@ == load->Err_0@ && after == before,
        load is Ok ==> {
            let teams = load->Ok_0.teams@.map_values(|t: Team| t@);
            &&& r->Ok_0@.teams == teams
            &&& r->Ok_0@.teams_by_name == teams_map(teams)
            &&& after.generation == before.generation
            &&& after.loaded == if load->Ok_0.skipped_team_file || generation != before.generation {
                before.loaded
            } else {
                before.loaded.insert(key, r->Ok_0@)
            }
        },
{
    if load is Ok {
        assert(project::team_views(load->Ok_0.teams@) =~= load->Ok_0.teams@.map_values(|t: Team| t@));
    }
}

} // verus!
