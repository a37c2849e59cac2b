//! The owners of a single file, found without building the whole project.

use crate::config::{Config, ConfigView};
use crate::order;
use crate::order::{SortKey, sort_order};
use crate::outside;
use crate::outside::glob_match;
use crate::ownership;
use crate::ownership::file_owner_finder;
use crate::ownership::file_owner_finder::{Claim, Owner, OwnerView, TeamClaim, group_claims};
use crate::ownership::mapper;
use crate::ownership::mapper::{Source, SourceView, copy_sources, glob_list_matches};
use crate::ownership::team_cache::{LoadedTeams, LoadedTeamsView, TeamsByName};
use crate::ownership::{FileOwner, FileOwnerView};
use crate::path;
use crate::path::{ancestors, components_of, is_normal_component, is_same, join};
use crate::path_utils;
use crate::path_utils::{relative_to, relative_to_buf};
use crate::project;
use crate::project::{JavascriptPackage, Team, TeamView};
use crate::project_file_builder;
use crate::project_file_builder::build_project_file_without_cache;
use crate::text;
use crate::text::{chars_of, has_text, trim};
use vstd::prelude::*;
use vstd::string::*;

pub use crate::ownership::team_cache::clear_team_cache;

verus! {

/// What was found of the manifest of a Ruby package.
#[derive(Debug)]
pub enum RubyManifest {
    Missing,
    /// It could not be read, or it contradicts itself.
    Rejected,
    /// It was read, and names this owner.
    Read(Option<String>),
}

/// A [`RubyManifest`] as a value.
#[verifier::ext_equal]
pub enum RubyManifestView {
    Missing,
    Rejected,
    Read(Option<Seq<char>>),
}

impl View for RubyManifest {
    type V = RubyManifestView;

    open spec fn view(&self) -> RubyManifestView {
        match self {
            RubyManifest::Missing => RubyManifestView::Missing,
            RubyManifest::Rejected => RubyManifestView::Rejected,
            RubyManifest::Read(owner) => RubyManifestView::Read(project::text_option(*owner)),
        }
    }
}

/// What was found in a directory.
#[derive(Debug)]
pub struct DirectoryFacts {
    pub path: String,
    /// The contents of its `.codeowner` file, if there is one that can be read.
    pub codeowner: Option<String>,
    /// Its `package.yml`.
    pub ruby_package: RubyManifest,
    /// Its `package.json`, if there is one, or why it could not be read.
    pub javascript_package: Option<Result<JavascriptPackage, String>>,
}

/// A [`DirectoryFacts`] as a value.
#[verifier::ext_equal]
pub struct DirectoryFactsView {
    pub path: Seq<char>,
    pub codeowner: Option<Seq<char>>,
    pub ruby_package: RubyManifestView,
    pub javascript_package: Option<Result<Option<Seq<char>>, Seq<char>>>,
}

/// The outcome of reading the manifest of a JavaScript package as a value: the owner that it
/// names.
pub open spec fn parsed_view(parsed: Result<JavascriptPackage, String>) -> Result<Option<Seq<char>>, Seq<char>> {
    match parsed {
        Ok(package) => Ok(package@),
        Err(e) => Err(e@),
    }
}

impl View for DirectoryFacts {
    type V = DirectoryFactsView;

    open spec fn view(&self) -> DirectoryFactsView {
        DirectoryFactsView {
            path: self.path@,
            codeowner: project::text_option(self.codeowner),
            ruby_package: self.ruby_package@,
            javascript_package: match self.javascript_package {
                Some(parsed) => Some(parsed_view(parsed)),
                None => None,
            },
        }
    }
}

/// The facts of a list as values.
pub open spec fn facts_views(list: Seq<DirectoryFacts>) -> Seq<DirectoryFactsView> {
    list.map_values(|f: DirectoryFacts| f@)
}

/// What is known of a directory, if something was found in it.
pub open spec fn facts_of(list: Seq<DirectoryFactsView>, dir: Seq<char>) -> Option<DirectoryFactsView>
    decreases list.len(),
{
    if list.len() == 0 {
        None
    } else if path::same_path(list[0].path, dir) {
        Some(list[0])
    } else {
        facts_of(list.skip(1), dir)
    }
}

/// What is known of `dir`, if something was found in it.
fn find_facts<'a>(list: &'a Vec<DirectoryFacts>, dir: &str) -> (r: Option<&'a DirectoryFacts>)
    ensures
        match r {
            Some(facts) => facts_of(facts_views(list@), dir@) == Some(facts@),
            None => facts_of(facts_views(list@), dir@) is None,
        },
{
    let ghost all = facts_views(list@);
    assert(all.skip(0) =~= all);
    for i in 0..list.len()
        invariant
            all == facts_views(list@),
            facts_of(all, dir@) == facts_of(all.skip(i as int), dir@),
    {
        assert(all.skip(i as int)[0] == list@[i as int]@);
        assert(all.skip(i as int).skip(1) =~= all.skip(i + 1));
        if is_same(list[i].path.as_str(), dir) {
            return Some(&list[i]);
        }
    }
    assert(all.skip(list@.len() as int) =~= Seq::empty());
    None
}

/// Where a file lies, relative to the project.
pub open spec fn relative_file(root: Seq<char>, file_path: Seq<char>) -> Seq<char> {
    path_utils::relative_text(root, path::join_text(root, file_path))
}

/// The directories in which the owner of a file may be named: those above the file, from the
/// innermost one up to the project.
pub open spec fn searched(root: Seq<char>, relative: Seq<char>) -> Seq<Seq<char>> {
    path::directories_above(path::join_text(root, relative), root)
}

/// The directories in which the owner of `file_path` may be named.
pub fn searched_directories(project_root: &str, file_path: &str) -> (r: Vec<String>)
    ensures
        text::texts(r@) == searched(project_root@, relative_file(project_root@, file_path@)),
{
    let absolute = join(project_root, file_path);
    let relative = relative_to(project_root, absolute.as_str());
    ancestors(join(project_root, relative).as_str(), project_root)
}

/// The team that a file names in its first line.
pub fn read_top_of_file_team(path: &str, first_line: Option<&str>) -> (r: Option<String>)
    ensures
        project::text_option(r) == project_file_builder::annotated_team(
            match first_line {
                Some(line) => Some(line@),
                None => None,
            },
        ),
{
    build_project_file_without_cache(path, first_line).owner
}

/// The claim that the `.codeowner` file of a directory makes, if it names a team.
pub open spec fn codeowner_claim(
    root: Seq<char>,
    dir: Seq<char>,
    teams: Map<Seq<char>, TeamView>,
    facts: Seq<DirectoryFactsView>,
) -> Option<Claim> {
    match facts_of(facts, dir) {
        Some(found) => match found.codeowner {
            Some(contents) => if teams.contains_key(text::trimmed(contents)) {
                Some(
                    (
                        teams[text::trimmed(contents)].name,
                        SourceView::Directory(path_utils::relative_text(root, dir)),
                    ),
                )
            } else {
                None
            },
            None => None,
        },
        None => None,
    }
}

/// The most specific of the claims that directories make.
pub open spec fn specific_directory(
    root: Seq<char>,
    dirs: Seq<Seq<char>>,
    teams: Map<Seq<char>, TeamView>,
    facts: Seq<DirectoryFactsView>,
) -> Option<Claim>
    decreases dirs.len(),
{
    if dirs.len() == 0 {
        None
    } else {
        let before = specific_directory(root, dirs.drop_last(), teams, facts);
        match codeowner_claim(root, dirs.last(), teams, facts) {
            Some(claim) => file_owner_finder::overridden(before, claim),
            None => before,
        }
    }
}

/// An optional claim as a value.
pub open spec fn claim_option(claim: Option<TeamClaim>) -> Option<Claim> {
    match claim {
        Some(c) => Some(c@),
        None => None,
    }
}

/// The claim of the most specific directory above a file whose `.codeowner` file names a
/// team.
pub fn most_specific_directory_owner(
    project_root: &str,
    relative_file_path: &str,
    teams_by_name: &TeamsByName,
    directories: &Vec<DirectoryFacts>,
) -> (r: Option<TeamClaim>)
    ensures
        claim_option(r) == specific_directory(
            project_root@,
            searched(project_root@, relative_file_path@),
            teams_by_name@,
            facts_views(directories@),
        ),
{
    let dirs = ancestors(join(project_root, relative_file_path).as_str(), project_root);
    let ghost all = text::texts(dirs@);
    let ghost facts = facts_views(directories@);
    let mut best: Option<TeamClaim> = None;
    assert(all.take(0) =~= Seq::empty());
    for i in 0..dirs.len()
        invariant
            all == text::texts(dirs@),
            facts == facts_views(directories@),
            claim_option(best) == specific_directory(project_root@, all.take(i as int), teams_by_name@, facts),
    {
        assert(all.take(i + 1).drop_last() =~= all.take(i as int));
        assert(all.take(i + 1).last() == dirs@[i as int]@);
        let dir = dirs[i].as_str();
        if let Some(found) = find_facts(directories, dir) {
            if let Some(contents) = &found.codeowner {
                if let Some(team) = teams_by_name.get(trim(contents.as_str())) {
                    let source = Source::Directory(relative_to(project_root, dir).to_owned());
                    let deeper: bool = match &best {
                        None => true,
                        Some(existing) => source.len() > existing.source.len(),
                    };
                    if deeper {
                        best = Some(TeamClaim { team_name: team.name.clone(), source });
                    }
                }
            }
        }
    }
    assert(all.take(dirs@.len() as int) =~= all);
    best
}

/// The owner that the manifest of a JavaScript package names.
pub open spec fn javascript_owner(parsed: Result<Option<Seq<char>>, Seq<char>>) -> Result<Seq<char>, Seq<char>> {
    match parsed {
        Ok(Some(owner)) => Ok(owner),
        Ok(None) => Err("Missing owner"@),
        Err(e) => Err(e),
    }
}

/// The owner that the manifest of a JavaScript package names.
pub fn read_js_package_owner(parsed: &Result<JavascriptPackage, String>) -> (r: Result<String, String>)
    ensures
        outside::outcome_view(r) == javascript_owner(parsed_view(*parsed)),
{
    match parsed {
        Err(e) => Err(e.clone()),
        Ok(package) => {
            if let Some(metadata) = &package.metadata {
                if let Some(owner) = &metadata.owner {
                    return Ok(owner.clone());
                }
            }
            Err("Missing owner".to_owned())
        },
    }
}

/// What the search for a package learns from one directory.
#[verifier::ext_equal]
pub enum PackageStepView {
    /// The directory is a package, and this is its claim.
    Found(Claim),
    /// The directory is a package whose manifest is not valid: nobody owns the file by a package.
    Stop,
    /// The directory says nothing.
    Next,
}

/// A [`PackageStepView`] in memory.
pub enum PackageStep {
    Found(TeamClaim),
    Stop,
    Next,
}

impl View for PackageStep {
    type V = PackageStepView;

    open spec fn view(&self) -> PackageStepView {
        match self {
            PackageStep::Found(claim) => PackageStepView::Found(claim@),
            PackageStep::Stop => PackageStepView::Stop,
            PackageStep::Next => PackageStepView::Next,
        }
    }
}

/// The claim of `team` by the manifest `manifest` of the package in the directory `dir`.
pub open spec fn package_claim(team: TeamView, dir: Seq<char>, manifest: Seq<char>) -> Claim {
    (team.name, SourceView::Package(path::join_text(dir, manifest), dir + "/**/**"@))
}

/// What a Ruby package in a directory tells. Only a directory that the configuration gives
/// as a place for such packages, which `in_place` says, is one.
pub open spec fn ruby_step(
    in_place: bool,
    relative_dir: Seq<char>,
    teams: Map<Seq<char>, TeamView>,
    manifest: RubyManifestView,
) -> PackageStepView {
    if !in_place {
        PackageStepView::Next
    } else {
        match manifest {
            RubyManifestView::Rejected => PackageStepView::Stop,
            RubyManifestView::Read(Some(owner)) => if teams.contains_key(owner) {
                PackageStepView::Found(package_claim(teams[owner], relative_dir, "package.yml"@))
            } else {
                PackageStepView::Next
            },
            _ => PackageStepView::Next,
        }
    }
}

/// What a JavaScript package in a directory tells. Only a directory that the configuration
/// gives as a place for such packages, which `in_place` says, is one.
pub open spec fn javascript_step(
    in_place: bool,
    relative_dir: Seq<char>,
    teams: Map<Seq<char>, TeamView>,
    parsed: Option<Result<Option<Seq<char>>, Seq<char>>>,
) -> PackageStepView {
    if !in_place {
        PackageStepView::Next
    } else {
        match parsed {
            Some(manifest) => match javascript_owner(manifest) {
                Ok(owner) => if teams.contains_key(owner) {
                    PackageStepView::Found(package_claim(teams[owner], relative_dir, "package.json"@))
                } else {
                    PackageStepView::Next
                },
                Err(_) => PackageStepView::Next,
            },
            None => PackageStepView::Next,
        }
    }
}

/// What the search for a package learns from what was found in a directory: a Ruby package
/// comes first.
pub open spec fn directory_step(
    config: ConfigView,
    relative_dir: Seq<char>,
    teams: Map<Seq<char>, TeamView>,
    found: DirectoryFactsView,
) -> PackageStepView {
    match ruby_step(
        mapper::any_glob_matches(config.ruby_package_paths, relative_dir),
        relative_dir,
        teams,
        found.ruby_package,
    ) {
        PackageStepView::Next => javascript_step(
            mapper::any_glob_matches(config.javascript_package_paths, relative_dir),
            relative_dir,
            teams,
            found.javascript_package,
        ),
        step => step,
    }
}

/// What the search for a package learns from one directory.
pub open spec fn package_step(
    root: Seq<char>,
    config: ConfigView,
    dir: Seq<char>,
    teams: Map<Seq<char>, TeamView>,
    facts: Seq<DirectoryFactsView>,
) -> PackageStepView {
    match facts_of(facts, dir) {
        None => PackageStepView::Next,
        Some(found) => directory_step(config, path_utils::relative_text(root, dir), teams, found),
    }
}

/// The claim of the first package among `dirs` that settles the search.
pub open spec fn nearest_package(
    root: Seq<char>,
    config: ConfigView,
    dirs: Seq<Seq<char>>,
    teams: Map<Seq<char>, TeamView>,
    facts: Seq<DirectoryFactsView>,
) -> Option<Claim>
    decreases dirs.len(),
{
    if dirs.len() == 0 {
        None
    } else {
        match package_step(root, config, dirs[0], teams, facts) {
            PackageStepView::Found(claim) => Some(claim),
            PackageStepView::Stop => None,
            PackageStepView::Next => nearest_package(root, config, dirs.skip(1), teams, facts),
        }
    }
}

/// The claim of `team` by the manifest `manifest` of the package in the directory `dir`.
fn claim_package(team: &Team, dir: &str, manifest: &str) -> (r: TeamClaim)
    ensures
        r@ == package_claim(team@, dir@, manifest@),
{
    let mut glob = dir.to_owned();
    glob.append("/**/**");
    TeamClaim { team_name: team.name.clone(), source: Source::Package(join(dir, manifest), glob) }
}

/// What a Ruby package in a directory tells.
pub fn try_ruby_package(
    in_place: bool,
    relative_dir: &str,
    teams_by_name: &TeamsByName,
    manifest: &RubyManifest,
) -> (r: PackageStep)
    ensures
        r@ == ruby_step(in_place, relative_dir@, teams_by_name@, manifest@),
{
    if !in_place {
        return PackageStep::Next;
    }
    match manifest {
        RubyManifest::Missing => PackageStep::Next,
        // Validation rejects this package, so an enclosing one does not own the file.
        RubyManifest::Rejected => PackageStep::Stop,
        RubyManifest::Read(owner) => {
            if let Some(name) = owner {
                if let Some(team) = teams_by_name.get(name.as_str()) {
                    return PackageStep::Found(claim_package(team, relative_dir, "package.yml"));
                }
            }
            PackageStep::Next
        },
    }
}

/// What a JavaScript package in a directory tells.
pub fn try_javascript_package(
    in_place: bool,
    relative_dir: &str,
    teams_by_name: &TeamsByName,
    parsed: &Option<Result<JavascriptPackage, String>>,
) -> (r: PackageStep)
    ensures
        r@ == javascript_step(
            in_place,
            relative_dir@,
            teams_by_name@,
            match *parsed {
                Some(p) => Some(parsed_view(p)),
                None => None,
            },
        ),
{
    if !in_place {
        return PackageStep::Next;
    }
    if let Some(manifest) = parsed {
        if let Ok(name) = read_js_package_owner(manifest) {
            if let Some(team) = teams_by_name.get(name.as_str()) {
                return PackageStep::Found(claim_package(team, relative_dir, "package.json"));
            }
        }
    }
    PackageStep::Next
}

/// What the search for a package learns from what was found in a directory.
pub fn try_directory(
    config: &Config,
    relative_dir: &str,
    teams_by_name: &TeamsByName,
    found: &DirectoryFacts,
) -> (r: PackageStep)
    ensures
        r@ == directory_step(config@, relative_dir@, teams_by_name@, found@),
{
    let ruby_place = glob_list_matches(relative_dir, &config.ruby_package_paths);
    match try_ruby_package(ruby_place, relative_dir, teams_by_name, &found.ruby_package) {
        PackageStep::Next => {
            let javascript_place = glob_list_matches(relative_dir, &config.javascript_package_paths);
            try_javascript_package(javascript_place, relative_dir, teams_by_name, &found.javascript_package)
        },
        step => step,
    }
}

/// The claim of the nearest package above a file. A package without an owner is passed over;
/// one whose manifest is not valid ends the search.
pub fn nearest_package_owner(
    project_root: &str,
    relative_file_path: &str,
    config: &Config,
    teams_by_name: &TeamsByName,
    directories: &Vec<DirectoryFacts>,
) -> (r: Option<TeamClaim>)
    ensures
        claim_option(r) == nearest_package(
            project_root@,
            config@,
            searched(project_root@, relative_file_path@),
            teams_by_name@,
            facts_views(directories@),
        ),
{
    let dirs = ancestors(join(project_root, relative_file_path).as_str(), project_root);
    let ghost all = text::texts(dirs@);
    let ghost facts = facts_views(directories@);
    assert(all.skip(0) =~= all);
    for i in 0..dirs.len()
        invariant
            all == text::texts(dirs@),
            facts == facts_views(directories@),
            nearest_package(project_root@, config@, all, teams_by_name@, facts) == nearest_package(
                project_root@,
                config@,
                all.skip(i as int),
                teams_by_name@,
                facts,
            ),
            all == searched(project_root@, relative_file_path@),
    {
        assert(all.skip(i as int)[0] == dirs@[i as int]@);
        assert(all.skip(i as int).skip(1) =~= all.skip(i + 1));
        let dir = dirs[i].as_str();
        if let Some(found) = find_facts(directories, dir) {
            match try_directory(config, relative_to(project_root, dir), teams_by_name, found) {
                PackageStep::Found(claim) => {
                    return Some(claim);
                },
                PackageStep::Stop => {
                    return None;
                },
                PackageStep::Next => {},
            }
        }
    }
    assert(all.skip(dirs@.len() as int) =~= Seq::empty());
    None
}

/// The first team that lists a gem as its own.
pub open spec fn gem_owner(teams: Seq<TeamView>, gem: Seq<char>) -> Option<Seq<char>>
    decreases teams.len(),
{
    if teams.len() == 0 {
        None
    } else if teams[0].owned_gems.contains(gem) {
        Some(teams[0].name)
    } else {
        gem_owner(teams.skip(1), gem)
    }
}

/// The claim to a file of a vendored gem: its path begins with the directory of such gems,
/// and then the name of the gem.
pub open spec fn gem_claim(relative: Seq<char>, gems_path: Seq<char>, teams: Seq<TeamView>) -> Option<Claim> {
    let cs = path::components(relative);
    if cs.len() < 2 || !path::is_normal(cs[0]) || cs[0] != gems_path || !path::is_normal(cs[1]) {
        None
    } else {
        match gem_owner(teams, cs[1]) {
            Some(team) => Some((team, SourceView::TeamGem)),
            None => None,
        }
    }
}

/// The claim to a file of a vendored gem.
pub fn vendored_gem_owner(relative_file_path: &str, config: &Config, teams: &Vec<Team>) -> (r: Option<TeamClaim>)
    ensures
        claim_option(r) == gem_claim(
            relative_file_path@,
            config@.vendored_gems_path,
            project::team_views(teams@),
        ),
{
    let cs = components_of(relative_file_path);
    let ghost parts = path::components(relative_file_path@);
    assert(parts.len() == cs@.len());
    if cs.len() < 2 {
        return None;
    }
    assert(parts[0] == cs@[0]@ && parts[1] == cs@[1]@);
    if !is_normal_component(&cs[0]) || cs[0] != config.vendored_gems_path || !is_normal_component(&cs[1]) {
        return None;
    }
    let ghost all = project::team_views(teams@);
    assert(all.skip(0) =~= all);
    for i in 0..teams.len()
        invariant
            all == project::team_views(teams@),
            cs.len() >= 2,
            parts == path::components(relative_file_path@),
            parts.len() == cs@.len(),
            parts[1] == cs@[1]@,
            path::is_normal(parts[0]),
            parts[0] == config@.vendored_gems_path,
            path::is_normal(parts[1]),
            gem_owner(all, parts[1]) == gem_owner(all.skip(i as int), parts[1]),
    {
        assert(all.skip(i as int)[0] == teams@[i as int]@);
        assert(all.skip(i as int).skip(1) =~= all.skip(i + 1));
        if has_text(&teams[i].owned_gems, &cs[1]) {
            return Some(TeamClaim { team_name: teams[i].name.clone(), source: Source::TeamGem });
        }
    }
    assert(all.skip(teams@.len() as int) =~= Seq::empty());
    None
}

/// The claims that the globs of one team make.
pub open spec fn glob_claims(team: TeamView, globs: Seq<Seq<char>>, relative: Seq<char>) -> Seq<Claim>
    decreases globs.len(),
{
    if globs.len() == 0 {
        Seq::empty()
    } else {
        let before = glob_claims(team, globs.drop_last(), relative);
        if outside::glob_matches(globs.last(), relative) && !mapper::any_glob_matches(
            team.subtracted_globs,
            relative,
        ) {
            before.push((team.name, SourceView::TeamGlob(globs.last())))
        } else {
            before
        }
    }
}

/// The claims that the globs of all teams make, one team after the other.
pub open spec fn all_glob_claims(teams: Seq<TeamView>, relative: Seq<char>) -> Seq<Claim>
    decreases teams.len(),
{
    if teams.len() == 0 {
        Seq::empty()
    } else {
        all_glob_claims(teams.drop_last(), relative) + glob_claims(teams.last(), teams.last().owned_globs, relative)
    }
}

/// The claims of the teams whose team file this is.
pub open spec fn team_file_claims(root: Seq<char>, teams: Seq<TeamView>, relative: Seq<char>) -> Seq<Claim>
    decreases teams.len(),
{
    if teams.len() == 0 {
        Seq::empty()
    } else {
        let before = team_file_claims(root, teams.drop_last(), relative);
        if path::same_path(path_utils::relative_text(root, teams.last().path), relative) {
            before.push((teams.last().name, SourceView::TeamYml))
        } else {
            before
        }
    }
}

/// The claim by the annotation in the first line. It counts only in files that have to have
/// an owner.
pub open spec fn annotation_claim(
    config: ConfigView,
    relative: Seq<char>,
    teams: Map<Seq<char>, TeamView>,
    first_line: Option<Seq<char>>,
) -> Option<Claim> {
    match project_file_builder::annotated_team(first_line) {
        Some(name) => if mapper::any_glob_matches(config.owned_globs, relative) && !mapper::any_glob_matches(
            config.unowned_globs,
            relative,
        ) && teams.contains_key(name) {
            Some((teams[name].name, SourceView::AnnotatedFile))
        } else {
            None
        },
        None => None,
    }
}

/// What was found of a file: its first line, if it could be read, and what lies in the
/// directories above it.
#[derive(Debug)]
pub struct FileFacts {
    pub first_line: Option<String>,
    pub directories: Vec<DirectoryFacts>,
}

/// A [`FileFacts`] as a value.
#[verifier::ext_equal]
pub struct FileFactsView {
    pub first_line: Option<Seq<char>>,
    pub directories: Seq<DirectoryFactsView>,
}

impl View for FileFacts {
    type V = FileFactsView;

    open spec fn view(&self) -> FileFactsView {
        FileFactsView {
            first_line: project::text_option(self.first_line),
            directories: facts_views(self.directories@),
        }
    }
}

/// A list with one claim, or none.
pub open spec fn claim_list(claim: Option<Claim>) -> Seq<Claim> {
    match claim {
        Some(c) => seq![c],
        None => Seq::empty(),
    }
}

/// All claims to a file: by its annotation, a directory, a package, a vendored gem, the globs
/// of the teams, and as a team file.
pub open spec fn all_claims(
    root: Seq<char>,
    config: ConfigView,
    relative: Seq<char>,
    loaded: LoadedTeamsView,
    facts: FileFactsView,
) -> Seq<Claim> {
    let dirs = searched(root, relative);
    let by_name = loaded.teams_by_name;
    claim_list(annotation_claim(config, relative, by_name, facts.first_line)) + claim_list(
        specific_directory(root, dirs, by_name, facts.directories),
    ) + claim_list(nearest_package(root, config, dirs, by_name, facts.directories)) + claim_list(
        gem_claim(relative, config.vendored_gems_path, loaded.teams),
    ) + all_glob_claims(loaded.teams, relative) + team_file_claims(root, loaded.teams, relative)
}

/// How far ahead of others a source puts an owner: a smaller number comes first.
pub open spec fn priority(source: SourceView) -> int {
    match source {
        SourceView::AnnotatedFile => 0,
        SourceView::Directory(_) => 1,
        SourceView::Package(_, _) => 2,
        SourceView::TeamGlob(_) => 3,
        SourceView::TeamGem => 4,
        SourceView::TeamYml => 5,
    }
}

/// How far ahead of others a source puts an owner.
pub fn source_priority(source: &Source) -> (r: u8)
    ensures
        r == priority(source@),
{
    match source {
        // Highest confidence first.
        Source::AnnotatedFile => 0,
        Source::Directory(_) => 1,
        Source::Package(_, _) => 2,
        Source::TeamGlob(_) => 3,
        Source::TeamGem => 4,
        Source::TeamYml => 5,
    }
}

/// The smallest priority of some sources.
pub open spec fn best_priority(sources: Seq<SourceView>) -> int
    decreases sources.len(),
{
    if sources.len() == 0 {
        u8::MAX as int
    } else {
        let before = best_priority(sources.drop_last());
        if priority(sources.last()) < before {
            priority(sources.last())
        } else {
            before
        }
    }
}

/// The smallest priority of `sources`.
fn find_best_priority(sources: &Vec<Source>) -> (r: u8)
    ensures
        r == best_priority(mapper::source_views(sources@)),
{
    let ghost all = mapper::source_views(sources@);
    let mut best: u8 = u8::MAX;
    assert(all.take(0) =~= Seq::empty());
    for i in 0..sources.len()
        invariant
            all == mapper::source_views(sources@),
            best == best_priority(all.take(i as int)),
    {
        assert(all.take(i + 1).drop_last() =~= all.take(i as int));
        assert(all.take(i + 1).last() == sources@[i as int]@);
        let p: u8 = source_priority(&sources[i]);
        if p < best {
            best = p;
        }
    }
    assert(all.take(sources@.len() as int) =~= all);
    best
}

/// The owners that are known teams, each with its team and its team file.
pub open spec fn known_owners(
    root: Seq<char>,
    owners: Seq<OwnerView>,
    teams: Map<Seq<char>, TeamView>,
) -> Seq<FileOwnerView>
    decreases owners.len(),
{
    if owners.len() == 0 {
        Seq::empty()
    } else {
        let before = known_owners(root, owners.drop_last(), teams);
        let owner = owners.last();
        if teams.contains_key(owner.team_name) {
            before.push(
                FileOwnerView {
                    team: teams[owner.team_name],
                    team_config_file_path: path_utils::relative_text(root, teams[owner.team_name].path),
                    sources: owner.sources,
                },
            )
        } else {
            before
        }
    }
}

/// What file owners are sorted by: their best source, then the name of the team.
pub open spec fn owner_sort_keys(owners: Seq<FileOwnerView>) -> Seq<(int, Seq<char>)> {
    owners.map_values(|o: FileOwnerView| (best_priority(o.sources), o.team.name))
}

/// The file owners in order.
pub open spec fn in_order(owners: Seq<FileOwnerView>) -> Seq<FileOwnerView> {
    order::arranged(owners, order::stable_order(owner_sort_keys(owners)))
}

/// The owners of a file.
pub open spec fn file_owners(
    root: Seq<char>,
    config: ConfigView,
    file_path: Seq<char>,
    loaded: LoadedTeamsView,
    facts: FileFactsView,
) -> Seq<FileOwnerView> {
    owners_by_claims(root, all_claims(root, config, relative_file(root, file_path), loaded, facts), loaded)
}

/// The owners that a list of claims makes, in order.
pub open spec fn owners_by_claims(root: Seq<char>, claims: Seq<Claim>, loaded: LoadedTeamsView) -> Seq<FileOwnerView> {
    in_order(known_owners(root, file_owner_finder::grouped(claims), loaded.teams_by_name))
}

/// Adds a claim, if there is one.
fn push_claim(claims: &mut Vec<TeamClaim>, claim: Option<TeamClaim>)
    ensures
        file_owner_finder::claim_views(final(claims)@) == file_owner_finder::claim_views(old(claims)@) + claim_list(
            claim_option(claim),
        ),
{
    let ghost before = claims@;
    let ghost given = claim_list(claim_option(claim));
    if let Some(c) = claim {
        claims.push(c);
    }
    assert(file_owner_finder::claim_views(claims@) =~= file_owner_finder::claim_views(before) + given);
}

/// The claim by the annotation in the first line.
fn claim_by_annotation(
    config: &Config,
    relative_file_path: &str,
    teams_by_name: &TeamsByName,
    first_line: Option<&str>,
) -> (r: Option<TeamClaim>)
    ensures
        claim_option(r) == annotation_claim(
            config@,
            relative_file_path@,
            teams_by_name@,
            match first_line {
                Some(line) => Some(line@),
                None => None,
            },
        ),
{
    if let Some(name) = read_top_of_file_team(relative_file_path, first_line) {
        if glob_list_matches(relative_file_path, &config.owned_globs) && !glob_list_matches(
            relative_file_path,
            &config.unowned_globs,
        ) {
            if let Some(team) = teams_by_name.get(name.as_str()) {
                return Some(TeamClaim { team_name: team.name.clone(), source: Source::AnnotatedFile });
            }
        }
    }
    None
}

/// Adds the claims that the globs of the teams make.
fn push_glob_claims(claims: &mut Vec<TeamClaim>, teams: &Vec<Team>, relative_file_path: &str)
    ensures
        file_owner_finder::claim_views(final(claims)@) == file_owner_finder::claim_views(old(claims)@)
            + all_glob_claims(project::team_views(teams@), relative_file_path@),
{
    let ghost before = file_owner_finder::claim_views(claims@);
    let ghost all = project::team_views(teams@);
    assert(all.take(0) =~= Seq::empty());
    assert(before + Seq::empty() =~= before);
    for i in 0..teams.len()
        invariant
            all == project::team_views(teams@),
            file_owner_finder::claim_views(claims@) == before + all_glob_claims(
                all.take(i as int),
                relative_file_path@,
            ),
    {
        assert(all.take(i + 1).drop_last() =~= all.take(i as int));
        assert(all.take(i + 1).last() == teams@[i as int]@);
        let team = &teams[i];
        let ghost so_far = file_owner_finder::claim_views(claims@);
        let ghost globs = team@.owned_globs;
        assert(globs.take(0) =~= Seq::empty());
        assert(so_far + Seq::empty() =~= so_far);
        for j in 0..team.owned_globs.len()
            invariant
                globs == team@.owned_globs,
                file_owner_finder::claim_views(claims@) == so_far + glob_claims(
                    team@,
                    globs.take(j as int),
                    relative_file_path@,
                ),
        {
            assert(globs.take(j + 1).drop_last() =~= globs.take(j as int));
            assert(globs.take(j + 1).last() == team.owned_globs@[j as int]@);
            let glob = &team.owned_globs[j];
            if glob_match(glob.as_str(), relative_file_path) && !glob_list_matches(
                relative_file_path,
                &team.subtracted_globs,
            ) {
                let ghost now = claims@;
                claims.push(TeamClaim { team_name: team.name.clone(), source: Source::TeamGlob(glob.clone()) });
                assert(file_owner_finder::claim_views(claims@) =~= file_owner_finder::claim_views(now).push(
                    (team@.name, SourceView::TeamGlob(glob@)),
                ));
            }
        }
        assert(globs.take(globs.len() as int) =~= globs);
        assert(before + (all_glob_claims(all.take(i as int), relative_file_path@) + glob_claims(
            team@,
            globs,
            relative_file_path@,
        )) =~= before + all_glob_claims(all.take(i as int), relative_file_path@) + glob_claims(
            team@,
            globs,
            relative_file_path@,
        ));
    }
    assert(all.take(teams@.len() as int) =~= all);
}

/// Adds the claims of the teams whose team file this is.
fn push_team_file_claims(claims: &mut Vec<TeamClaim>, project_root: &str, teams: &Vec<Team>, relative_file_path: &str)
    ensures
        file_owner_finder::claim_views(final(claims)@) == file_owner_finder::claim_views(old(claims)@)
            + team_file_claims(project_root@, project::team_views(teams@), relative_file_path@),
{
    let ghost before = file_owner_finder::claim_views(claims@);
    let ghost all = project::team_views(teams@);
    assert(all.take(0) =~= Seq::empty());
    assert(before + Seq::empty() =~= before);
    for i in 0..teams.len()
        invariant
            all == project::team_views(teams@),
            file_owner_finder::claim_views(claims@) == before + team_file_claims(
                project_root@,
                all.take(i as int),
                relative_file_path@,
            ),
    {
        assert(all.take(i + 1).drop_last() =~= all.take(i as int));
        assert(all.take(i + 1).last() == teams@[i as int]@);
        let team = &teams[i];
        if is_same(relative_to(project_root, team.path.as_str()), relative_file_path) {
            let ghost now = claims@;
            claims.push(TeamClaim { team_name: team.name.clone(), source: Source::TeamYml });
            assert(file_owner_finder::claim_views(claims@) =~= file_owner_finder::claim_views(now).push(
                (team@.name, SourceView::TeamYml),
            ));
        }
    }
    assert(all.take(teams@.len() as int) =~= all);
}

/// The file owners of `owners` in order.
fn sort_owners(owners: &Vec<FileOwner>) -> (r: Vec<FileOwner>)
    ensures
        ownership::file_owner_views(r@) == in_order(ownership::file_owner_views(owners@)),
{
    let ghost all = ownership::file_owner_views(owners@);
    let mut keys: Vec<SortKey> = Vec::new();
    for i in 0..owners.len()
        invariant
            all == ownership::file_owner_views(owners@),
            order::key_views(keys@) == owner_sort_keys(all).take(i as int),
    {
        let ghost before = keys@;
        keys.push(
            SortKey { rank: find_best_priority(&owners[i].sources), text: chars_of(owners[i].team.name.as_str()) },
        );
        assert(order::key_views(keys@) =~= order::key_views(before).push(owner_sort_keys(all)[i as int]));
        assert(owner_sort_keys(all).take(i + 1) =~= owner_sort_keys(all).take(i as int).push(
            owner_sort_keys(all)[i as int],
        ));
    }
    assert(owner_sort_keys(all).take(owners@.len() as int) =~= owner_sort_keys(all));
    let sorted = sort_order(&keys);
    let ghost p = order::stable_order(owner_sort_keys(all));
    let mut r: Vec<FileOwner> = Vec::new();
    for i in 0..sorted.len()
        invariant
            all == ownership::file_owner_views(owners@),
            p == order::indexes(sorted@),
            order::is_stable_order(owner_sort_keys(all), p),
            ownership::file_owner_views(r@) == order::arranged(all, p).take(i as int),
    {
        let ghost before = r@;
        assert(p[i as int] == sorted@[i as int] as int);
        let owner = &owners[sorted[i]];
        r.push(
            FileOwner {
                team: owner.team.clone(),
                team_config_file_path: owner.team_config_file_path.clone(),
                sources: copy_sources(&owner.sources),
            },
        );
        assert(ownership::file_owner_views(r@) =~= ownership::file_owner_views(before).push(owner@));
        assert(order::arranged(all, p).take(i + 1) =~= order::arranged(all, p).take(i as int).push(owner@));
    }
    assert(order::arranged(all, p).take(sorted@.len() as int) =~= order::arranged(all, p));
    r
}

/// The owners that a list of claims makes, in order.
pub fn file_owners_from_claims(project_root: &str, claims: &Vec<TeamClaim>, loaded: &LoadedTeams) -> (r: Vec<FileOwner>)
    ensures
        ownership::file_owner_views(r@) == owners_by_claims(
            project_root@,
            file_owner_finder::claim_views(claims@),
            loaded@,
        ),
{
    let owners = group_claims(claims);
    let ghost all = file_owner_finder::owner_views(owners@);
    let mut known: Vec<FileOwner> = Vec::new();
    assert(all.take(0) =~= Seq::empty());
    assert(ownership::file_owner_views(known@) =~= Seq::empty());
    for i in 0..owners.len()
        invariant
            all == file_owner_finder::owner_views(owners@),
            ownership::file_owner_views(known@) == known_owners(
                project_root@,
                all.take(i as int),
                loaded.teams_by_name@,
            ),
    {
        assert(all.take(i + 1).drop_last() =~= all.take(i as int));
        assert(all.take(i + 1).last() == owners@[i as int]@);
        let owner: &Owner = &owners[i];
        if let Some(team) = loaded.teams_by_name.get(owner.team_name.as_str()) {
            let ghost before = known@;
            known.push(
                FileOwner {
                    team: team.clone(),
                    team_config_file_path: relative_to(project_root, team.path.as_str()).to_owned(),
                    sources: copy_sources(&owner.sources),
                },
            );
            assert(ownership::file_owner_views(known@) =~= ownership::file_owner_views(before).push(known@.last()@));
        }
    }
    assert(all.take(owners@.len() as int) =~= all);
    sort_owners(&known)
}

/// The owners of `file_path`: every team that claims it, the most reliable claims first.
/// `loaded` are the teams of the project, or why they could not be loaded; `facts` is what
/// was found at the file and in the directories above it.
pub fn find_file_owners(
    project_root: &str,
    config: &Config,
    file_path: &str,
    loaded: Result<&LoadedTeams, String>,
    facts: &FileFacts,
) -> (r: Result<Vec<FileOwner>, String>)
    ensures
        match loaded {
            Ok(teams) => r is Ok && ownership::file_owner_views(r->Ok_0@) == file_owners(
                project_root@,
                config@,
                file_path@,
                teams@,
                facts@,
            ),
            Err(e) => r is Err && r->Err_0@ == e@,
        },
{
    let absolute_file_path = join(project_root, file_path);
    let relative_file_path = relative_to_buf(project_root, absolute_file_path.as_str());
    let relative = relative_file_path.as_str();
    let loaded: &LoadedTeams = match loaded {
        Ok(teams) => teams,
        Err(e) => {
            return Err(e);
        },
    };
    let first_line: Option<&str> = match &facts.first_line {
        Some(line) => Some(line.as_str()),
        None => None,
    };
    let mut claims: Vec<TeamClaim> = Vec::new();
    assert(file_owner_finder::claim_views(claims@) =~= Seq::empty());
    let by_annotation = claim_by_annotation(config, relative, &loaded.teams_by_name, first_line);
    push_claim(&mut claims, by_annotation);
    let by_directory = most_specific_directory_owner(
        project_root,
        relative,
        &loaded.teams_by_name,
        &facts.directories,
    );
    push_claim(&mut claims, by_directory);
    let by_package = nearest_package_owner(
        project_root,
        relative,
        config,
        &loaded.teams_by_name,
        &facts.directories,
    );
    push_claim(&mut claims, by_package);
    let by_gem = vendored_gem_owner(relative, config, &loaded.teams);
    push_claim(&mut claims, by_gem);
    push_glob_claims(&mut claims, &loaded.teams, relative);
    push_team_file_claims(&mut claims, project_root, &loaded.teams, relative);
    assert(file_owner_finder::claim_views(claims@) =~= all_claims(
        project_root@,
        config@,
        relative_file(project_root@, file_path@),
        loaded@,
        facts@,
    ));
    Ok(file_owners_from_claims(project_root, &claims, loaded))
}

proof fn lemma_known_owner(root: Seq<char>, owners: Seq<OwnerView>, teams: Map<Seq<char>, TeamView>, o: FileOwnerView)
    ensures
        known_owners(root, owners, teams).contains(o) <==> exists|i: int|
            0 <= i < owners.len() && teams.contains_key((#[trigger] owners[i]).team_name) && o == (FileOwnerView {
                team: teams[owners[i].team_name],
                team_config_file_path: path_utils::relative_text(root, teams[owners[i].team_name].path),
                sources: owners[i].sources,
            }),
    decreases owners.len(),
{
    if owners.len() > 0 {
        let init = owners.drop_last();
        lemma_known_owner(root, init, teams, o);
        let before = known_owners(root, init, teams);
        let now = known_owners(root, owners, teams);
        let last = owners.len() - 1;
        assert(owners[last] == owners.last());
        assert forall|i: int| 0 <= i < init.len() implies #[trigger] init[i] == owners[i] by {}
        if before.contains(o) {
            let k = choose|k: int| 0 <= k < before.len() && before[k] == o;
            assert(now[k] == o);
        }
        if now.contains(o) && !before.contains(o) {
            let k = choose|k: int| 0 <= k < now.len() && now[k] == o;
            if k < before.len() {
                assert(before[k] == o);
            }
        }
        if now.len() > before.len() {
            assert(now[before.len() as int] == now.last());
        }
        if exists|i: int|
            0 <= i < owners.len() && teams.contains_key((#[trigger] owners[i]).team_name) && o == (FileOwnerView {
                team: teams[owners[i].team_name],
                team_config_file_path: path_utils::relative_text(root, teams[owners[i].team_name].path),
                sources: owners[i].sources,
            }) {
            let i = choose|i: int|
                0 <= i < owners.len() && teams.contains_key((#[trigger] owners[i]).team_name) && o == (FileOwnerView {
                    team: teams[owners[i].team_name],
                    team_config_file_path: path_utils::relative_text(root, teams[owners[i].team_name].path),
                    sources: owners[i].sources,
                });
            if i < init.len() {
                assert(init[i] == owners[i]);
            }
        }
    }
}

/// Putting owners in order adds none and leaves none out.
pub proof fn law_ordering_keeps_every_owner(owners: Seq<FileOwnerView>, o: FileOwnerView)
    ensures
        in_order(owners).len() == owners.len(),
        in_order(owners).contains(o) <==> owners.contains(o),
{
    let keys = owner_sort_keys(owners);
    let p = order::stable_order(keys);
    order::law_stable_order(keys);
    let s = in_order(owners);
    if owners.contains(o) {
        let i = choose|i: int| 0 <= i < owners.len() && owners[i] == o;
        order::lemma_order_covers(keys, p, i);
        let k = choose|k: int| 0 <= k < p.len() && p[k] == i;
        assert(s[k] == o);
    }
    if s.contains(o) {
        let k = choose|k: int| 0 <= k < s.len() && s[k] == o;
        assert(owners[p[k]] == o);
    }
}

/// Owners come in the order of their most reliable source, and of the names of their teams
/// where these are equally reliable.
pub proof fn law_owners_come_in_order(root: Seq<char>, claims: Seq<Claim>, loaded: LoadedTeamsView, k: int, l: int)
    requires
        0 <= k < l < owners_by_claims(root, claims, loaded).len(),
    ensures
        ({
            let owners = owners_by_claims(root, claims, loaded);
            let a = owners[k];
            let b = owners[l];
            &&& best_priority(a.sources) <= best_priority(b.sources)
            &&& best_priority(a.sources) == best_priority(b.sources) ==> !order::text_before(
                b.team.name,
                a.team.name,
            )
        }),
{
    let known = known_owners(root, file_owner_finder::grouped(claims), loaded.teams_by_name);
    let keys = owner_sort_keys(known);
    let p = order::stable_order(keys);
    order::law_stable_order(keys);
    assert(order::goes_before(keys, p[k], p[l]));
    order::lemma_text_total(known[p[k]].team.name, known[p[l]].team.name);
    order::lemma_text_irreflexive(known[p[k]].team.name);
}

/// Whether a team stands among the file owners with this source.
pub open spec fn owned_by(owners: Seq<FileOwnerView>, team: TeamView, source: SourceView) -> bool {
    exists|i: int| 0 <= i < owners.len() && (#[trigger] owners[i]).team == team && owners[i].sources.contains(source)
}

/// A claim of a known team makes it an owner by that source.
pub proof fn law_who_claims_owns(root: Seq<char>, claims: Seq<Claim>, loaded: LoadedTeamsView, claim: Claim)
    requires
        claims.contains(claim),
        loaded.teams_by_name.contains_key(claim.0),
    ensures
        owned_by(owners_by_claims(root, claims, loaded), loaded.teams_by_name[claim.0], claim.1),
{
    let groups = file_owner_finder::grouped(claims);
    file_owner_finder::law_grouping_keeps_every_claim(claims);
    assert(file_owner_finder::owns_by(groups, claim));
    let i = choose|i: int|
        0 <= i < groups.len() && (#[trigger] groups[i]).team_name == claim.0 && groups[i].sources.contains(claim.1);
    let o = FileOwnerView {
        team: loaded.teams_by_name[claim.0],
        team_config_file_path: path_utils::relative_text(root, loaded.teams_by_name[claim.0].path),
        sources: groups[i].sources,
    };
    lemma_known_owner(root, groups, loaded.teams_by_name, o);
    law_ordering_keeps_every_owner(known_owners(root, groups, loaded.teams_by_name), o);
    let owners = owners_by_claims(root, claims, loaded);
    let k = choose|k: int| 0 <= k < owners.len() && owners[k] == o;
    assert(owners[k].team == loaded.teams_by_name[claim.0]);
}

/// Nobody owns a file without a claim: each source of an owner is a claim that was made in a
/// name by which the team goes.
pub proof fn law_who_owns_claims(
    root: Seq<char>,
    claims: Seq<Claim>,
    loaded: LoadedTeamsView,
    team: TeamView,
    source: SourceView,
)
    requires
        owned_by(owners_by_claims(root, claims, loaded), team, source),
    ensures
        exists|i: int|
            0 <= i < claims.len() && (#[trigger] claims[i]).1 == source && loaded.teams_by_name.contains_key(
                claims[i].0,
            ) && loaded.teams_by_name[claims[i].0] == team,
{
    let groups = file_owner_finder::grouped(claims);
    let known = known_owners(root, groups, loaded.teams_by_name);
    let owners = owners_by_claims(root, claims, loaded);
    file_owner_finder::law_grouping_keeps_every_claim(claims);
    let k = choose|k: int|
        0 <= k < owners.len() && (#[trigger] owners[k]).team == team && owners[k].sources.contains(source);
    assert(owners.contains(owners[k]));
    law_ordering_keeps_every_owner(known, owners[k]);
    lemma_known_owner(root, groups, loaded.teams_by_name, owners[k]);
    let i = choose|i: int|
        0 <= i < groups.len() && loaded.teams_by_name.contains_key((#[trigger] groups[i]).team_name) && owners[k] == (
        FileOwnerView {
            team: loaded.teams_by_name[groups[i].team_name],
            team_config_file_path: path_utils::relative_text(root, loaded.teams_by_name[groups[i].team_name].path),
            sources: groups[i].sources,
        });
    let claim = (groups[i].team_name, source);
    assert(file_owner_finder::owns_by(groups, claim));
    let j = choose|j: int| 0 <= j < claims.len() && claims[j] == claim;
    assert(claims[j].1 == source);
}

/// Without a claim there is no owner, and with no teams there is none either.
pub proof fn law_no_claims_no_owners(root: Seq<char>, claims: Seq<Claim>, loaded: LoadedTeamsView)
    requires
        claims.len() == 0 || loaded.teams_by_name == Map::<Seq<char>, TeamView>::empty(),
    ensures
        owners_by_claims(root, claims, loaded).len() == 0,
{
    let groups = file_owner_finder::grouped(claims);
    let known = known_owners(root, groups, loaded.teams_by_name);
    if known.len() > 0 {
        lemma_known_owner(root, groups, loaded.teams_by_name, known[0]);
        assert(known.contains(known[0]));
    }
    law_ordering_keeps_every_owner(known, ownership::unowned());
}

proof fn lemma_occurrences_grow(t: Seq<char>, n: int, c: char)
    requires
        0 <= n <= t.len(),
    ensures
        mapper::occurrences(t.take(n), c) <= mapper::occurrences(t, c),
    decreases t.len(),
{
    if n == t.len() {
        assert(t.take(n) =~= t);
    } else {
        assert(t.drop_last().take(n) =~= t.take(n));
        lemma_occurrences_grow(t.drop_last(), n, c);
    }
}

/// Of the directories above a file, an inner one is at least as specific as an outer one.
proof fn lemma_inner_is_deeper(root: Seq<char>, start: Seq<char>, i: int, j: int)
    requires
        0 <= i < j < path::directories_above(start, root).len(),
    ensures
        ({
            let dirs = path::directories_above(start, root);
            mapper::occurrences(path_utils::relative_text(root, dirs[j]), '/') <= mapper::occurrences(
                path_utils::relative_text(root, dirs[i]),
                '/',
            )
        }),
{
    let dirs = path::directories_above(start, root);
    let cs = path::components(start);
    let n = cs.len() as int;
    let k = path::components(root).len() as int;
    path::lemma_directories_above(start, root);
    let a = n - 1 - i;
    let b = n - 1 - j;
    let inner = dirs[i];
    let outer = dirs[j];
    path::lemma_text_upto(start, a);
    path::lemma_text_upto(start, b);
    path::lemma_text_upto(inner, b);
    assert(path::spans(inner).take(b) =~= path::spans(start).take(b));
    assert(outer =~= path::text_upto(inner, b)) by {
        path::lemma_upto_nested(start, a, b);
    }
    let x = path_utils::relative_text(root, inner);
    let y = path_utils::relative_text(root, outer);
    if path::starts_with(inner, root) {
        assert(path::components(root) =~= cs.take(k)) by {
            assert(path::components(root) =~= cs.take(a).take(k));
        }
        if k > b {
            // The search would have ended at the root, on the way from `inner` to `outer`.
            let m = n - 1 - k;
            path::lemma_text_upto(start, k);
            assert(path::components(dirs[m]) =~= cs.take(k));
            assert(path::same_path(dirs[m], root));
        }
        assert(k <= b);
        assert(path::components(outer) =~= cs.take(b));
        assert(cs.take(b).take(k) =~= cs.take(k));
        assert(path::starts_with(outer, root));
        path::lemma_upto_after(inner, k, b);
        lemma_occurrences_grow(x, y.len() as int, '/');
    } else {
        if path::starts_with(outer, root) {
            assert(path::components(root) =~= cs.take(b).take(k));
            assert(cs.take(a).take(k) =~= cs.take(b).take(k));
            assert(path::starts_with(inner, root));
        }
        assert(outer =~= inner.take(outer.len() as int));
        lemma_occurrences_grow(x, y.len() as int, '/');
    }
}

/// Of the directories above a file, the nearest one whose `.codeowner` file names a team
/// claims the file, and no other does.
pub proof fn law_nearest_directory_claims(
    root: Seq<char>,
    relative: Seq<char>,
    teams: Map<Seq<char>, TeamView>,
    facts: Seq<DirectoryFactsView>,
    i: int,
)
    requires
        0 <= i <= searched(root, relative).len(),
        forall|j: int| 0 <= j < i ==> codeowner_claim(root, #[trigger] searched(root, relative)[j], teams, facts) is None,
        i < searched(root, relative).len() ==> codeowner_claim(root, searched(root, relative)[i], teams, facts) is Some,
    ensures
        specific_directory(root, searched(root, relative), teams, facts) == if i < searched(root, relative).len() {
            codeowner_claim(root, searched(root, relative)[i], teams, facts)
        } else {
            None
        },
{
    let dirs = searched(root, relative);
    lemma_nearest_among(root, relative, teams, facts, i, dirs.len() as int);
    assert(dirs.take(dirs.len() as int) =~= dirs);
}

proof fn lemma_nearest_among(
    root: Seq<char>,
    relative: Seq<char>,
    teams: Map<Seq<char>, TeamView>,
    facts: Seq<DirectoryFactsView>,
    i: int,
    n: int,
)
    requires
        0 <= i <= searched(root, relative).len(),
        0 <= n <= searched(root, relative).len(),
        forall|j: int| 0 <= j < i ==> codeowner_claim(root, #[trigger] searched(root, relative)[j], teams, facts) is None,
        i < searched(root, relative).len() ==> codeowner_claim(root, searched(root, relative)[i], teams, facts) is Some,
    ensures
        specific_directory(root, searched(root, relative).take(n), teams, facts) == if i < n {
            codeowner_claim(root, searched(root, relative)[i], teams, facts)
        } else {
            None
        },
    decreases n,
{
    let dirs = searched(root, relative);
    if n > 0 {
        lemma_nearest_among(root, relative, teams, facts, i, n - 1);
        assert(dirs.take(n).drop_last() =~= dirs.take(n - 1));
        assert(dirs.take(n).last() == dirs[n - 1]);
        if i < n - 1 {
            lemma_inner_is_deeper(root, path::join_text(root, relative), i, n - 1);
        } else if i >= n {
            assert(codeowner_claim(root, dirs[n - 1], teams, facts) is None);
        }
    }
}

/// A package is passed over if its directory says nothing; one whose manifest is rejected
/// keeps the packages around it from claiming the file.
pub proof fn law_packages_are_asked_from_the_inside(
    root: Seq<char>,
    config: ConfigView,
    dirs: Seq<Seq<char>>,
    teams: Map<Seq<char>, TeamView>,
    facts: Seq<DirectoryFactsView>,
    i: int,
)
    requires
        0 <= i <= dirs.len(),
        forall|j: int|
            0 <= j < i ==> package_step(root, config, #[trigger] dirs[j], teams, facts) == PackageStepView::Next,
        i < dirs.len() ==> package_step(root, config, dirs[i], teams, facts) != PackageStepView::Next,
    ensures
        nearest_package(root, config, dirs, teams, facts) == if i < dirs.len() {
            match package_step(root, config, dirs[i], teams, facts) {
                PackageStepView::Found(claim) => Some(claim),
                _ => None,
            }
        } else {
            None
        },
    decreases dirs.len(),
{
    if dirs.len() > 0 && i > 0 {
        let rest = dirs.skip(1);
        assert forall|j: int| 0 <= j < i - 1 implies package_step(root, config, #[trigger] rest[j], teams, facts)
            == PackageStepView::Next by {
            assert(rest[j] == dirs[j + 1]);
        }
        assert(package_step(root, config, dirs[0], teams, facts) == PackageStepView::Next);
        law_packages_are_asked_from_the_inside(root, config, rest, teams, facts, i - 1);
    }
}

/// A Ruby package whose manifest is rejected claims nothing, and ends the search.
pub proof fn law_rejected_manifests_end_the_search(
    root: Seq<char>,
    config: ConfigView,
    dir: Seq<char>,
    teams: Map<Seq<char>, TeamView>,
    facts: Seq<DirectoryFactsView>,
)
    requires
        facts_of(facts, dir) is Some,
        (facts_of(facts, dir)->0).ruby_package == RubyManifestView::Rejected,
        mapper::any_glob_matches(config.ruby_package_paths, path_utils::relative_text(root, dir)),
    ensures
        package_step(root, config, dir, teams, facts) == PackageStepView::Stop,
{
}

/// A team owns its own team file.
pub proof fn law_a_team_owns_its_team_file(
    root: Seq<char>,
    config: ConfigView,
    relative: Seq<char>,
    loaded: LoadedTeamsView,
    facts: FileFactsView,
    i: int,
)
    requires
        0 <= i < loaded.teams.len(),
        path::same_path(path_utils::relative_text(root, loaded.teams[i].path), relative),
    ensures
        all_claims(root, config, relative, loaded, facts).contains((loaded.teams[i].name, SourceView::TeamYml)),
{
    let claims = team_file_claims(root, loaded.teams, relative);
    let claim = (loaded.teams[i].name, SourceView::TeamYml);
    lemma_team_file_claim(root, loaded.teams, relative, i);
    let k = choose|k: int| 0 <= k < claims.len() && claims[k] == claim;
    let all = all_claims(root, config, relative, loaded, facts);
    assert(all[all.len() - claims.len() + k] == claim);
}

proof fn lemma_team_file_claim(root: Seq<char>, teams: Seq<TeamView>, relative: Seq<char>, i: int)
    requires
        0 <= i < teams.len(),
        path::same_path(path_utils::relative_text(root, teams[i].path), relative),
    ensures
        team_file_claims(root, teams, relative).contains((teams[i].name, SourceView::TeamYml)),
    decreases teams.len(),
{
    let init = teams.drop_last();
    let now = team_file_claims(root, teams, relative);
    if i < init.len() {
        assert(init[i] == teams[i]);
        lemma_team_file_claim(root, init, relative, i);
        let before = team_file_claims(root, init, relative);
        let k = choose|k: int| 0 <= k < before.len() && before[k] == (teams[i].name, SourceView::TeamYml);
        assert(now[k] == before[k]);
    } else {
        assert(now.last() == (teams[i].name, SourceView::TeamYml));
    }
}

/// A team owns the files that its globs match and its subtracted globs do not, and no others
/// by a glob.
pub proof fn law_globs_claim_what_they_match(team: TeamView, globs: Seq<Seq<char>>, relative: Seq<char>, claim: Claim)
    ensures
        glob_claims(team, globs, relative).contains(claim) <==> exists|i: int|
            0 <= i < globs.len() && outside::glob_matches(#[trigger] globs[i], relative) && !mapper::any_glob_matches(
                team.subtracted_globs,
                relative,
            ) && claim == (team.name, SourceView::TeamGlob(globs[i])),
    decreases globs.len(),
{
    if globs.len() > 0 {
        let init = globs.drop_last();
        law_globs_claim_what_they_match(team, init, relative, claim);
        let before = glob_claims(team, init, relative);
        let now = glob_claims(team, globs, relative);
        assert(globs[globs.len() - 1] == globs.last());
        assert forall|i: int| 0 <= i < init.len() implies #[trigger] init[i] == globs[i] by {}
        if before.contains(claim) {
            let k = choose|k: int| 0 <= k < before.len() && before[k] == claim;
            assert(now[k] == claim);
        }
        if now.contains(claim) && !before.contains(claim) {
            let k = choose|k: int| 0 <= k < now.len() && now[k] == claim;
            if k < before.len() {
                assert(before[k] == claim);
            }
        }
        if now.len() > before.len() {
            assert(now[before.len() as int] == now.last());
        }
        if exists|i: int|
            0 <= i < globs.len() && outside::glob_matches(#[trigger] globs[i], relative) && !mapper::any_glob_matches(
                team.subtracted_globs,
                relative,
            ) && claim == (team.name, SourceView::TeamGlob(globs[i])) {
            let i = choose|i: int|
                0 <= i < globs.len() && outside::glob_matches(#[trigger] globs[i], relative)
                    && !mapper::any_glob_matches(team.subtracted_globs, relative) && claim == (
                    team.name,
                    SourceView::TeamGlob(globs[i]),
                );
            if i < init.len() {
                assert(init[i] == globs[i]);
            }
        }
    }
}

} // verus!
