//! What a project consists of: its files, its packages and its teams.

use crate::path;
use crate::path::parent;
use crate::path_utils;
use crate::path_utils::relative_to;
use crate::text;
use crate::text::copy_texts;
use vstd::prelude::*;
use vstd::string::*;

verus! {

/// A team, as its team file describes it.
#[derive(Debug, PartialEq, Eq)]
pub struct Team {
    /// The team file.
    pub path: String,
    pub name: String,
    pub github_team: String,
    pub owned_globs: Vec<String>,
    /// Files among those of `owned_globs` that the team does not own.
    pub subtracted_globs: Vec<String>,
    pub owned_gems: Vec<String>,
    pub avoid_ownership: bool,
}

/// A [`Team`] as a value.
#[verifier::ext_equal]
pub struct TeamView {
    pub path: Seq<char>,
    pub name: Seq<char>,
    pub github_team: Seq<char>,
    pub owned_globs: Seq<Seq<char>>,
    pub subtracted_globs: Seq<Seq<char>>,
    pub owned_gems: Seq<Seq<char>>,
    pub avoid_ownership: bool,
}

impl View for Team {
    type V = TeamView;

    open spec fn view(&self) -> TeamView {
        TeamView {
            path: self.path@,
            name: self.name@,
            github_team: self.github_team@,
            owned_globs: text::texts(self.owned_globs@),
            subtracted_globs: text::texts(self.subtracted_globs@),
            owned_gems: text::texts(self.owned_gems@),
            avoid_ownership: self.avoid_ownership,
        }
    }
}

/// A team about which nothing is known.
pub open spec fn no_team() -> TeamView {
    TeamView {
        path: Seq::empty(),
        name: Seq::empty(),
        github_team: Seq::empty(),
        owned_globs: Seq::empty(),
        subtracted_globs: Seq::empty(),
        owned_gems: Seq::empty(),
        avoid_ownership: false,
    }
}

impl Clone for Team {
    fn clone(&self) -> (r: Team)
        ensures
            r@ == self@,
    {
        Team {
            path: self.path.clone(),
            name: self.name.clone(),
            github_team: self.github_team.clone(),
            owned_globs: copy_texts(&self.owned_globs),
            subtracted_globs: copy_texts(&self.subtracted_globs),
            owned_gems: copy_texts(&self.owned_gems),
            avoid_ownership: self.avoid_ownership,
        }
    }
}

impl Default for Team {
    fn default() -> (r: Team)
        ensures
            r@ == no_team(),
    {
        let r = Team {
            path: String::new(),
            name: String::new(),
            github_team: String::new(),
            owned_globs: Vec::new(),
            subtracted_globs: Vec::new(),
            owned_gems: Vec::new(),
            avoid_ownership: false,
        };
        assert(r@ =~= no_team());
        r
    }
}

/// The teams of a list as values.
pub open spec fn team_views(list: Seq<Team>) -> Seq<TeamView> {
    list.map_values(|t: Team| t@)
}

/// A file of the project, with the team that its annotation names.
#[derive(Debug, PartialEq, Eq)]
pub struct ProjectFile {
    pub path: String,
    pub owner: Option<String>,
}

/// A [`ProjectFile`] as a value.
#[verifier::ext_equal]
pub struct ProjectFileView {
    pub path: Seq<char>,
    pub owner: Option<Seq<char>>,
}

/// An optional string as a value.
pub open spec fn text_option(s: Option<String>) -> Option<Seq<char>> {
    match s {
        Some(t) => Some(t@),
        None => None,
    }
}

impl View for ProjectFile {
    type V = ProjectFileView;

    open spec fn view(&self) -> ProjectFileView {
        ProjectFileView { path: self.path@, owner: text_option(self.owner) }
    }
}

/// The files of a list as values.
pub open spec fn file_views(list: Seq<ProjectFile>) -> Seq<ProjectFileView> {
    list.map_values(|f: ProjectFile| f@)
}

/// The language of a package.
#[derive(PartialEq, Eq, Structural, Clone, Copy, Debug)]
pub enum PackageType {
    Ruby,
    Javascript,
}

/// A package: a directory with a manifest that names an owner.
#[derive(Debug)]
pub struct Package {
    /// The manifest.
    pub path: String,
    pub package_type: PackageType,
    pub owner: String,
}

/// A [`Package`] as a value.
#[verifier::ext_equal]
pub struct PackageView {
    pub path: Seq<char>,
    pub package_type: PackageType,
    pub owner: Seq<char>,
}

impl View for Package {
    type V = PackageView;

    open spec fn view(&self) -> PackageView {
        PackageView { path: self.path@, package_type: self.package_type, owner: self.owner@ }
    }
}

impl Package {
    /// The directory that holds the manifest.
    pub fn package_root<'a>(&'a self) -> (r: Option<&'a str>)
        ensures
            match r {
                Some(dir) => path::parent_text(self@.path) == Some(dir@),
                None => path::parent_text(self@.path) is None,
            },
    {
        parent(self.path.as_str())
    }
}

/// The packages of a list as values.
pub open spec fn package_views(list: Seq<Package>) -> Seq<PackageView> {
    list.map_values(|p: Package| p@)
}

/// The metadata of a package.
#[derive(Debug)]
pub struct Metadata {
    pub owner: Option<String>,
}

/// The manifest of a JavaScript package.
#[derive(Debug)]
pub struct JavascriptPackage {
    pub metadata: Option<Metadata>,
}

impl View for JavascriptPackage {
    type V = Option<Seq<char>>;

    /// The owner that the manifest names.
    open spec fn view(&self) -> Option<Seq<char>> {
        match self.metadata {
            Some(m) => text_option(m.owner),
            None => None,
        }
    }
}

/// A project.
#[derive(Debug)]
pub struct Project {
    pub base_path: String,
    pub files: Vec<ProjectFile>,
    pub packages: Vec<Package>,
    pub teams: Vec<Team>,
}

/// A [`Project`] as a value.
#[verifier::ext_equal]
pub struct ProjectView {
    pub base_path: Seq<char>,
    pub files: Seq<ProjectFileView>,
    pub packages: Seq<PackageView>,
    pub teams: Seq<TeamView>,
}

impl View for Project {
    type V = ProjectView;

    open spec fn view(&self) -> ProjectView {
        ProjectView {
            base_path: self.base_path@,
            files: file_views(self.files@),
            packages: package_views(self.packages@),
            teams: team_views(self.teams@),
        }
    }
}

impl ProjectView {
    /// `path` relative to the project.
    pub open spec fn relative(self, path: Seq<char>) -> Seq<char> {
        path_utils::relative_text(self.base_path, path)
    }
}

impl Project {
    /// `path` relative to the project.
    pub fn relative_path<'a>(&self, path: &'a str) -> (r: &'a str)
        ensures
            r@ == self@.relative(path@),
    {
        relative_to(self.base_path.as_str(), path)
    }
}

} // verus!
