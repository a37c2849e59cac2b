//! Who owns what.

use crate::order;
use crate::order::sort_texts;
use crate::ownership::mapper::{Source, SourceView};
use crate::ownership::validator::Validator;
use crate::project;
use crate::project::{Team, TeamView};
use crate::text;
use crate::text::join_texts;
use vstd::prelude::*;
use vstd::string::*;

pub mod claim_laws;
pub mod codeowners_query;
pub mod file_owner_finder;
pub mod file_owner_resolver;
pub mod judgement_laws;
pub mod laws;
pub mod mapper;
pub mod report_laws;
pub mod rule_laws;
pub mod team_cache;
pub mod validator;

verus! {

/// A team that owns a file, with its team file and everything that makes it an owner.
#[derive(Debug, PartialEq, Eq)]
pub struct FileOwner {
    pub team: Team,
    /// The team file, relative to the project.
    pub team_config_file_path: String,
    pub sources: Vec<Source>,
}

/// A [`FileOwner`] as a value.
#[verifier::ext_equal]
pub struct FileOwnerView {
    pub team: TeamView,
    pub team_config_file_path: Seq<char>,
    pub sources: Seq<SourceView>,
}

impl View for FileOwner {
    type V = FileOwnerView;

    open spec fn view(&self) -> FileOwnerView {
        FileOwnerView {
            team: self.team@,
            team_config_file_path: self.team_config_file_path@,
            sources: mapper::source_views(self.sources@),
        }
    }
}

/// The file owners of a list as values.
pub open spec fn file_owner_views(list: Seq<FileOwner>) -> Seq<FileOwnerView> {
    list.map_values(|o: FileOwner| o@)
}

/// Stands for the owner of a file that nobody owns.
pub open spec fn unowned() -> FileOwnerView {
    FileOwnerView {
        team: TeamView { name: "Unowned"@, github_team: "Unowned"@, ..project::no_team() },
        team_config_file_path: Seq::empty(),
        sources: Seq::empty(),
    }
}

impl Default for FileOwner {
    fn default() -> (r: FileOwner)
        ensures
            r@ == unowned(),
    {
        let none = Team::default();
        let team = Team { name: "Unowned".to_owned(), github_team: "Unowned".to_owned(), ..none };
        let r = FileOwner { team, team_config_file_path: String::new(), sources: Vec::new() };
        assert(r@ =~= unowned());
        r
    }
}

/// The sources of a list in words.
pub open spec fn descriptions(sources: Seq<SourceView>) -> Seq<Seq<char>> {
    sources.map_values(|s: SourceView| s.described())
}

/// The sources of `sources` in words.
pub fn describe_sources(sources: &Vec<Source>) -> (r: Vec<String>)
    ensures
        text::texts(r@) == descriptions(mapper::source_views(sources@)),
{
    let ghost all = descriptions(mapper::source_views(sources@));
    let mut r: Vec<String> = Vec::new();
    for i in 0..sources.len()
        invariant
            all == descriptions(mapper::source_views(sources@)),
            text::texts(r@) == all.take(i as int),
    {
        let ghost before = r@;
        r.push(sources[i].to_string());
        assert(text::texts(r@) =~= text::texts(before).push(all[i as int]));
        assert(all.take(i + 1) =~= all.take(i as int).push(all[i as int]));
    }
    assert(all.take(sources@.len() as int) =~= all);
    r
}

impl FileOwnerView {
    /// The owner in words.
    pub open spec fn described(self) -> Seq<char> {
        "Team: "@ + self.team.name + "\nGithub Team: "@ + self.team.github_team + "\nTeam YML: "@
            + self.team_config_file_path + "\nDescription: "@ + if self.sources.len() == 0 {
            "Unowned"@
        } else {
            "\n- "@ + text::joined(order::sorted_texts(descriptions(self.sources)), "\n- "@)
        }
    }
}

impl FileOwner {
    /// The owner in words.
    pub fn to_string(&self) -> (r: String)
        ensures
            r@ == self@.described(),
    {
        let mut r = "Team: ".to_owned();
        r.append(self.team.name.as_str());
        r.append("\nGithub Team: ");
        r.append(self.team.github_team.as_str());
        r.append("\nTeam YML: ");
        r.append(self.team_config_file_path.as_str());
        r.append("\nDescription: ");
        if self.sources.len() == 0 {
            r.append("Unowned");
        } else {
            let list = sort_texts(&describe_sources(&self.sources));
            let ghost head = r@;
            r.append("\n- ");
            r.append(join_texts(&list, "\n- ").as_str());
            assert(r@ =~= head + ("\n- "@ + text::joined(text::texts(list@), "\n- "@)));
        }
        r
    }
}

/// The ownership that a project declares, and the CODEOWNERS file that it gives.
pub struct Ownership {
    pub validator: Validator,
    pub generated_file: String,
}

/// What a team owns in one category.
#[derive(Debug)]
pub struct TeamOwnership {
    pub heading: String,
    pub globs: Vec<String>,
}

/// A [`TeamOwnership`] as a value.
#[verifier::ext_equal]
pub struct TeamOwnershipView {
    pub heading: Seq<char>,
    pub globs: Seq<Seq<char>>,
}

impl View for TeamOwnership {
    type V = TeamOwnershipView;

    open spec fn view(&self) -> TeamOwnershipView {
        TeamOwnershipView { heading: self.heading@, globs: text::texts(self.globs@) }
    }
}

/// The categories of a list as values.
pub open spec fn team_ownership_views(list: Seq<TeamOwnership>) -> Seq<TeamOwnershipView> {
    list.map_values(|t: TeamOwnership| t@)
}

} // verus!
