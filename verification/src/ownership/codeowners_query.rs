//! The teams that the CODEOWNERS file names for some files.

use crate::path;
use crate::path_utils;
use crate::path_utils::{DiskFacts, DiskView, resolve_project_relative};
use crate::text;
use crate::text::copy_texts;
use vstd::prelude::*;
use vstd::string::*;

verus! {

/// Where the CODEOWNERS file is read, and which teams it can name.
#[derive(Debug)]
pub struct Parser {
    pub codeowners_file_path: String,
    pub project_root: String,
    pub team_file_globs: Vec<String>,
}

/// A [`Parser`] as a value.
#[verifier::ext_equal]
pub struct ParserView {
    pub codeowners_file_path: Seq<char>,
    pub project_root: Seq<char>,
    pub team_file_globs: Seq<Seq<char>>,
}

impl View for Parser {
    type V = ParserView;

    open spec fn view(&self) -> ParserView {
        ParserView {
            codeowners_file_path: self.codeowners_file_path@,
            project_root: self.project_root@,
            team_file_globs: text::texts(self.team_file_globs@),
        }
    }
}

/// What a file is looked up under: its place in the project, or, if it has none, its path as
/// given.
pub open spec fn queried_path(
    root: Seq<char>,
    canonical_root: Option<Seq<char>>,
    disk: DiskFacts,
    file_path: Seq<char>,
) -> Seq<char> {
    match path_utils::resolved_text(root, canonical_root, file_path, disk) {
        Some(relative) => relative,
        None => file_path,
    }
}

/// What each file of a list is looked up under.
pub open spec fn queried_paths(
    root: Seq<char>,
    canonical_root: Option<Seq<char>>,
    disk: DiskFacts,
    file_paths: Seq<Seq<char>>,
) -> Seq<Seq<char>> {
    file_paths.map_values(|p: Seq<char>| queried_path(root, canonical_root, disk, p))
}

/// What each of `file_paths` is looked up under. Every path keeps its entry.
pub fn relative_file_paths(
    project_root: &str,
    canonical_root: Option<&str>,
    disk: &DiskView,
    file_paths: &Vec<String>,
) -> (r: Vec<String>)
    ensures
        text::texts(r@) == queried_paths(
            project_root@,
            match canonical_root {
                Some(c) => Some(c@),
                None => None,
            },
            disk@,
            text::texts(file_paths@),
        ),
{
    let ghost canonical = match canonical_root {
        Some(c) => Some(c@),
        None => None,
    };
    let ghost all = queried_paths(project_root@, canonical, disk@, text::texts(file_paths@));
    let mut r: Vec<String> = Vec::new();
    for i in 0..file_paths.len()
        invariant
            canonical == match canonical_root {
                Some(c) => Some(c@),
                None => None,
            },
            all == queried_paths(project_root@, canonical, disk@, text::texts(file_paths@)),
            text::texts(r@) == all.take(i as int),
    {
        let ghost before = r@;
        let path = file_paths[i].as_str();
        match resolve_project_relative(project_root, canonical_root, path, disk) {
            Some(relative) => r.push(relative),
            None => r.push(file_paths[i].clone()),
        }
        assert(all[i as int] == queried_path(project_root@, canonical, disk@, file_paths@[i as int]@));
        assert(text::texts(r@) =~= text::texts(before).push(all[i as int]));
        assert(all.take(i + 1) =~= all.take(i as int).push(all[i as int]));
    }
    assert(all.take(file_paths@.len() as int) =~= all);
    r
}

/// Asks `teams_from_files_paths` for the teams of `file_paths`, each under its place in the
/// project, and gives its answer.
pub fn teams_for_files_from_codeowners<T, F>(
    project_root: &str,
    canonical_root: Option<&str>,
    disk: &DiskView,
    codeowners_file_path: &str,
    team_file_globs: &Vec<String>,
    file_paths: &Vec<String>,
    teams_from_files_paths: F,
) -> (r: Result<T, String>) where F: FnOnce(Parser, Vec<String>) -> Result<T, String>
    requires
        forall|parser: Parser, paths: Vec<String>|
            parser@ == (ParserView {
                codeowners_file_path: codeowners_file_path@,
                project_root: project_root@,
                team_file_globs: text::texts(team_file_globs@),
            }) && text::texts(paths@) == queried_paths(
                project_root@,
                match canonical_root {
                    Some(c) => Some(c@),
                    None => None,
                },
                disk@,
                text::texts(file_paths@),
            ) ==> #[trigger] call_requires(teams_from_files_paths, (parser, paths)),
    ensures
        exists|parser: Parser, paths: Vec<String>| #[trigger]
            call_ensures(teams_from_files_paths, (parser, paths), r) && parser@ == (ParserView {
                codeowners_file_path: codeowners_file_path@,
                project_root: project_root@,
                team_file_globs: text::texts(team_file_globs@),
            }) && text::texts(paths@) == queried_paths(
                project_root@,
                match canonical_root {
                    Some(c) => Some(c@),
                    None => None,
                },
                disk@,
                text::texts(file_paths@),
            ),
{
    let paths = relative_file_paths(project_root, canonical_root, disk, file_paths);
    let parser = Parser {
        codeowners_file_path: codeowners_file_path.to_owned(),
        project_root: project_root.to_owned(),
        team_file_globs: copy_texts(team_file_globs),
    };
    teams_from_files_paths(parser, paths)
}

/// Every file that is asked for is looked up, in the order given.
pub proof fn law_every_path_is_looked_up(
    root: Seq<char>,
    canonical_root: Option<Seq<char>>,
    disk: DiskFacts,
    file_paths: Seq<Seq<char>>,
)
    ensures
        queried_paths(root, canonical_root, disk, file_paths).len() == file_paths.len(),
        forall|i: int|
            0 <= i < file_paths.len() ==> #[trigger] queried_paths(root, canonical_root, disk, file_paths)[i]
                == queried_path(root, canonical_root, disk, file_paths[i]),
{
}

/// A file of the project is looked up alike, whether its path is given relative to the
/// project or in full.
pub proof fn law_full_paths_are_looked_up_alike(
    root: Seq<char>,
    canonical_root: Option<Seq<char>>,
    disk: DiskFacts,
    path: Seq<char>,
)
    requires
        path::is_absolute(root),
        !path::is_absolute(path),
        path_utils::project_relative_text(root, path) is Some,
    ensures
        queried_path(root, canonical_root, disk, path::join_text(root, path)) == queried_path(
            root,
            canonical_root,
            disk,
            path,
        ),
{
    path_utils::law_absolute_and_relative_agree(root, path);
}

/// A file of the project is looked up alike, whether its path is given relative to the
/// project or in full below the resolved root, as long as its directory resolves to itself.
pub proof fn law_resolved_paths_are_looked_up_alike(
    root: Seq<char>,
    canonical_root: Seq<char>,
    disk: DiskFacts,
    path: Seq<char>,
    dir: Seq<char>,
    home: Seq<char>,
)
    requires
        path::is_absolute(canonical_root),
        !path::is_absolute(path),
        path_utils::project_relative_text(root, path) is Some,
        path::file_name_text(path) is Some,
        path_utils::project_relative_text(root, path::join_text(canonical_root, path)) is None,
        path::parent_text(path::join_text(canonical_root, path)) == Some(dir),
        path_utils::first_entry(disk.resolved, dir) == Some(home),
        path::same_path(home, dir),
    ensures
        queried_path(root, Some(canonical_root), disk, path::join_text(canonical_root, path)) == queried_path(
            root,
            Some(canonical_root),
            disk,
            path,
        ),
{
    path_utils::law_resolved_root_completes_the_path(root, canonical_root, path, dir, home, disk);
}

/// A path is looked up under its place in the project, and as it is given if it has none.
pub proof fn law_paths_are_looked_up_under_their_place(
    root: Seq<char>,
    canonical_root: Option<Seq<char>>,
    disk: DiskFacts,
    file_path: Seq<char>,
    place: Seq<char>,
)
    ensures
        path_utils::resolved_text(root, canonical_root, file_path, disk) == Some(place) ==> queried_path(
            root,
            canonical_root,
            disk,
            file_path,
        ) == place,
        path_utils::resolved_text(root, canonical_root, file_path, disk) is None ==> queried_path(
            root,
            canonical_root,
            disk,
            file_path,
        ) == file_path,
{
}

} // verus!
