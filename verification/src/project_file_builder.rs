//! The team that a file names in its first line.

use crate::cache::Cache;
use crate::outside;
use crate::outside::{decode, first_group};
use crate::path;
use crate::project;
use crate::project::{ProjectFile, ProjectFileView};
use crate::text;
use crate::text::trim_last;
use vstd::prelude::*;
use vstd::string::*;

verus! {

/// A comment that names a team, such as `# @team Payroll` or `<!-- team: Payroll -->`. The
/// group is the name.
pub const TEAM_PATTERN: &'static str = r#"^(?:#|//|<!--|<%#)\s*(?:@?team:?\s*)(.*?)\s*(?:-->|%>)?$"#;

/// A line without its terminator: a newline, with the carriage return right before it, if
/// there is one. A carriage return with no newline behind it is part of the line.
pub open spec fn line_text(line: Seq<char>) -> Seq<char> {
    if line.len() > 0 && line.last() == '\n' {
        text::without_last(line.drop_last(), '\r')
    } else {
        line
    }
}

/// The team that a line names, if it is an annotation.
pub open spec fn annotation_in(line: Seq<char>) -> Option<Seq<char>> {
    outside::regex_first_group(TEAM_PATTERN@, line)
}

/// The team that a file names in its first line. A file that could not be read, or whose
/// first line is no text, has no first line and names none.
pub open spec fn annotated_team(first_line: Option<Seq<char>>) -> Option<Seq<char>> {
    match first_line {
        Some(line) => annotation_in(line_text(line)),
        None => None,
    }
}

/// The team that `line` names, if it is an annotation.
pub fn team_annotation(line: &str) -> (r: Option<String>)
    ensures
        project::text_option(r) == annotation_in(line@),
{
    first_group(TEAM_PATTERN, line)
}

/// `line` as it was read, without its terminator.
pub fn first_line(line: &str) -> (r: &str)
    ensures
        r@ == line_text(line@),
{
    let n: usize = line.unicode_len();
    if n > 0 && line.get_char(n - 1) == '\n' {
        trim_last(line.substring_char(0, n - 1), '\r')
    } else {
        line
    }
}

/// The bytes of the first line of a file, with its terminator.
pub open spec fn first_line_bytes(contents: Seq<u8>) -> Seq<u8>
    decreases contents.len(),
{
    if contents.len() == 0 {
        contents
    } else if contents[0] == 0x0a {
        seq![contents[0]]
    } else {
        seq![contents[0]] + first_line_bytes(contents.skip(1))
    }
}

/// The first line of a file with these contents, if it is text.
pub open spec fn first_line_text(contents: Seq<u8>) -> Option<Seq<char>> {
    let line = first_line_bytes(contents);
    if vstd::utf8::valid_utf8(line) {
        Some(vstd::utf8::decode_utf8(line))
    } else {
        None
    }
}

/// The first line of a file with these contents, as it stands there. `None` if it is not
/// valid UTF-8; what follows the line does not matter.
pub fn read_first_line(contents: &Vec<u8>) -> (r: Option<String>)
    ensures
        project::text_option(r) == first_line_text(contents@),
{
    let mut line: Vec<u8> = Vec::new();
    assert(contents@.skip(0) =~= contents@);
    for i in 0..contents.len()
        invariant
            line@ + first_line_bytes(contents@.skip(i as int)) =~= first_line_bytes(contents@),
    {
        let ghost before = line@;
        assert(contents@.skip(i as int)[0] == contents@[i as int]);
        assert(contents@.skip(i as int).skip(1) =~= contents@.skip(i + 1));
        line.push(contents[i]);
        assert(line@ + first_line_bytes(contents@.skip(i + 1)) =~= before + (seq![contents@[i as int]]
            + first_line_bytes(contents@.skip(i + 1))));
        if contents[i] == 0x0a {
            assert(line@ =~= before + seq![contents@[i as int]]);
            return decode(line);
        }
    }
    assert(contents@.skip(contents@.len() as int) =~= Seq::empty());
    assert(line@ =~= first_line_bytes(contents@));
    decode(line)
}

/// Nothing that follows the first line of a file has a bearing on its annotation.
pub proof fn law_only_the_first_line_counts(line: Seq<u8>, rest: Seq<u8>)
    ensures
        first_line_bytes(line.push(0x0a) + rest) == first_line_bytes(line.push(0x0a)),
        first_line_text(line.push(0x0a) + rest) == first_line_text(line.push(0x0a)),
    decreases line.len(),
{
    let whole = line.push(0x0a) + rest;
    if line.len() > 0 && line[0] != 0x0a {
        assert(whole.skip(1) =~= line.skip(1).push(0x0a) + rest);
        assert(line.push(0x0a).skip(1) =~= line.skip(1).push(0x0a));
        law_only_the_first_line_counts(line.skip(1), rest);
    }
}

/// The file at `path` with the team that its first line names.
pub fn build_project_file_without_cache(path: &str, line: Option<&str>) -> (r: ProjectFile)
    ensures
        r@ == (ProjectFileView {
            path: path@,
            owner: annotated_team(
                match line {
                    Some(l) => Some(l@),
                    None => None,
                },
            ),
        }),
{
    let owner: Option<String> = match line {
        Some(l) => team_annotation(first_line(l)),
        None => None,
    };
    ProjectFile { path: path.to_owned(), owner }
}

/// Builds the files of a project, and reads again only what the cache does not know.
pub struct ProjectFileBuilder {
    global_cache: Cache,
}

impl ProjectFileBuilder {
    /// What the builder remembers.
    pub closed spec fn cache(self) -> Cache {
        self.global_cache
    }

    /// A builder that starts from what `global_cache` knows.
    pub fn new(global_cache: Cache) -> (r: ProjectFileBuilder)
        ensures
            r.cache() == global_cache,
    {
        ProjectFileBuilder { global_cache }
    }

    /// What is known at the end.
    pub fn into_cache(self) -> (r: Cache)
        ensures
            r == self.cache(),
    {
        self.global_cache
    }

    /// The file at `path`. `line` is its first line, if the file could be read; it is needed
    /// only for a file that [`ProjectFileBuilder::get_project_file_from_cache`] does not know.
    pub fn build(&mut self, path: &str, line: Option<&str>) -> (r: ProjectFile)
        ensures
            r@.path == path@,
            old(self).cache()@.contains_key(path::components(path@)) ==> {
                &&& r@.owner == old(self).cache()@[path::components(path@)]
                &&& final(self).cache() == old(self).cache()
            },
            !old(self).cache()@.contains_key(path::components(path@)) ==> {
                &&& r@.owner == annotated_team(
                    match line {
                        Some(l) => Some(l@),
                        None => None,
                    },
                )
                &&& (old(self).cache() is Noop <==> final(self).cache() is Noop)
                &&& old(self).cache() is Noop ==> final(self).cache()@ == old(self).cache()@
                &&& !(old(self).cache() is Noop) ==> final(self).cache()@ == old(self).cache()@.insert(
                    path::components(path@),
                    r@.owner,
                )
            },
    {
        if let Some(known) = self.get_project_file_from_cache(path) {
            return known;
        }
        let file = build_project_file_without_cache(path, line);
        self.save_project_file_to_cache(path, &file);
        file
    }

    /// The file at `path`, if the cache knows it.
    pub fn get_project_file_from_cache(&self, path: &str) -> (r: Option<ProjectFile>)
        ensures
            r is Some <==> self.cache()@.contains_key(path::components(path@)),
            r matches Some(file) ==> file@ == (ProjectFileView {
                path: path@,
                owner: self.cache()@[path::components(path@)],
            }),
    {
        match self.global_cache.get_file_owner(path) {
            Some(entry) => Some(ProjectFile { path: path.to_owned(), owner: entry.owner }),
            None => None,
        }
    }

    /// Remembers what `file`, at `path`, names.
    pub fn save_project_file_to_cache(&mut self, path: &str, file: &ProjectFile)
        ensures
            old(self).cache() is Noop <==> final(self).cache() is Noop,
            old(self).cache() is Noop ==> final(self).cache()@ == old(self).cache()@,
            !(old(self).cache() is Noop) ==> final(self).cache()@ == old(self).cache()@.insert(
                path::components(path@),
                file@.owner,
            ),
    {
        let owner: Option<String> = match &file.owner {
            Some(team) => Some(team.clone()),
            None => None,
        };
        self.global_cache.write_file_owner(path, owner);
    }
}

/// The terminator of a line is a newline, with one carriage return before it if there is one.
/// Without a newline at its end a line has no terminator.
pub proof fn law_terminators_are_no_part_of_a_line(line: Seq<char>)
    ensures
        line_text(line.push('\r').push('\n')) == line,
        line.len() == 0 || line.last() != '\r' ==> line_text(line.push('\n')) == line,
        line.len() == 0 || line.last() != '\n' ==> line_text(line) == line,
{
    assert(line.push('\r').push('\n').drop_last() =~= line.push('\r'));
    assert(line.push('\r').drop_last() =~= line);
    assert(line.push('\n').drop_last() =~= line);
}

/// The first line of a file is the beginning of the file up to the first newline, or all of
/// it if there is none.
pub proof fn law_the_first_line_ends_with_the_first_newline(contents: Seq<u8>)
    ensures
        ({
            let n = first_line_bytes(contents).len() as int;
            &&& n <= contents.len()
            &&& first_line_bytes(contents) == contents.take(n)
            &&& forall|i: int| 0 <= i < n - 1 ==> #[trigger] contents[i] != 0x0a
            &&& n < contents.len() ==> n > 0 && contents[n - 1] == 0x0a
        }),
    decreases contents.len(),
{
    let n = first_line_bytes(contents).len() as int;
    if contents.len() == 0 {
        assert(contents.take(0) =~= contents);
    } else if contents[0] == 0x0a {
        assert(contents.take(1) =~= seq![contents[0]]);
    } else {
        let rest = contents.skip(1);
        law_the_first_line_ends_with_the_first_newline(rest);
        assert(contents.take(n) =~= seq![contents[0]] + rest.take(n - 1));
        assert forall|i: int| 0 <= i < n - 1 implies #[trigger] contents[i] != 0x0a by {
            if i > 0 {
                assert(rest[i - 1] == contents[i]);
            }
        }
        if n < contents.len() {
            assert(rest[n - 2] == contents[n - 1]);
        }
    }
}

/// The team of a file is what the group of the pattern catches in its first line without the
/// terminator. A file whose first line is not text names none.
pub proof fn law_the_first_line_names_the_team(contents: Seq<u8>, line: Seq<char>, ends: Seq<char>)
    requires
        vstd::utf8::valid_utf8(first_line_bytes(contents)) ==> vstd::utf8::decode_utf8(first_line_bytes(contents))
            == line + ends,
        ends == Seq::<char>::empty() || ends == seq!['\n'] || ends == seq!['\r', '\n'],
        ends == Seq::<char>::empty() ==> line.len() == 0 || line.last() != '\n',
        ends == seq!['\n'] ==> line.len() == 0 || line.last() != '\r',
    ensures
        vstd::utf8::valid_utf8(first_line_bytes(contents)) ==> annotated_team(first_line_text(contents))
            == outside::regex_first_group(TEAM_PATTERN@, line),
        !vstd::utf8::valid_utf8(first_line_bytes(contents)) ==> annotated_team(first_line_text(contents)) is None,
        annotated_team(None) is None,
{
    law_terminators_are_no_part_of_a_line(line);
    if ends == Seq::<char>::empty() {
        assert(line + ends =~= line);
    } else if ends == seq!['\n'] {
        assert(line + ends =~= line.push('\n'));
    } else {
        assert(line + ends =~= line.push('\r').push('\n'));
    }
}

} // verus!
