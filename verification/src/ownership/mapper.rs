//! Where ownership comes from, and the rules that attribute files to teams.

use crate::outside;
use crate::outside::glob_match;
use crate::path;
use crate::path::is_same;
use crate::text;
use crate::text::chars_of;
use vstd::prelude::*;
use vstd::string::*;

verus! {

/// The name of a team.
pub type TeamName = String;

/// What makes a team the owner of a file.
#[derive(Debug, PartialEq, Eq)]
pub enum Source {
    /// A `.codeowner` file in this directory.
    Directory(String),
    /// An annotation in the first line of the file.
    AnnotatedFile,
    /// The gems that a team file lists.
    TeamGem,
    /// A glob that a team file lists.
    TeamGlob(String),
    /// The manifest of a package, and the glob of the files that the package holds.
    Package(String, String),
    /// The file is the team file itself.
    TeamYml,
}

/// A [`Source`] as a value.
#[verifier::ext_equal]
pub enum SourceView {
    Directory(Seq<char>),
    AnnotatedFile,
    TeamGem,
    TeamGlob(Seq<char>),
    Package(Seq<char>, Seq<char>),
    TeamYml,
}

impl View for Source {
    type V = SourceView;

    open spec fn view(&self) -> SourceView {
        match self {
            Source::Directory(dir) => SourceView::Directory(dir@),
            Source::AnnotatedFile => SourceView::AnnotatedFile,
            Source::TeamGem => SourceView::TeamGem,
            Source::TeamGlob(glob) => SourceView::TeamGlob(glob@),
            Source::Package(manifest, glob) => SourceView::Package(manifest@, glob@),
            Source::TeamYml => SourceView::TeamYml,
        }
    }
}

/// How often `c` occurs in `t`.
pub open spec fn occurrences(t: Seq<char>, c: char) -> nat
    decreases t.len(),
{
    if t.len() == 0 {
        0
    } else {
        occurrences(t.drop_last(), c) + if t.last() == c {
            1nat
        } else {
            0nat
        }
    }
}

impl SourceView {
    /// How specific a source is: how deep its directory lies.
    pub open spec fn depth(self) -> nat {
        match self {
            SourceView::Directory(dir) => occurrences(dir, '/'),
            _ => 0,
        }
    }

    /// The source in words.
    pub open spec fn described(self) -> Seq<char> {
        match self {
            SourceView::Directory(dir) => "Owner specified in `"@ + dir + "/.codeowner`"@,
            SourceView::AnnotatedFile => "Owner annotation at the top of the file"@,
            SourceView::TeamGem => "Owner specified in Team YML's `owned_gems`"@,
            SourceView::TeamGlob(glob) => "Owner specified in Team YML as an owned_glob `"@ + glob + "`"@,
            SourceView::Package(manifest, glob) => "Owner defined in `"@ + manifest
                + "` with implicity owned glob: `"@ + glob + "`"@,
            SourceView::TeamYml => "Owner specified in Team YML itself (Teams own their configuration files)"@,
        }
    }
}

/// The sources of a list as values.
pub open spec fn source_views(list: Seq<Source>) -> Seq<SourceView> {
    list.map_values(|s: Source| s@)
}

impl Clone for Source {
    fn clone(&self) -> (r: Source)
        ensures
            r@ == self@,
    {
        match self {
            Source::Directory(dir) => Source::Directory(dir.clone()),
            Source::AnnotatedFile => Source::AnnotatedFile,
            Source::TeamGem => Source::TeamGem,
            Source::TeamGlob(glob) => Source::TeamGlob(glob.clone()),
            Source::Package(manifest, glob) => Source::Package(manifest.clone(), glob.clone()),
            Source::TeamYml => Source::TeamYml,
        }
    }
}

impl Source {
    /// How specific the source is: how deep its directory lies.
    pub fn len(&self) -> (r: usize)
        ensures
            r == self@.depth(),
    {
        match self {
            Source::Directory(dir) => {
                let t = chars_of(dir.as_str());
                let mut n: usize = 0;
                assert(t@.take(0) =~= Seq::empty());
                for i in 0..t.len()
                    invariant
                        n <= i,
                        n == occurrences(t@.take(i as int), '/'),
                {
                    assert(t@.take(i + 1).drop_last() =~= t@.take(i as int));
                    assert(t@.take(i + 1).last() == t@[i as int]);
                    if t[i] == '/' {
                        n = n + 1;
                    }
                }
                assert(t@.take(t@.len() as int) =~= t@);
                n
            },
            _ => 0,
        }
    }

    /// Whether the source is a directory.
    pub fn is_directory(&self) -> (r: bool)
        ensures
            r == (self@ is Directory),
    {
        match self {
            Source::Directory(_) => true,
            _ => false,
        }
    }

    /// The source in words.
    pub fn to_string(&self) -> (r: String)
        ensures
            r@ == self@.described(),
    {
        match self {
            Source::Directory(dir) => {
                let mut r = "Owner specified in `".to_owned();
                r.append(dir.as_str());
                r.append("/.codeowner`");
                r
            },
            Source::AnnotatedFile => "Owner annotation at the top of the file".to_owned(),
            Source::TeamGem => "Owner specified in Team YML's `owned_gems`".to_owned(),
            Source::TeamGlob(glob) => {
                let mut r = "Owner specified in Team YML as an owned_glob `".to_owned();
                r.append(glob.as_str());
                r.append("`");
                r
            },
            Source::Package(manifest, glob) => {
                let mut r = "Owner defined in `".to_owned();
                r.append(manifest.as_str());
                r.append("` with implicity owned glob: `");
                r.append(glob.as_str());
                r.append("`");
                r
            },
            Source::TeamYml => "Owner specified in Team YML itself (Teams own their configuration files)".to_owned(),
        }
    }
}

/// A copy of a list of sources.
pub fn copy_sources(list: &Vec<Source>) -> (r: Vec<Source>)
    ensures
        source_views(r@) == source_views(list@),
{
    let mut r: Vec<Source> = Vec::new();
    for i in 0..list.len()
        invariant
            source_views(r@) == source_views(list@).take(i as int),
    {
        let ghost before = r@;
        r.push(list[i].clone());
        assert(source_views(r@) =~= source_views(before).push(source_views(list@)[i as int]));
        assert(source_views(list@).take(i + 1) =~= source_views(list@).take(i as int).push(
            source_views(list@)[i as int],
        ));
    }
    assert(source_views(list@).take(list@.len() as int) =~= source_views(list@));
    r
}

/// Whether some glob of a list matches a path.
pub open spec fn any_glob_matches(globs: Seq<Seq<char>>, path: Seq<char>) -> bool {
    exists|i: int| 0 <= i < globs.len() && outside::glob_matches(#[trigger] globs[i], path)
}

/// Whether some glob of `globs` matches `path`.
pub fn glob_list_matches(path: &str, globs: &Vec<String>) -> (r: bool)
    ensures
        r == any_glob_matches(text::texts(globs@), path@),
{
    for i in 0..globs.len()
        invariant
            forall|j: int| 0 <= j < i ==> !outside::glob_matches(#[trigger] text::texts(globs@)[j], path@),
    {
        assert(text::texts(globs@)[i as int] == globs@[i as int]@);
        if glob_match(globs[i].as_str(), path) {
            return true;
        }
    }
    false
}

/// A rule that attributes files to a team.
#[derive(Debug)]
pub enum OwnerMatcher {
    /// Files named one by one, each with its team.
    ExactMatches(Vec<(String, TeamName)>, Source),
    /// The files that match a glob and none of the subtracted ones.
    Glob { glob: String, subtracted_globs: Vec<String>, team_name: TeamName, source: Source },
}

/// An [`OwnerMatcher`] as a value.
#[verifier::ext_equal]
pub enum OwnerMatcherView {
    ExactMatches(Seq<(Seq<char>, Seq<char>)>, SourceView),
    Glob { glob: Seq<char>, subtracted_globs: Seq<Seq<char>>, team_name: Seq<char>, source: SourceView },
}

impl View for OwnerMatcher {
    type V = OwnerMatcherView;

    open spec fn view(&self) -> OwnerMatcherView {
        match self {
            OwnerMatcher::ExactMatches(list, source) => OwnerMatcherView::ExactMatches(
                list@.map_values(|e: (String, String)| (e.0@, e.1@)),
                source@,
            ),
            OwnerMatcher::Glob { glob, subtracted_globs, team_name, source } => OwnerMatcherView::Glob {
                glob: glob@,
                subtracted_globs: text::texts(subtracted_globs@),
                team_name: team_name@,
                source: source@,
            },
        }
    }
}

/// The rules of a list as values.
pub open spec fn matcher_views(list: Seq<OwnerMatcher>) -> Seq<OwnerMatcherView> {
    list.map_values(|m: OwnerMatcher| m@)
}

/// The team of the first entry that names `path`.
pub open spec fn exact_match(list: Seq<(Seq<char>, Seq<char>)>, path: Seq<char>) -> Option<Seq<char>>
    decreases list.len(),
{
    if list.len() == 0 {
        None
    } else if path::same_path(list[0].0, path) {
        Some(list[0].1)
    } else {
        exact_match(list.skip(1), path)
    }
}

impl OwnerMatcherView {
    /// The team to which the rule attributes `path`, if it does.
    pub open spec fn owner(self, path: Seq<char>) -> Option<Seq<char>> {
        match self {
            OwnerMatcherView::ExactMatches(list, _) => exact_match(list, path),
            OwnerMatcherView::Glob { glob, subtracted_globs, team_name, .. } => if outside::glob_matches(glob, path)
                && !any_glob_matches(subtracted_globs, path) {
                Some(team_name)
            } else {
                None
            },
        }
    }

    /// What the rule goes by.
    pub open spec fn source(self) -> SourceView {
        match self {
            OwnerMatcherView::ExactMatches(_, source) => source,
            OwnerMatcherView::Glob { source, .. } => source,
        }
    }
}

impl OwnerMatcher {
    /// The team to which the rule attributes `relative_path`, if it does, and what the rule
    /// goes by.
    pub fn owner_for(&self, relative_path: &str) -> (r: (Option<&TeamName>, &Source))
        ensures
            match r.0 {
                Some(team) => self@.owner(relative_path@) == Some(team@),
                None => self@.owner(relative_path@) is None,
            },
            r.1@ == self@.source(),
    {
        match self {
            OwnerMatcher::Glob { glob, subtracted_globs, team_name, source } => {
                if glob_match(glob.as_str(), relative_path) && !glob_list_matches(relative_path, subtracted_globs) {
                    (Some(team_name), source)
                } else {
                    (None, source)
                }
            },
            OwnerMatcher::ExactMatches(list, source) => {
                let ghost all = list@.map_values(|e: (String, String)| (e.0@, e.1@));
                assert(all.skip(0) =~= all);
                for i in 0..list.len()
                    invariant
                        all == list@.map_values(|e: (String, String)| (e.0@, e.1@)),
                        self@ == OwnerMatcherView::ExactMatches(all, source@),
                        exact_match(all, relative_path@) == exact_match(all.skip(i as int), relative_path@),
                {
                    assert(all.skip(i as int)[0] == (list@[i as int].0@, list@[i as int].1@));
                    assert(all.skip(i as int).skip(1) =~= all.skip(i + 1));
                    if is_same(list[i].0.as_str(), relative_path) {
                        return (Some(&list[i].1), source);
                    }
                }
                assert(all.skip(all.len() as int) =~= Seq::empty());
                (None, source)
            },
        }
    }
}

impl Clone for OwnerMatcher {
    fn clone(&self) -> (r: OwnerMatcher)
        ensures
            r@ == self@,
    {
        match self {
            OwnerMatcher::Glob { glob, subtracted_globs, team_name, source } => OwnerMatcher::Glob {
                glob: glob.clone(),
                subtracted_globs: text::copy_texts(subtracted_globs),
                team_name: team_name.clone(),
                source: source.clone(),
            },
            OwnerMatcher::ExactMatches(list, source) => {
                let ghost all = list@.map_values(|e: (String, String)| (e.0@, e.1@));
                let mut copy: Vec<(String, TeamName)> = Vec::new();
                for i in 0..list.len()
                    invariant
                        all == list@.map_values(|e: (String, String)| (e.0@, e.1@)),
                        copy@.map_values(|e: (String, String)| (e.0@, e.1@)) == all.take(i as int),
                {
                    let ghost before = copy@;
                    copy.push((list[i].0.clone(), list[i].1.clone()));
                    assert(copy@.map_values(|e: (String, String)| (e.0@, e.1@)) =~= before.map_values(
                        |e: (String, String)| (e.0@, e.1@),
                    ).push(all[i as int]));
                    assert(all.take(i + 1) =~= all.take(i as int).push(all[i as int]));
                }
                assert(all.take(list@.len() as int) =~= all);
                OwnerMatcher::ExactMatches(copy, source.clone())
            },
        }
    }
}

/// What one kind of ownership contributes: the rules that it found in the project.
#[derive(Debug)]
pub struct Mapper {
    pub owner_matchers: Vec<OwnerMatcher>,
}

/// The rules of all kinds of ownership, one kind after the other.
pub open spec fn all_rules(mappers: Seq<Mapper>) -> Seq<OwnerMatcherView>
    decreases mappers.len(),
{
    if mappers.len() == 0 {
        Seq::empty()
    } else {
        all_rules(mappers.drop_last()) + matcher_views(mappers.last().owner_matchers@)
    }
}

/// The rules of all of `mappers`.
pub fn collect_matchers(mappers: &Vec<Mapper>) -> (r: Vec<OwnerMatcher>)
    ensures
        matcher_views(r@) == all_rules(mappers@),
{
    let mut r: Vec<OwnerMatcher> = Vec::new();
    assert(mappers@.take(0) =~= Seq::empty());
    assert(matcher_views(r@) =~= Seq::empty());
    for i in 0..mappers.len()
        invariant
            matcher_views(r@) == all_rules(mappers@.take(i as int)),
    {
        let list = &mappers[i].owner_matchers;
        let ghost before = matcher_views(r@);
        let ghost views = matcher_views(list@);
        assert(before + views.take(0) =~= before);
        for j in 0..list.len()
            invariant
                views == matcher_views(list@),
                matcher_views(r@) == before + views.take(j as int),
        {
            let ghost old_r = r@;
            r.push(list[j].clone());
            assert(matcher_views(r@) =~= matcher_views(old_r).push(views[j as int]));
            assert(before + views.take(j + 1) =~= (before + views.take(j as int)).push(views[j as int]));
        }
        assert(views.take(list@.len() as int) =~= views);
        assert(mappers@.take(i + 1).drop_last() =~= mappers@.take(i as int));
        assert(mappers@.take(i + 1).last() == mappers@[i as int]);
    }
    assert(mappers@.take(mappers@.len() as int) =~= mappers@);
    r
}

} // verus!
