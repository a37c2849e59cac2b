//! What is remembered of files that were read before.

use crate::path;
use crate::path::is_same;
use crate::project;
use crate::project::ProjectFile;
use vstd::prelude::*;
use vstd::string::*;

verus! {

/// The files whose annotations are known and still hold.
pub enum Cache {
    /// Remembers nothing.
    Noop,
    /// Remembers what was written last for each file.
    Global(Vec<ProjectFile>),
}

/// What a cache knows of a file.
pub struct CacheEntry {
    pub owner: Option<String>,
}

/// The teams that a list of files names, each file known by its components.
pub open spec fn known_owners(files: Seq<ProjectFile>) -> Map<Seq<Seq<char>>, Option<Seq<char>>>
    decreases files.len(),
{
    if files.len() == 0 {
        Map::empty()
    } else {
        known_owners(files.drop_last()).insert(path::components(files.last().path@), project::text_option(
            files.last().owner,
        ))
    }
}

impl View for Cache {
    type V = Map<Seq<Seq<char>>, Option<Seq<char>>>;

    open spec fn view(&self) -> Map<Seq<Seq<char>>, Option<Seq<char>>> {
        match self {
            Cache::Noop => Map::empty(),
            Cache::Global(files) => known_owners(files@),
        }
    }
}

impl Cache {
    /// What the cache knows of the file at `path`.
    pub fn get_file_owner(&self, path: &str) -> (r: Option<CacheEntry>)
        ensures
            r is Some <==> self@.contains_key(path::components(path@)),
            r matches Some(entry) ==> project::text_option(entry.owner) == self@[path::components(path@)],
    {
        match self {
            Cache::Noop => None,
            Cache::Global(files) => {
                let ghost key = path::components(path@);
                let mut i: usize = files.len();
                assert(files@.take(i as int) =~= files@);
                while i > 0
                    invariant
                        i <= files.len(),
                        key == path::components(path@),
                        self@ == known_owners(files@),
                        known_owners(files@.take(i as int)).contains_key(key) <==> self@.contains_key(key),
                        self@.contains_key(key) ==> known_owners(files@.take(i as int))[key] == self@[key],
                    decreases i,
                {
                    let file = &files[i - 1];
                    assert(files@.take(i as int).drop_last() =~= files@.take(i - 1));
                    assert(files@.take(i as int).last() == *file);
                    if is_same(file.path.as_str(), path) {
                        let owner: Option<String> = match &file.owner {
                            Some(team) => Some(team.clone()),
                            None => None,
                        };
                        return Some(CacheEntry { owner });
                    }
                    i = i - 1;
                }
                None
            },
        }
    }

    /// Remembers the team that the file at `path` names.
    pub fn write_file_owner(&mut self, path: &str, owner: Option<String>)
        ensures
            *old(self) is Noop <==> *final(self) is Noop,
            *old(self) is Noop ==> final(self)@ == old(self)@,
            !(*old(self) is Noop) ==> final(self)@ == old(self)@.insert(
                path::components(path@),
                project::text_option(owner),
            ),
    {
        match self {
            Cache::Noop => {},
            Cache::Global(files) => {
                let ghost before = files@;
                files.push(ProjectFile { path: path.to_owned(), owner });
                assert(files@.drop_last() =~= before);
            },
        }
    }
}

/// A list of files knows just the files that it holds, however spelled, and of each what
/// stands last.
pub proof fn law_the_last_entry_counts(files: Seq<ProjectFile>, key: Seq<Seq<char>>)
    ensures
        known_owners(files).contains_key(key) <==> exists|i: int|
            0 <= i < files.len() && path::components((#[trigger] files[i]).path@) == key,
        known_owners(files).contains_key(key) ==> exists|i: int|
            0 <= i < files.len() && path::components((#[trigger] files[i]).path@) == key && known_owners(files)[key]
                == project::text_option(files[i].owner) && (forall|j: int|
                i < j < files.len() ==> path::components((#[trigger] files[j]).path@) != key),
    decreases files.len(),
{
    if files.len() > 0 {
        let init = files.drop_last();
        let last = files.len() - 1;
        law_the_last_entry_counts(init, key);
        assert(files[last] == files.last());
        assert forall|i: int| 0 <= i < init.len() implies #[trigger] init[i] == files[i] by {}
        if path::components(files[last].path@) == key {
            assert(known_owners(files)[key] == project::text_option(files[last].owner));
        } else if known_owners(init).contains_key(key) {
            let i = choose|i: int|
                0 <= i < init.len() && path::components((#[trigger] init[i]).path@) == key && known_owners(init)[key]
                    == project::text_option(init[i].owner) && (forall|j: int|
                    i < j < init.len() ==> path::components((#[trigger] init[j]).path@) != key);
            assert(files[i] == init[i]);
            assert forall|j: int| i < j < files.len() implies path::components((#[trigger] files[j]).path@) != key by {
                if j < last {
                    assert(init[j] == files[j]);
                }
            }
        } else if exists|i: int| 0 <= i < files.len() && path::components((#[trigger] files[i]).path@) == key {
            let i = choose|i: int| 0 <= i < files.len() && path::components((#[trigger] files[i]).path@) == key;
            assert(init[i] == files[i]);
        }
    }
}

/// A cache that remembers nothing knows no file; another knows just the files that it holds,
/// in whatever spelling, and of each what was written last.
pub proof fn law_what_a_cache_knows(files: Vec<ProjectFile>, key: Seq<Seq<char>>)
    ensures
        !Cache::Noop@.contains_key(key),
        Cache::Global(files)@.contains_key(key) <==> exists|i: int|
            0 <= i < files@.len() && path::components((#[trigger] files@[i]).path@) == key,
        Cache::Global(files)@.contains_key(key) ==> exists|i: int|
            0 <= i < files@.len() && path::components((#[trigger] files@[i]).path@) == key && Cache::Global(
                files,
            )@[key] == project::text_option(files@[i].owner) && (forall|j: int|
                i < j < files@.len() ==> path::components((#[trigger] files@[j]).path@) != key),
{
    law_the_last_entry_counts(files@, key);
}

} // verus!
