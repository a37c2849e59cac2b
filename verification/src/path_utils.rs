//! From the paths that a caller supplies to paths relative to the project.

use crate::path;
use crate::path::{components_of, file_name, is_normal_component, is_rooted, join, parent, strip_prefix};
use crate::text;
use vstd::prelude::*;
use vstd::string::*;

verus! {

/// The components of a path with `.` dropped and each `..` resolved against the entry
/// before it. A `..` with nothing before it to resolve stays.
pub open spec fn normalized(cs: Seq<Seq<char>>) -> Seq<Seq<char>>
    decreases cs.len(),
{
    if cs.len() == 0 {
        Seq::empty()
    } else {
        let before = normalized(cs.drop_last());
        let c = cs.last();
        if c == "."@ {
            before
        } else if c != ".."@ {
            before.push(c)
        } else if before.len() > 0 && path::is_normal(before.last()) {
            before.drop_last()
        } else {
            before.push(c)
        }
    }
}

/// The text of a path with the given components.
pub open spec fn spelled(cs: Seq<Seq<char>>) -> Seq<char>
    decreases cs.len(),
{
    if cs.len() == 0 {
        Seq::empty()
    } else {
        path::join_text(spelled(cs.drop_last()), cs.last())
    }
}

/// `path` relative to `root` where it lies there, else unchanged.
pub open spec fn relative_text(root: Seq<char>, path: Seq<char>) -> Seq<char> {
    match path::stripped_text(path, root) {
        Some(rest) => rest,
        None => path,
    }
}

/// The project-relative form of `path`, for a project at `root`.
///
/// An absolute path that does not lie under `root` has none. Neither has a path that
/// leaves `root` through `..`, nor `root` itself.
pub open spec fn project_relative_text(root: Seq<char>, path: Seq<char>) -> Option<Seq<char>> {
    let below = if path::is_absolute(path) {
        path::stripped_text(path, root)
    } else {
        Some(path)
    };
    match below {
        None => None,
        Some(rest) => {
            let cs = normalized(path::components(rest));
            if cs.len() == 0 || cs[0] == ".."@ {
                None
            } else {
                Some(spelled(cs))
            }
        },
    }
}

/// `path` relative to `root` if possible; otherwise `path` unchanged.
pub fn relative_to<'a>(root: &str, path: &'a str) -> (r: &'a str)
    ensures
        r@ == relative_text(root@, path@),
{
    match strip_prefix(path, root) {
        Some(rest) => rest,
        None => path,
    }
}

/// Like [`relative_to`], but owned.
pub fn relative_to_buf(root: &str, path: &str) -> (r: String)
    ensures
        r@ == relative_text(root@, path@),
{
    relative_to(root, path).to_owned()
}

/// The components of `path`, with `.` and `..` resolved without a look at the disk.
///
/// Resolving symbolic links as well would name the target of a link, and the project lists
/// the link.
pub fn lexically_normalize(path: &str) -> (r: Vec<String>)
    ensures
        text::texts(r@) == normalized(path::components(path@)),
{
    let cs = components_of(path);
    let mut r: Vec<String> = Vec::new();
    assert(text::texts(cs@).take(0) =~= Seq::empty());
    assert(text::texts(r@) =~= Seq::empty());
    for i in 0..cs.len()
        invariant
            text::texts(cs@) == path::components(path@),
            text::texts(r@) == normalized(text::texts(cs@).take(i as int)),
    {
        let ghost before = r@;
        proof {
            let now = text::texts(cs@).take(i + 1);
            assert(now.drop_last() =~= text::texts(cs@).take(i as int));
            assert(now.last() == cs@[i as int]@);
            assert(before.len() > 0 ==> text::texts(before).last() == before.last()@);
        }
        let c = &cs[i];
        if *c == ".".to_owned() {
        } else if *c == "..".to_owned() {
            if r.len() > 0 && is_normal_component(&r[r.len() - 1]) {
                r.pop();
                assert(text::texts(r@) =~= text::texts(before).drop_last());
            } else {
                r.push(c.clone());
                assert(text::texts(r@) =~= text::texts(before).push(c@));
            }
        } else {
            r.push(c.clone());
            assert(text::texts(r@) =~= text::texts(before).push(c@));
        }
    }
    assert(text::texts(cs@).take(cs@.len() as int) =~= text::texts(cs@));
    r
}

/// The text of a path with the given components.
fn spell(cs: &Vec<String>) -> (r: String)
    ensures
        r@ == spelled(text::texts(cs@)),
{
    let mut r: String = String::new();
    assert(text::texts(cs@).take(0) =~= Seq::empty());
    for i in 0..cs.len()
        invariant
            r@ == spelled(text::texts(cs@).take(i as int)),
    {
        proof {
            let now = text::texts(cs@).take(i + 1);
            assert(now.drop_last() =~= text::texts(cs@).take(i as int));
            assert(now.last() == cs@[i as int]@);
        }
        r = join(r.as_str(), cs[i].as_str());
    }
    assert(text::texts(cs@).take(cs@.len() as int) =~= text::texts(cs@));
    r
}

/// Reduces a caller-supplied `path` to the form that the project uses for its files.
///
/// Unlike [`relative_to`] this reports a path that cannot be placed inside the project.
/// Purely lexical: `./a/b.rb` and `a/c/../b.rb` both reduce to `a/b.rb`, whether or not
/// the file exists.
pub fn project_relative(root: &str, path: &str) -> (r: Option<String>)
    ensures
        match r {
            Some(p) => project_relative_text(root@, path@) == Some(p@),
            None => project_relative_text(root@, path@) is None,
        },
{
    let below: &str = if is_rooted(path) {
        match strip_prefix(path, root) {
            Some(rest) => rest,
            None => {
                return None;
            },
        }
    } else {
        path
    };
    let cs = lexically_normalize(below);
    assert(text::texts(cs@).len() == cs@.len());
    assert(cs@.len() > 0 ==> text::texts(cs@)[0] == cs@[0]@);
    if cs.len() == 0 || cs[0] == "..".to_owned() {
        return None;
    }
    Some(spell(&cs))
}

/// What the file system answered about the paths of a run.
pub struct DiskView {
    /// Directories that could be resolved, each with its resolved form.
    pub resolved: Vec<(String, String)>,
    /// Paths that are known not to exist. A path whose existence could not be settled is
    /// not among them.
    pub missing: Vec<String>,
}

/// A [`DiskView`] as a value.
#[verifier::ext_equal]
pub struct DiskFacts {
    pub resolved: Seq<(Seq<char>, Seq<char>)>,
    pub missing: Seq<Seq<char>>,
}

impl View for DiskView {
    type V = DiskFacts;

    open spec fn view(&self) -> DiskFacts {
        DiskFacts {
            resolved: self.resolved@.map_values(|p: (String, String)| (p.0@, p.1@)),
            missing: text::texts(self.missing@),
        }
    }
}

/// What the first entry for `key` holds.
pub open spec fn first_entry(list: Seq<(Seq<char>, Seq<char>)>, key: Seq<char>) -> Option<Seq<char>>
    decreases list.len(),
{
    if list.len() == 0 {
        None
    } else if list[0].0 == key {
        Some(list[0].1)
    } else {
        first_entry(list.skip(1), key)
    }
}

/// The project-relative form of `path`, with what the disk says about where its directory
/// really is.
///
/// Only an absolute path is looked up. Its directory is resolved and its own name kept, so
/// that a path to a symbolic link names the link and not its target.
pub open spec fn resolved_text(
    root: Seq<char>,
    canonical_root: Option<Seq<char>>,
    path: Seq<char>,
    disk: DiskFacts,
) -> Option<Seq<char>> {
    if project_relative_text(root, path) is Some || !path::is_absolute(path) {
        project_relative_text(root, path)
    } else {
        match (path::parent_text(path), path::file_name_text(path)) {
            (Some(dir), Some(name)) => match first_entry(disk.resolved, dir) {
                Some(home) => project_relative_text(
                    match canonical_root {
                        Some(c) => c,
                        None => root,
                    },
                    path::join_text(home, name),
                ),
                None => None,
            },
            _ => None,
        }
    }
}

/// The directory whose resolved form decides where `path` lies, if one does.
pub open spec fn directory_in_doubt(root: Seq<char>, path: Seq<char>) -> Option<Seq<char>> {
    if project_relative_text(root, path) is None && path::is_absolute(path) && path::file_name_text(path) is Some {
        path::parent_text(path)
    } else {
        None
    }
}

impl DiskView {
    /// The resolved form of `dir`, if it could be resolved.
    pub fn resolve(&self, dir: &str) -> (r: Option<String>)
        ensures
            match r {
                Some(home) => first_entry(self@.resolved, dir@) == Some(home@),
                None => first_entry(self@.resolved, dir@) is None,
            },
    {
        let ghost all = self@.resolved;
        let key: String = dir.to_owned();
        assert(all.skip(0) =~= all);
        for i in 0..self.resolved.len()
            invariant
                all == self@.resolved,
                key@ == dir@,
                first_entry(all, dir@) == first_entry(all.skip(i as int), dir@),
        {
            assert(all.skip(i as int)[0] == (self.resolved@[i as int].0@, self.resolved@[i as int].1@));
            assert(all.skip(i as int).skip(1) =~= all.skip(i + 1));
            if self.resolved[i].0 == key {
                return Some(self.resolved[i].1.clone());
            }
        }
        assert(all.skip(all.len() as int) =~= Seq::empty());
        None
    }

    /// Whether `path` is known not to exist.
    pub fn is_missing(&self, path: &String) -> (r: bool)
        ensures
            r == self@.missing.contains(path@),
    {
        text::has_text(&self.missing, path)
    }
}

/// Like [`project_relative`], but falls back on what the disk answered when the lexical
/// attempt fails on an absolute path.
///
/// An absolute path only lies under `root` lexically if the two agree about symbolic links.
/// `canonical_root` is the resolved `root`, and `disk` holds the resolved form of the
/// directory of `path` (see [`directory_to_resolve`]), so that both sides are compared in
/// their resolved form.
pub fn resolve_project_relative(root: &str, canonical_root: Option<&str>, path: &str, disk: &DiskView) -> (r: Option<
    String,
>)
    ensures
        ({
            let canonical = match canonical_root {
                Some(c) => Some(c@),
                None => None,
            };
            match r {
                Some(p) => resolved_text(root@, canonical, path@, disk@) == Some(p@),
                None => resolved_text(root@, canonical, path@, disk@) is None,
            }
        }),
{
    if let Some(relative) = project_relative(root, path) {
        return Some(relative);
    }
    if !is_rooted(path) {
        return None;
    }
    let dir: &str = match parent(path) {
        Some(dir) => dir,
        None => {
            return None;
        },
    };
    let home: String = match disk.resolve(dir) {
        Some(home) => home,
        None => {
            return None;
        },
    };
    let name: String = match file_name(path) {
        Some(name) => name,
        None => {
            return None;
        },
    };
    let resolved = join(home.as_str(), name.as_str());
    match canonical_root {
        Some(c) => project_relative(c, resolved.as_str()),
        None => project_relative(root, resolved.as_str()),
    }
}

/// The directory that has to be resolved on disk before `path` can be placed, if any.
pub fn directory_to_resolve(root: &str, path: &str) -> (r: Option<String>)
    ensures
        match r {
            Some(dir) => directory_in_doubt(root@, path@) == Some(dir@),
            None => directory_in_doubt(root@, path@) is None,
        },
{
    if project_relative(root, path).is_some() || !is_rooted(path) || file_name(path).is_none() {
        return None;
    }
    match parent(path) {
        Some(dir) => Some(dir.to_owned()),
        None => None,
    }
}

/// A list of components that some path has in this spelling: the root only in front, and
/// otherwise pieces.
pub open spec fn is_spelled_out(cs: Seq<Seq<char>>) -> bool {
    &&& cs.len() > 0 ==> cs[0] == "/"@ || path::is_piece(cs[0])
    &&& forall|k: int| 0 < k < cs.len() ==> path::is_piece(#[trigger] cs[k])
}

proof fn lemma_single(c: Seq<char>)
    requires
        c == "/"@ || path::is_piece(c),
    ensures
        path::components(c) == seq![c],
        c.len() > 0,
        path::is_piece(c) ==> !path::is_absolute(c),
{
    reveal_strlit("/");
    if c == "/"@ {
        assert(path::spans(c) =~= seq![(0int, 1int)]) by {
            assert(path::spans_from(c, 1) =~= Seq::empty());
        }
        assert(c.subrange(0, 1) =~= c);
        assert(path::components(c) =~= seq![c]);
    } else {
        assert(c[0] != '/') by {
            if c[0] == '/' {
                assert(c.contains('/'));
            }
        }
        path::lemma_piece_end(c, 0);
        let e = path::piece_end(c, 0);
        assert(e == c.len()) by {
            if e < c.len() {
                assert(c[e] == '/');
                assert(c.contains('/'));
            }
        }
        assert(path::spans_from(c, e) =~= Seq::empty());
        assert(path::spans(c) =~= seq![(0int, e)]);
        assert(c.subrange(0, e) =~= c);
        assert(path::components(c) =~= seq![c]);
    }
}

/// Spelling out components and reading them back gives the same components.
pub proof fn law_spelling_keeps_the_components(cs: Seq<Seq<char>>)
    requires
        is_spelled_out(cs),
    ensures
        path::components(spelled(cs)) == cs,
        cs.len() > 0 ==> spelled(cs).len() > 0,
    decreases cs.len(),
{
    reveal_strlit(".");
    reveal_strlit("/");
    if cs.len() == 0 {
        assert(path::components(spelled(cs)) =~= cs);
    } else {
        let init = cs.drop_last();
        let c = cs.last();
        assert(init.len() > 0 ==> init[0] == cs[0]);
        assert forall|k: int| 0 < k < init.len() implies path::is_piece(#[trigger] init[k]) by {
            assert(init[k] == cs[k]);
        }
        law_spelling_keeps_the_components(init);
        lemma_single(c);
        if init.len() == 0 {
            assert(spelled(init) =~= Seq::empty());
            assert(spelled(cs) =~= c);
            assert(cs =~= seq![c]);
        } else {
            path::lemma_join(spelled(init), c);
            assert(path::added_components(c) =~= seq![c]);
            assert(cs =~= init + seq![c]);
        }
    }
}

/// What a path that names only entries looks like after normalization: it does not change.
proof fn lemma_settled(cs: Seq<Seq<char>>)
    requires
        forall|k: int| 0 <= k < cs.len() ==> #[trigger] cs[k] != "."@,
        forall|k: int| 0 < k < cs.len() && #[trigger] cs[k] == ".."@ ==> !path::is_normal(cs[k - 1]),
    ensures
        normalized(cs) == cs,
    decreases cs.len(),
{
    if cs.len() > 0 {
        let init = cs.drop_last();
        assert forall|k: int| 0 <= k < init.len() implies #[trigger] init[k] != "."@ by {
            assert(init[k] == cs[k]);
        }
        assert forall|k: int| 0 < k < init.len() && #[trigger] init[k] == ".."@ implies !path::is_normal(
            init[k - 1],
        ) by {
            assert(init[k] == cs[k]);
        }
        lemma_settled(init);
        assert(cs[cs.len() - 1] == cs.last());
        assert(cs =~= init.push(cs.last()));
    } else {
        assert(normalized(cs) =~= cs);
    }
}

/// Normalization leaves no `.`, keeps only components that were there, and lets a `..`
/// stand only where no entry stands before it.
proof fn lemma_normalized(cs: Seq<Seq<char>>)
    ensures
        forall|k: int| 0 <= k < normalized(cs).len() ==> #[trigger] normalized(cs)[k] != "."@,
        forall|k: int| 0 <= k < normalized(cs).len() ==> cs.contains(#[trigger] normalized(cs)[k]),
        forall|k: int|
            0 < k < normalized(cs).len() && #[trigger] normalized(cs)[k] == ".."@ ==> !path::is_normal(
                normalized(cs)[k - 1],
            ),
    decreases cs.len(),
{
    if cs.len() > 0 {
        let init = cs.drop_last();
        lemma_normalized(init);
        let n = normalized(cs);
        let m = normalized(init);
        assert forall|k: int| 0 <= k < n.len() implies #[trigger] n[k] != "."@ && cs.contains(n[k]) by {
            if k < m.len() {
                assert(n[k] == m[k]);
                assert(init.contains(m[k]));
                let j = choose|j: int| 0 <= j < init.len() && init[j] == m[k];
                assert(cs[j] == n[k]);
            } else {
                assert(n[k] == cs.last());
                assert(cs[cs.len() - 1] == n[k]);
            }
        }
        assert forall|k: int| 0 < k < n.len() && #[trigger] n[k] == ".."@ implies !path::is_normal(n[k - 1]) by {
            if k < m.len() {
                assert(n[k] == m[k]);
                assert(n[k - 1] == m[k - 1]);
            }
        }
    }
}

/// What normalization does behind a part of a path depends only on what is left of that part.
proof fn lemma_normalized_congruence(a: Seq<Seq<char>>, b: Seq<Seq<char>>, rest: Seq<Seq<char>>)
    requires
        normalized(a) == normalized(b),
    ensures
        normalized(a + rest) == normalized(b + rest),
    decreases rest.len(),
{
    if rest.len() == 0 {
        assert(a + rest =~= a);
        assert(b + rest =~= b);
    } else {
        lemma_normalized_congruence(a, b, rest.drop_last());
        assert((a + rest).drop_last() =~= a + rest.drop_last());
        assert((b + rest).drop_last() =~= b + rest.drop_last());
    }
}

/// A path relative to the project is spelled without `.` and `..`, whatever the caller
/// wrote, except where the project has no root and the path is absolute.
pub proof fn law_project_relative_is_canonical(root: Seq<char>, path: Seq<char>, r: Seq<char>)
    requires
        project_relative_text(root, path) == Some(r),
        !path::is_absolute(path) || root.len() > 0,
    ensures
        path::components(r).len() > 0,
        forall|k: int| 0 <= k < path::components(r).len() ==> path::is_normal(#[trigger] path::components(r)[k]),
        spelled(path::components(r)) == r,
        !path::is_absolute(r),
{
    lemma_project_relative(root, path, r);
    let n = path::components(r);
    let rest = if path::is_absolute(path) {
        path::stripped_text(path, root)->0
    } else {
        path
    };
    lemma_rest(root, path, rest);
    let cs = path::components(rest);
    lemma_normalized(cs);
    assert forall|k: int| 0 <= k < cs.len() implies #[trigger] cs[k] != "/"@ by {
        path::lemma_components(rest);
        reveal_strlit("/");
        if k > 0 {
            assert(path::is_piece(cs[k]));
            assert("/"@[0] == '/');
        }
    }
    assert forall|k: int| 0 <= k < n.len() implies path::is_normal(#[trigger] n[k]) by {
        lemma_no_parent_left(n, k);
        let j = choose|j: int| 0 <= j < cs.len() && cs[j] == n[k];
        assert(cs.contains(n[k]));
    }
    path::lemma_components(r);
    assert(path::is_normal(n[0]));
}

/// The part of an accepted path that lies below the root does not start at a root.
proof fn lemma_rest(root: Seq<char>, path: Seq<char>, rest: Seq<char>)
    requires
        if path::is_absolute(path) {
            path::stripped_text(path, root) == Some(rest) && root.len() > 0
        } else {
            rest == path
        },
    ensures
        !path::is_absolute(rest),
{
    reveal_strlit("/");
    if path::is_absolute(path) {
        let k = path::components(root).len() as int;
        path::lemma_components(root);
        path::lemma_text_after(path, k);
        path::lemma_components(path);
        path::lemma_components(rest);
        if path::is_absolute(rest) {
            assert(path::components(rest)[0] == path::components(path)[k]);
            assert(path::is_piece(path::components(path)[k]));
            assert("/"@[0] == '/');
        }
    }
}

/// Where the first component is no `..`, no later one is.
proof fn lemma_no_parent_left(n: Seq<Seq<char>>, k: int)
    requires
        0 <= k < n.len(),
        n[0] != ".."@,
        forall|j: int| 0 <= j < n.len() ==> #[trigger] n[j] != "."@,
        forall|j: int| 0 <= j < n.len() ==> #[trigger] n[j] != "/"@,
        forall|j: int| 0 < j < n.len() && #[trigger] n[j] == ".."@ ==> !path::is_normal(n[j - 1]),
    ensures
        n[k] != ".."@,
    decreases k,
{
    if k > 0 {
        lemma_no_parent_left(n, k - 1);
    }
}

/// The components of an accepted path are its normalized ones.
proof fn lemma_project_relative(root: Seq<char>, path: Seq<char>, r: Seq<char>)
    requires
        project_relative_text(root, path) == Some(r),
    ensures
        ({
            let rest = if path::is_absolute(path) {
                path::stripped_text(path, root)->0
            } else {
                path
            };
            &&& path::components(r) == normalized(path::components(rest))
            &&& path::components(r).len() > 0
            &&& path::components(r)[0] != ".."@
            &&& r == spelled(path::components(r))
        }),
{
    reveal_strlit("/");
    let rest = if path::is_absolute(path) {
        path::stripped_text(path, root)->0
    } else {
        path
    };
    let cs = path::components(rest);
    let n = normalized(cs);
    lemma_normalized(cs);
    path::lemma_components(rest);
    assert(is_spelled_out(n)) by {
        assert forall|k: int| 0 <= k < n.len() implies n[k] == "/"@ || path::is_piece(#[trigger] n[k]) by {
            assert(cs.contains(n[k]));
        }
        assert forall|k: int| 0 < k < n.len() implies path::is_piece(#[trigger] n[k]) by {
            if n[k] == "/"@ {
                assert forall|j: int| 0 < j < cs.len() implies #[trigger] cs[j] != "/"@ by {
                    assert(path::is_piece(cs[j]));
                    assert("/"@[0] == '/');
                }
                lemma_root_first(cs, k);
            }
        }
    }
    law_spelling_keeps_the_components(n);
}

/// Normalization keeps the root in front.
proof fn lemma_root_first(cs: Seq<Seq<char>>, k: int)
    requires
        0 <= k < normalized(cs).len(),
        normalized(cs)[k] == "/"@,
        forall|j: int| 0 < j < cs.len() ==> #[trigger] cs[j] != "/"@,
    ensures
        k == 0,
        cs.len() > 0,
        cs[0] == "/"@,
    decreases cs.len(),
{
    reveal_strlit("/");
    reveal_strlit("..");
    if cs.len() > 0 {
        let init = cs.drop_last();
        let m = normalized(init);
        if k < m.len() {
            assert(normalized(cs)[k] == m[k]);
            assert forall|j: int| 0 < j < init.len() implies #[trigger] init[j] != "/"@ by {
                assert(init[j] == cs[j]);
            }
            lemma_root_first(init, k);
        } else {
            assert(normalized(cs)[k] == cs.last());
            assert(cs.last() == cs[cs.len() - 1]);
            assert(cs.len() == 1);
            assert(m =~= Seq::empty());
        }
    }
}

/// Reducing a path that is already project-relative changes nothing.
pub proof fn law_project_relative_is_idempotent(root: Seq<char>, path: Seq<char>, r: Seq<char>)
    requires
        project_relative_text(root, path) == Some(r),
    ensures
        project_relative_text(root, r) == Some(r),
{
    lemma_project_relative(root, path, r);
    let rest = if path::is_absolute(path) {
        path::stripped_text(path, root)->0
    } else {
        path
    };
    lemma_normalized(path::components(rest));
    lemma_settled(path::components(r));
    if path::is_absolute(r) {
        if !path::is_absolute(path) || root.len() > 0 {
            law_project_relative_is_canonical(root, path, r);
        }
        assert(path::components(root) =~= Seq::empty());
        assert(path::starts_with(r, root));
        path::lemma_text_after(r, 0);
        assert(path::components(r).skip(0) =~= path::components(r));
    }
}

/// How deep a path leads: each entry goes one level down, each `..` one level up.
pub open spec fn depth(cs: Seq<Seq<char>>) -> int
    decreases cs.len(),
{
    if cs.len() == 0 {
        0
    } else {
        let c = cs.last();
        depth(cs.drop_last()) + if path::is_normal(c) {
            1int
        } else if c == ".."@ {
            -1int
        } else {
            0int
        }
    }
}

/// Whether some beginning of the path already leads out of where it starts.
pub open spec fn escapes(cs: Seq<Seq<char>>) -> bool {
    exists|k: int| 0 <= k <= cs.len() && depth(#[trigger] cs.take(k)) < 0
}

proof fn lemma_depth(cs: Seq<Seq<char>>)
    requires
        forall|k: int| 0 <= k < cs.len() ==> #[trigger] cs[k] != "/"@,
    ensures
        escapes(cs) ==> normalized(cs).len() > 0 && normalized(cs)[0] == ".."@,
        !escapes(cs) ==> normalized(cs).len() == depth(cs) && (forall|k: int|
            0 <= k < normalized(cs).len() ==> path::is_normal(#[trigger] normalized(cs)[k])),
    decreases cs.len(),
{
    reveal_strlit(".");
    reveal_strlit("..");
    if cs.len() == 0 {
        assert forall|k: int| 0 <= k <= cs.len() implies depth(#[trigger] cs.take(k)) >= 0 by {
            assert(cs.take(k) =~= cs);
        }
    } else {
        let init = cs.drop_last();
        assert forall|k: int| 0 <= k < init.len() implies #[trigger] init[k] != "/"@ by {
            assert(init[k] == cs[k]);
        }
        lemma_depth(init);
        assert(cs[cs.len() - 1] == cs.last());
        assert(cs.take(cs.len() as int) =~= cs);
        if escapes(init) {
            let k = choose|k: int| 0 <= k <= init.len() && depth(#[trigger] init.take(k)) < 0;
            assert(cs.take(k) =~= init.take(k));
            assert(escapes(cs));
            assert(!path::is_normal(".."@));
        } else {
            assert forall|k: int| 0 <= k < cs.len() implies depth(#[trigger] cs.take(k)) >= 0 by {
                assert(cs.take(k) =~= init.take(k));
            }
            if depth(cs) < 0 {
                assert(escapes(cs));
            } else {
                assert(!escapes(cs));
            }
        }
    }
}

/// A relative path has a project-relative form exactly when no beginning of it leads out
/// of the project and the whole of it leads somewhere below the root.
pub proof fn law_escaping_paths_are_rejected(root: Seq<char>, path: Seq<char>)
    requires
        !path::is_absolute(path),
    ensures
        project_relative_text(root, path) is Some <==> !escapes(path::components(path)) && depth(
            path::components(path),
        ) > 0,
{
    reveal_strlit("..");
    let cs = path::components(path);
    path::lemma_components(path);
    assert forall|k: int| 0 <= k < cs.len() implies #[trigger] cs[k] != "/"@ by {
        reveal_strlit("/");
        if k > 0 {
            assert(path::is_piece(cs[k]));
            assert("/"@[0] == '/');
        }
    }
    lemma_depth(cs);
    if !escapes(cs) && depth(cs) > 0 {
        assert(path::is_normal(normalized(cs)[0]));
    }
}

/// Naming a file by its absolute path gives the same project-relative form as naming it
/// relative to the root.
pub proof fn law_absolute_and_relative_agree(root: Seq<char>, path: Seq<char>)
    requires
        path::is_absolute(root),
        !path::is_absolute(path),
    ensures
        project_relative_text(root, path::join_text(root, path)) == project_relative_text(root, path),
{
    let whole = path::join_text(root, path);
    path::lemma_join(root, path);
    assert(path::is_absolute(whole)) by {
        assert(whole[0] == root[0]);
    }
    let k = path::components(root).len() as int;
    let added = path::added_components(path);
    assert(path::starts_with(whole, root)) by {
        assert(path::components(whole).subrange(0, k) =~= path::components(root));
    }
    path::lemma_text_after(whole, k);
    assert(path::components(whole).skip(k) =~= added);
    if path::components(path).len() > 0 && path::components(path)[0] == "."@ {
        lemma_leading_dot(path::components(path));
    }
}

proof fn lemma_leading_dot(cs: Seq<Seq<char>>)
    requires
        cs.len() > 0 && cs[0] == "."@,
    ensures
        normalized(cs) == normalized(cs.skip(1)),
{
    let dot = seq!["."@];
    let none = Seq::<Seq<char>>::empty();
    assert(normalized(dot) =~= normalized(none)) by {
        assert(dot.drop_last() =~= none);
        assert(dot.last() == "."@);
    }
    lemma_normalized_congruence(dot, none, cs.skip(1));
    assert(cs =~= dot + cs.skip(1));
    assert(none + cs.skip(1) =~= cs.skip(1));
}

/// A leading `./` makes no difference.
pub proof fn law_leading_dot_is_dropped(root: Seq<char>, path: Seq<char>)
    requires
        !path::is_absolute(path),
    ensures
        project_relative_text(root, path::join_text("."@, path)) == project_relative_text(root, path),
{
    reveal_strlit(".");
    reveal_strlit("/");
    let whole = path::join_text("."@, path);
    path::lemma_join("."@, path);
    assert(!path::is_absolute(whole)) by {
        assert(whole[0] == '.');
    }
    assert(path::components("."@) =~= seq!["."@]) by {
        let dot = "."@;
        path::lemma_piece_end(dot, 0);
        assert(path::piece_end(dot, 0) == 1) by {
            assert(dot[0] == '.');
        }
        assert(path::spans_from(dot, 1) =~= Seq::empty());
        assert(path::spans(dot) =~= seq![(0int, 1int)]);
        assert(dot.subrange(0, 1) =~= dot);
    }
    let cs = path::components(whole);
    assert(cs.skip(1) =~= path::added_components(path));
    lemma_leading_dot(cs);
    if path::components(path).len() > 0 && path::components(path)[0] == "."@ {
        lemma_leading_dot(path::components(path));
    }
}

/// Going down into an entry and up again makes no difference.
pub proof fn law_interior_parent_is_resolved(root: Seq<char>, above: Seq<char>, entry: Seq<char>, below: Seq<char>)
    requires
        !path::is_absolute(above),
        path::is_piece(entry),
        path::is_normal(entry),
        !path::is_absolute(below),
    ensures
        ({
            let detour = path::join_text(path::join_text(path::join_text(above, entry), ".."@), below);
            &&& !path::is_absolute(detour)
            &&& !path::is_absolute(path::join_text(above, below))
            &&& project_relative_text(root, detour) == project_relative_text(root, path::join_text(above, below))
        }),
{
    reveal_strlit(".");
    reveal_strlit("..");
    reveal_strlit("/");
    let a = path::join_text(above, entry);
    let b = path::join_text(a, ".."@);
    let detour = path::join_text(b, below);
    let direct = path::join_text(above, below);
    let cs = path::components(above);
    let rest = path::added_components(below);
    assert(path::is_piece(".."@)) by {
        assert(".."@.len() == 2);
    }
    lemma_single(entry);
    lemma_single(".."@);
    assert(path::added_components(entry) =~= seq![entry]);
    assert(path::added_components(".."@) =~= seq![".."@]);
    path::lemma_components(above);
    if above.len() == 0 {
        assert(a =~= entry);
        assert(direct =~= below);
        assert(cs =~= Seq::empty());
        assert(cs + seq![entry] =~= seq![entry]);
        assert(cs + rest =~= rest);
        if path::components(below).len() > 0 && path::components(below)[0] == "."@ {
            lemma_leading_dot(path::components(below));
        }
    } else {
        path::lemma_join(above, entry);
        assert(a[0] == above[0]);
        path::lemma_join(above, below);
        assert(direct[0] == above[0]);
    }
    path::lemma_join(a, ".."@);
    assert(b[0] == a[0]);
    path::lemma_join(b, below);
    assert(detour[0] == b[0]);
    let turn = cs + seq![entry] + seq![".."@];
    assert(path::components(b) == turn);
    assert(normalized(turn) =~= normalized(cs)) by {
        assert(turn.drop_last() =~= cs + seq![entry]);
        assert(turn.last() == ".."@);
        assert((cs + seq![entry]).drop_last() =~= cs);
        assert((cs + seq![entry]).last() == entry);
        assert(normalized(cs + seq![entry]) == normalized(cs).push(entry));
        assert(normalized(cs).push(entry).drop_last() =~= normalized(cs));
    }
    lemma_normalized_congruence(turn, cs, rest);
}

/// The place of an absolute path depends on its components alone.
pub proof fn lemma_place_by_components(root: Seq<char>, a: Seq<char>, b: Seq<char>)
    requires
        path::is_absolute(a),
        path::same_path(a, b),
    ensures
        path::is_absolute(b),
        project_relative_text(root, a) == project_relative_text(root, b),
{
    path::lemma_components(a);
    path::lemma_components(b);
    if path::starts_with(a, root) {
        let k = path::components(root).len() as int;
        path::lemma_text_after(a, k);
        path::lemma_text_after(b, k);
    }
}

/// A path below the resolved root is found at its place in the project, also when `root`
/// itself is not resolved, as long as its directory resolves to itself.
pub proof fn law_resolved_root_completes_the_path(
    root: Seq<char>,
    canonical_root: Seq<char>,
    path: Seq<char>,
    dir: Seq<char>,
    home: Seq<char>,
    disk: DiskFacts,
)
    requires
        path::is_absolute(canonical_root),
        !path::is_absolute(path),
        project_relative_text(root, path) is Some,
        path::file_name_text(path) is Some,
        project_relative_text(root, path::join_text(canonical_root, path)) is None,
        path::parent_text(path::join_text(canonical_root, path)) == Some(dir),
        first_entry(disk.resolved, dir) == Some(home),
        path::same_path(home, dir),
    ensures
        resolved_text(root, Some(canonical_root), path::join_text(canonical_root, path), disk)
            == project_relative_text(root, path),
{
    reveal_strlit("/");
    reveal_strlit(".");
    let whole = path::join_text(canonical_root, path);
    let cs = path::components(whole);
    let n = cs.len() as int;
    let name = path::components(path).last();
    path::lemma_join(canonical_root, path);
    assert(whole[0] == canonical_root[0]);
    path::lemma_components(path);
    let added = path::added_components(path);
    if path::components(path)[0] == "."@ {
        assert(path::components(path).len() > 1);
    }
    assert(added.len() > 0 && added.last() == name);
    assert(cs.last() == name);
    path::lemma_components(whole);
    path::lemma_components(canonical_root);
    assert(path::is_piece(cs[n - 1]));
    assert(path::file_name_text(whole) == Some(name));
    path::lemma_text_upto(whole, n - 1);
    let found = path::join_text(home, name);
    lemma_single(name);
    assert(path::added_components(name) =~= seq![name]);
    path::lemma_components(home);
    path::lemma_components(dir);
    path::lemma_join(home, name);
    assert(cs =~= cs.take(n - 1) + seq![name]);
    lemma_place_by_components(canonical_root, whole, found);
    law_absolute_and_relative_agree(canonical_root, path);
}

/// A path that lies under the root is the root followed by what is left of it; any other
/// path is left as it is.
pub proof fn law_relative_path_completes_the_root(root: Seq<char>, path: Seq<char>)
    ensures
        path::starts_with(path, root) ==> path::components(root) + path::components(relative_text(root, path))
            == path::components(path),
        !path::starts_with(path, root) ==> relative_text(root, path) == path,
{
    if path::starts_with(path, root) {
        let k = path::components(root).len() as int;
        path::lemma_text_after(path, k);
        assert(path::components(root) + path::components(path).skip(k) =~= path::components(path));
    }
}

/// A path found through the disk keeps the name that the caller gave: a symbolic link
/// stands for itself and not for its target.
pub proof fn law_resolution_keeps_the_file_name(
    root: Seq<char>,
    canonical_root: Option<Seq<char>>,
    path: Seq<char>,
    disk: DiskFacts,
    r: Seq<char>,
)
    requires
        project_relative_text(root, path) is None,
        resolved_text(root, canonical_root, path, disk) == Some(r),
    ensures
        path::file_name_text(path) is Some,
        path::components(r).last() == path::file_name_text(path)->0,
{
    reveal_strlit(".");
    reveal_strlit("/");
    let name = path::file_name_text(path)->0;
    let dir = path::parent_text(path)->0;
    let home = first_entry(disk.resolved, dir)->0;
    let base = match canonical_root {
        Some(c) => c,
        None => root,
    };
    let whole = path::join_text(home, name);
    assert(project_relative_text(base, whole) == Some(r));
    path::lemma_components(path);
    assert(path::components(path).last() == path::components(path)[path::components(path).len() - 1]);
    assert(path::is_piece(name));
    lemma_single(name);
    assert(path::added_components(name) =~= seq![name]);
    if home.len() > 0 {
        path::lemma_join(home, name);
    } else {
        assert(whole =~= name);
    }
    let cs = path::components(whole);
    assert(cs.last() == name);
    let rest = if path::is_absolute(whole) {
        path::stripped_text(whole, base)->0
    } else {
        whole
    };
    lemma_project_relative(base, whole, r);
    if path::is_absolute(whole) {
        let k = path::components(base).len() as int;
        path::lemma_text_after(whole, k);
        assert(path::components(rest) == cs.skip(k));
        assert(k < cs.len()) by {
            if k == cs.len() {
                assert(cs.skip(k) =~= Seq::empty());
            }
        }
    }
    let left = path::components(rest);
    assert(left.last() == name);
    assert(normalized(left) == normalized(left.drop_last()).push(name));
}

/// Where no directory is in doubt, the disk does not matter.
pub proof fn law_disk_is_asked_only_in_doubt(
    root: Seq<char>,
    canonical_root: Option<Seq<char>>,
    path: Seq<char>,
    disk: DiskFacts,
)
    requires
        directory_in_doubt(root, path) is None,
    ensures
        resolved_text(root, canonical_root, path, disk) == project_relative_text(root, path),
{
}

/// A relative path is placed without a look at the disk, wherever the process runs.
pub proof fn law_relative_paths_need_no_disk(
    root: Seq<char>,
    canonical_root: Option<Seq<char>>,
    path: Seq<char>,
    disk: DiskFacts,
)
    requires
        !path::is_absolute(path),
    ensures
        resolved_text(root, canonical_root, path, disk) == project_relative_text(root, path),
{
}

/// Joining a piece to a path adds it as a component; joining nothing or `.` adds none. A
/// piece alone is a path of one component, and so are the root and `.`.
pub proof fn law_components_are_built_by_joining(t: Seq<char>, c: Seq<char>)
    requires
        t.len() > 0,
        c.len() > 0,
        !c.contains('/'),
        c != "."@,
    ensures
        path::components(path::join_text(t, c)) == path::components(t).push(c),
        path::components(path::join_text(t, Seq::empty())) == path::components(t),
        path::components(path::join_text(t, "."@)) == path::components(t),
        path::components(c) == seq![c],
        path::components("/"@) == seq!["/"@],
        path::components("."@) == seq!["."@],
        path::components(Seq::empty()) == Seq::<Seq<char>>::empty(),
{
    reveal_strlit(".");
    reveal_strlit("/");
    assert(path::is_piece(c));
    let none = Seq::<char>::empty();
    lemma_single(c);
    lemma_single("/"@);
    path::lemma_components(none);
    assert(path::components(none) =~= Seq::<Seq<char>>::empty());
    path::lemma_join(t, c);
    assert(path::added_components(c) =~= seq![c]);
    assert(path::components(t) + seq![c] =~= path::components(t).push(c));
    path::lemma_join(t, none);
    assert(path::added_components(none) =~= Seq::empty());
    assert(path::components(t) + Seq::empty() =~= path::components(t));
    path::lemma_join(t, "."@);
    let dot = "."@;
    assert(path::components(dot) =~= seq![dot]) by {
        path::lemma_piece_end(dot, 0);
        assert(path::spans_from(dot, 1) =~= Seq::empty());
        assert(path::spans(dot) =~= seq![(0int, 1int)]);
        assert(dot.subrange(0, 1) =~= dot);
    }
    assert(path::added_components(dot) =~= Seq::empty());
}

/// A path is relative to a root that it begins with, component by component, and is then what
/// is left behind these; any other path stays as it is.
pub proof fn law_what_is_left_below_a_root(root: Seq<char>, path: Seq<char>)
    ensures
        ({
            let rs = path::components(root);
            let ps = path::components(path);
            let below = rs.len() <= ps.len() && (forall|k: int| 0 <= k < rs.len() ==> #[trigger] rs[k] == ps[k]);
            &&& below ==> path::components(relative_text(root, path)) == ps.skip(rs.len() as int)
            &&& !below ==> relative_text(root, path) == path
        }),
{
    let rs = path::components(root);
    let ps = path::components(path);
    if path::starts_with(path, root) {
        path::lemma_text_after(path, rs.len() as int);
        assert forall|k: int| 0 <= k < rs.len() implies #[trigger] rs[k] == ps[k] by {
            assert(ps.subrange(0, rs.len() as int)[k] == ps[k]);
        }
    } else if rs.len() <= ps.len() && (forall|k: int| 0 <= k < rs.len() ==> #[trigger] rs[k] == ps[k]) {
        assert(rs =~= ps.subrange(0, rs.len() as int));
        assert(path::starts_with(path, root));
    }
}

/// A relative path of plain entries has its place in the project, with the same components.
pub proof fn law_plain_paths_keep_their_components(root: Seq<char>, path: Seq<char>)
    requires
        path.len() > 0,
        forall|k: int|
            0 <= k < path::components(path).len() ==> (#[trigger] path::components(path)[k]) != "/"@
                && path::components(path)[k] != "."@ && path::components(path)[k] != ".."@,
    ensures
        project_relative_text(root, path) is Some,
        path::components(project_relative_text(root, path)->0) == path::components(path),
{
    let cs = path::components(path);
    path::lemma_components(path);
    assert(cs[0] != "/"@);
    assert(!path::is_absolute(path));
    lemma_plain_is_normal(cs);
    assert(cs[0] != ".."@);
    assert(is_spelled_out(cs)) by {
        assert(path::is_piece(cs[0]) || cs[0] == "."@);
    }
    law_spelling_keeps_the_components(cs);
}

proof fn lemma_plain_is_normal(cs: Seq<Seq<char>>)
    requires
        forall|k: int| 0 <= k < cs.len() ==> (#[trigger] cs[k]) != "."@ && cs[k] != ".."@,
    ensures
        normalized(cs) == cs,
    decreases cs.len(),
{
    if cs.len() > 0 {
        let init = cs.drop_last();
        assert forall|k: int| 0 <= k < init.len() implies (#[trigger] init[k]) != "."@ && init[k] != ".."@ by {
            assert(init[k] == cs[k]);
        }
        lemma_plain_is_normal(init);
        assert(cs[cs.len() - 1] == cs.last());
        assert(cs =~= init.push(cs.last()));
    }
}

/// An absolute path that does not lie below the root is placed by its resolved directory and
/// its own name, below the resolved root where that is known; without a resolved directory it
/// has no place.
pub proof fn law_unplaced_paths_go_by_their_resolved_directory(
    root: Seq<char>,
    canonical_root: Option<Seq<char>>,
    path: Seq<char>,
    disk: DiskFacts,
    dir: Seq<char>,
    name: Seq<char>,
)
    requires
        path::is_absolute(path),
        project_relative_text(root, path) is None,
        path::parent_text(path) == Some(dir),
        path::file_name_text(path) == Some(name),
    ensures
        (forall|i: int| 0 <= i < disk.resolved.len() ==> (#[trigger] disk.resolved[i]).0 != dir) ==> resolved_text(
            root,
            canonical_root,
            path,
            disk,
        ) is None,
        forall|i: int|
            0 <= i < disk.resolved.len() && (#[trigger] disk.resolved[i]).0 == dir && (forall|j: int|
                0 <= j < i ==> (#[trigger] disk.resolved[j]).0 != dir) ==> resolved_text(root, canonical_root, path, disk)
                == project_relative_text(
                if canonical_root is Some {
                    canonical_root->0
                } else {
                    root
                },
                path::join_text(disk.resolved[i].1, name),
            ),
{
    lemma_first_entry(disk.resolved, dir);
}

proof fn lemma_first_entry(list: Seq<(Seq<char>, Seq<char>)>, key: Seq<char>)
    ensures
        (forall|i: int| 0 <= i < list.len() ==> (#[trigger] list[i]).0 != key) ==> first_entry(list, key) is None,
        forall|i: int|
            0 <= i < list.len() && (#[trigger] list[i]).0 == key && (forall|j: int|
                0 <= j < i ==> (#[trigger] list[j]).0 != key) ==> first_entry(list, key) == Some(list[i].1),
    decreases list.len(),
{
    if list.len() > 0 {
        let rest = list.skip(1);
        lemma_first_entry(rest, key);
        assert forall|i: int| 0 <= i < rest.len() implies #[trigger] rest[i] == list[i + 1] by {}
        assert forall|i: int|
            0 <= i < list.len() && (#[trigger] list[i]).0 == key && (forall|j: int|
                0 <= j < i ==> (#[trigger] list[j]).0 != key) implies first_entry(list, key) == Some(list[i].1) by {
            if i > 0 {
                assert(list[0].0 != key);
                assert(rest[i - 1] == list[i]);
                assert forall|j: int| 0 <= j < i - 1 implies (#[trigger] rest[j]).0 != key by {
                    assert(rest[j] == list[j + 1]);
                }
            }
        }
        if forall|i: int| 0 <= i < list.len() ==> (#[trigger] list[i]).0 != key {
            assert(list[0].0 != key);
            assert forall|i: int| 0 <= i < rest.len() implies (#[trigger] rest[i]).0 != key by {
                assert(rest[i] == list[i + 1]);
            }
        }
    }
}

/// An entry of a placed path has its place one level below, and `..` leads one level up again,
/// out of the project from the topmost level.
pub proof fn law_down_and_up(root: Seq<char>, path: Seq<char>, place: Seq<char>, entry: Seq<char>)
    requires
        path.len() > 0,
        path[0] != '/',
        project_relative_text(root, path) == Some(place),
        entry.len() > 0,
        !entry.contains('/'),
        entry != "."@,
        entry != ".."@,
    ensures
        ({
            let cs = path::components(place);
            let down = project_relative_text(root, path::join_text(path, entry));
            let up = project_relative_text(root, path::join_text(path, ".."@));
            let stay = project_relative_text(root, path::join_text(path, "."@));
            &&& down is Some && path::components(down->0) == cs.push(entry)
            &&& cs.len() == 1 ==> up is None
            &&& cs.len() > 1 ==> up is Some && path::components(up->0) == cs.drop_last()
            &&& stay == Some(place)
        }),
{
    reveal_strlit(".");
    reveal_strlit("..");
    reveal_strlit("/");
    let ps = path::components(path);
    let cs = path::components(place);
    let below = path::join_text(path, entry);
    let above = path::join_text(path, ".."@);
    let same = path::join_text(path, "."@);
    lemma_project_relative(root, path, place);
    law_project_relative_is_canonical(root, path, place);
    law_components_are_built_by_joining(path, entry);
    law_components_are_built_by_joining(path, ".."@);
    assert(entry[0] != '/') by {
        assert(entry.contains(entry[0]));
    }
    assert(below[0] == path[0] && above[0] == path[0] && same[0] == path[0]);
    assert(ps.push(entry).drop_last() =~= ps);
    assert(ps.push(".."@).drop_last() =~= ps);
    assert(normalized(ps) == cs);
    assert(normalized(ps.push(entry)) == cs.push(entry));
    assert(cs.push(entry)[0] == cs[0]);
    lemma_project_relative(root, below, project_relative_text(root, below)->0);
    assert(path::is_normal(cs[cs.len() - 1]));
    assert(normalized(ps.push(".."@)) == cs.drop_last());
    if cs.len() > 1 {
        assert(cs.drop_last()[0] == cs[0]);
        lemma_project_relative(root, above, project_relative_text(root, above)->0);
    }
}

/// A path is in doubt exactly if it is absolute, has no place below the root as it stands, and
/// names an entry of some directory. It is that directory that has to be resolved.
pub proof fn law_which_directories_are_in_doubt(root: Seq<char>, path: Seq<char>, dir: Seq<char>)
    ensures
        directory_in_doubt(root, path) == Some(dir) <==> path.len() > 0 && path[0] == '/' && project_relative_text(
            root,
            path,
        ) is None && path::file_name_text(path) is Some && path::parent_text(path) == Some(dir),
{
}

/// Where a path lies depends on no resolved directory but the one in doubt.
pub proof fn law_only_the_directory_in_doubt_matters(
    root: Seq<char>,
    canonical_root: Option<Seq<char>>,
    path: Seq<char>,
    disk: DiskFacts,
    other: DiskFacts,
)
    requires
        directory_in_doubt(root, path) matches Some(dir) ==> first_entry(disk.resolved, dir) == first_entry(
            other.resolved,
            dir,
        ),
    ensures
        resolved_text(root, canonical_root, path, disk) == resolved_text(root, canonical_root, path, other),
{
    path::law_a_path_is_its_directory_and_its_name(path);
}

/// An absolute path that does not begin with the root has no place in the project by itself.
pub proof fn law_paths_elsewhere_have_no_place(root: Seq<char>, path: Seq<char>, k: int)
    requires
        path.len() > 0,
        path[0] == '/',
        0 <= k < path::components(root).len(),
        k >= path::components(path).len() || path::components(path)[k] != path::components(root)[k],
    ensures
        project_relative_text(root, path) is None,
{
    let rs = path::components(root);
    let ps = path::components(path);
    if path::starts_with(path, root) {
        assert(ps.subrange(0, rs.len() as int)[k] == ps[k]);
    }
}

/// A place in the project is spelled as its components with one separator between any two.
pub proof fn law_places_are_spelled_with_single_separators(root: Seq<char>, path: Seq<char>, place: Seq<char>)
    requires
        project_relative_text(root, path) == Some(place),
        !path::is_absolute(path) || root.len() > 0,
    ensures
        place == text::joined(path::components(place), seq!['/']),
{
    let cs = path::components(place);
    law_project_relative_is_canonical(root, path, place);
    path::lemma_components(place);
    assert forall|k: int| 0 <= k < cs.len() implies path::is_piece(#[trigger] cs[k]) by {
        assert(path::is_normal(cs[k]));
        reveal_strlit("/");
    }
    lemma_spelled(cs);
}

proof fn lemma_spelled(cs: Seq<Seq<char>>)
    requires
        forall|k: int| 0 <= k < cs.len() ==> path::is_piece(#[trigger] cs[k]),
    ensures
        spelled(cs) == text::joined(cs, seq!['/']),
        cs.len() > 0 ==> spelled(cs).len() > 0 && spelled(cs).last() != '/',
    decreases cs.len(),
{
    if cs.len() > 0 {
        let init = cs.drop_last();
        let last = cs.last();
        assert forall|k: int| 0 <= k < init.len() implies path::is_piece(#[trigger] init[k]) by {
            assert(init[k] == cs[k]);
        }
        assert(path::is_piece(cs[cs.len() - 1]));
        assert(last.contains(last[0]));
        assert(last.contains(last[last.len() - 1]));
        lemma_spelled(init);
        if init.len() == 0 {
            assert(spelled(cs) =~= last);
            assert(cs[0] == last);
        } else {
            assert(spelled(cs) == spelled(init) + seq!['/'] + last);
        }
    }
}

} // verus!
