//! Paths as text.
//!
//! A path is text whose parts are separated by `/`. What a path names is the sequence of
//! its components; two texts with the same components are the same path.

use crate::text;
use crate::text::chars_of;
use vstd::prelude::*;
use vstd::string::*;

verus! {

/// A run of non-separator characters of `t` that starts at `i` ends here.
pub open spec fn piece_end(t: Seq<char>, i: int) -> int
    decreases t.len() - i,
{
    if i < 0 || i >= t.len() || t[i] == '/' {
        i
    } else {
        piece_end(t, i + 1)
    }
}

/// Where the components of `t` that start at or after `i` begin and end.
///
/// A leading separator is the root and a component of its own. Every other component is a
/// run of characters between separators. A run that is just `.` is skipped, except at the
/// very beginning of the text.
pub open spec fn spans_from(t: Seq<char>, i: int) -> Seq<(int, int)>
    decreases t.len() - i,
{
    if i < 0 || i >= t.len() {
        Seq::empty()
    } else if t[i] == '/' {
        if i == 0 {
            seq![(0int, 1int)] + spans_from(t, 1)
        } else {
            spans_from(t, i + 1)
        }
    } else {
        proof {
            lemma_piece_end(t, i);
        }
        let e = piece_end(t, i);
        if i != 0 && e == i + 1 && t[i] == '.' {
            spans_from(t, e)
        } else {
            seq![(i, e)] + spans_from(t, e)
        }
    }
}

/// Where the components of `t` begin and end.
pub open spec fn spans(t: Seq<char>) -> Seq<(int, int)> {
    spans_from(t, 0)
}

/// The text of each of `list`.
pub open spec fn cut(t: Seq<char>, list: Seq<(int, int)>) -> Seq<Seq<char>> {
    list.map_values(|s: (int, int)| t.subrange(s.0, s.1))
}

/// The components of a path. `/` stands for the root, `.` and `..` for themselves.
pub open spec fn components(t: Seq<char>) -> Seq<Seq<char>> {
    cut(t, spans(t))
}

/// The same path, however spelled.
pub open spec fn same_path(a: Seq<char>, b: Seq<char>) -> bool {
    components(a) == components(b)
}

/// Whether `path` is `base` or lies below it. Whole components count: `a/bc` is not below `a/b`.
pub open spec fn starts_with(path: Seq<char>, base: Seq<char>) -> bool {
    components(base).is_prefix_of(components(path))
}

/// Whether `t` starts at the root.
pub open spec fn is_absolute(t: Seq<char>) -> bool {
    t.len() > 0 && t[0] == '/'
}

/// `t` without its first `k` components.
pub open spec fn text_after(t: Seq<char>, k: int) -> Seq<char> {
    let s = spans(t);
    if 0 <= k < s.len() {
        t.subrange(s[k].0, s.last().1)
    } else {
        Seq::empty()
    }
}

/// The first `k` components of `t`.
pub open spec fn text_upto(t: Seq<char>, k: int) -> Seq<char> {
    let s = spans(t);
    if 0 < k <= s.len() {
        t.subrange(0, s[k - 1].1)
    } else {
        Seq::empty()
    }
}

/// `path` below `base`, or `path` alone when it is absolute.
pub open spec fn join_text(base: Seq<char>, path: Seq<char>) -> Seq<char> {
    if is_absolute(path) {
        path
    } else if base.len() == 0 || base.last() == '/' {
        base + path
    } else {
        base + seq!['/'] + path
    }
}

/// A run goes on to the next separator or to the end of the text.
pub proof fn lemma_piece_end(t: Seq<char>, i: int)
    requires
        0 <= i <= t.len(),
    ensures
        i <= piece_end(t, i) <= t.len(),
        i < t.len() && t[i] != '/' ==> i < piece_end(t, i),
        forall|j: int| i <= j < piece_end(t, i) ==> t[j] != '/',
        piece_end(t, i) < t.len() ==> t[piece_end(t, i)] == '/',
    decreases t.len() - i,
{
    if i < t.len() && t[i] != '/' {
        lemma_piece_end(t, i + 1);
    }
}

/// A run is determined by what it holds and by what stops it.
proof fn lemma_piece_end_is(t: Seq<char>, i: int, e: int)
    requires
        0 <= i <= e <= t.len(),
        forall|j: int| i <= j < e ==> t[j] != '/',
        e == t.len() || t[e] == '/',
    ensures
        piece_end(t, i) == e,
    decreases e - i,
{
    if i < e {
        lemma_piece_end_is(t, i + 1, e);
    }
}

/// No run of `t` lies on both sides of `b`.
pub open spec fn boundary(t: Seq<char>, b: int) -> bool {
    &&& 0 < b <= t.len()
    &&& b == t.len() || t[b] == '/' || t[b - 1] == '/'
}

/// Shifts positions by `d`.
pub open spec fn shifted(s: Seq<(int, int)>, d: int) -> Seq<(int, int)> {
    s.map_values(|p: (int, int)| (p.0 + d, p.1 + d))
}

/// Cutting a text at a boundary cuts its components there.
proof fn lemma_spans_split(t: Seq<char>, b: int, i: int)
    requires
        boundary(t, b),
        0 <= i <= b,
    ensures
        spans_from(t, i) == spans_from(t.take(b), i) + spans_from(t, b),
    decreases b - i,
{
    let u = t.take(b);
    if i == b {
    } else if t[i] == '/' {
        lemma_spans_split(t, b, i + 1);
        assert(u[i] == '/');
    } else {
        lemma_piece_end(t, i);
        let e = piece_end(t, i);
        assert(e <= b) by {
            if e > b {
                assert(t[b] != '/');
                assert(t[b - 1] != '/');
            }
        }
        lemma_piece_end_is(u, i, e);
        lemma_spans_split(t, b, e);
    }
    assert(spans_from(t, i) =~= spans_from(u, i) + spans_from(t, b));
}

/// What lies after the first characters of a text does not depend on them.
proof fn lemma_spans_shift(t: Seq<char>, a: int, i: int)
    requires
        0 <= a < i <= t.len(),
    ensures
        spans_from(t, i) == shifted(spans_from(t.skip(a), i - a), a),
    decreases t.len() - i,
{
    let u = t.skip(a);
    if i == t.len() {
    } else if t[i] == '/' {
        assert(u[i - a] == '/');
        lemma_spans_shift(t, a, i + 1);
    } else {
        lemma_piece_end(t, i);
        let e = piece_end(t, i);
        lemma_piece_end_is(u, i - a, e - a);
        assert(u[i - a] == t[i]);
        lemma_spans_shift(t, a, e);
    }
    assert(spans_from(t, i) =~= shifted(spans_from(u, i - a), a));
}

/// A component other than the root and a leading `.`.
pub open spec fn is_piece(c: Seq<char>) -> bool {
    &&& c.len() > 0
    &&& !c.contains('/')
    &&& c != "."@
}

/// A component that names an entry of a directory.
pub open spec fn is_normal(c: Seq<char>) -> bool {
    c != "/"@ && c != "."@ && c != ".."@
}

/// Where one component may stand in a text.
spec fn span_ok(t: Seq<char>, i: int, s: (int, int)) -> bool {
    &&& i <= s.0 < s.1 <= t.len()
    &&& boundary(t, s.1)
    &&& s.0 > 0 ==> !(s.1 == s.0 + 1 && t[s.0] == '.')
    &&& s.0 > 0 || t[0] != '/' ==> (forall|j: int| s.0 <= j < s.1 ==> t[j] != '/')
    &&& s.0 == 0 && t[0] == '/' ==> s.1 == 1
}

proof fn lemma_spans(t: Seq<char>, i: int)
    requires
        0 <= i <= t.len(),
    ensures
        forall|k: int| 0 <= k < spans_from(t, i).len() ==> span_ok(t, i, #[trigger] spans_from(t, i)[k]),
        forall|k: int, l: int|
            0 <= k < l < spans_from(t, i).len() ==> #[trigger] spans_from(t, i)[k].1 <= #[trigger] spans_from(
                t,
                i,
            )[l].0,
        forall|k: int|
            0 <= k < spans_from(t, i).len() ==> spans_from(t, (#[trigger] spans_from(t, i)[k]).0)
                == spans_from(t, i).skip(k),
        forall|k: int|
            0 <= k < spans_from(t, i).len() ==> spans_from(t, (#[trigger] spans_from(t, i)[k]).1)
                == spans_from(t, i).skip(k + 1),
    decreases t.len() - i,
{
    let s = spans_from(t, i);
    if i == t.len() {
    } else {
        lemma_piece_end(t, i);
        let e = if t[i] == '/' { i + 1 } else { piece_end(t, i) };
        lemma_spans(t, e);
        let rest = spans_from(t, e);
        if s == rest {
            assert forall|k: int| 0 <= k < s.len() implies span_ok(t, i, #[trigger] s[k]) by {
                assert(span_ok(t, e, rest[k]));
            }
        } else {
            assert(s =~= seq![(i, e)] + rest);
            assert(s.skip(0) =~= s);
            assert(s.skip(1) =~= rest);
            assert forall|k: int| 0 <= k < s.len() implies span_ok(t, i, #[trigger] s[k]) by {
                if k > 0 {
                    assert(span_ok(t, e, rest[k - 1]));
                }
            }
            assert forall|k: int| 0 <= k < s.len() implies spans_from(t, (#[trigger] s[k]).0) == s.skip(k) by {
                if k > 0 {
                    assert(spans_from(t, rest[k - 1].0) == rest.skip(k - 1));
                    assert(s.skip(k) =~= rest.skip(k - 1));
                }
            }
            assert forall|k: int| 0 <= k < s.len() implies spans_from(t, (#[trigger] s[k]).1) == s.skip(k + 1) by {
                if k > 0 {
                    assert(spans_from(t, rest[k - 1].1) == rest.skip(k));
                    assert(s.skip(k + 1) =~= rest.skip(k));
                }
            }
            assert forall|k: int, l: int| 0 <= k < l < s.len() implies (#[trigger] s[k]).1 <= (#[trigger] s[l]).0 by {
                assert(span_ok(t, e, rest[l - 1]));
                if k > 0 {
                    assert(rest[k - 1].1 <= rest[l - 1].0);
                }
            }
        }
    }
}

/// A non-empty path begins with its first component.
proof fn lemma_first_span(t: Seq<char>)
    requires
        t.len() > 0,
    ensures
        spans(t).len() > 0,
        spans(t)[0].0 == 0,
{
    lemma_piece_end(t, 0);
}

/// What the components of a path look like: the root stands first and exactly in an
/// absolute path, and behind the first component stand only pieces.
pub proof fn lemma_components(t: Seq<char>)
    ensures
        t.len() == 0 <==> components(t).len() == 0,
        components(t).len() > 0 ==> (components(t)[0] == "/"@ <==> is_absolute(t)),
        components(t).len() > 0 && !is_absolute(t) ==> is_piece(components(t)[0]) || components(t)[0] == "."@,
        forall|k: int| 0 < k < components(t).len() ==> is_piece(#[trigger] components(t)[k]),
{
    reveal_strlit("/");
    reveal_strlit(".");
    let s = spans(t);
    lemma_spans(t, 0);
    if t.len() > 0 {
        lemma_first_span(t);
        assert(span_ok(t, 0, s[0]));
        let c = components(t)[0];
        assert(c =~= t.subrange(0, s[0].1));
        assert(c[0] == t[0]);
        if is_absolute(t) {
            assert(c =~= "/"@);
        } else {
            assert(!c.contains('/'));
        }
    }
    assert forall|k: int| 0 < k < components(t).len() implies is_piece(#[trigger] components(t)[k]) by {
        let c = components(t)[k];
        assert(span_ok(t, 0, s[k]));
        assert(span_ok(t, 0, s[0]));
        assert(s[0].1 <= s[k].0);
        assert(c =~= t.subrange(s[k].0, s[k].1));
        if c == "."@ {
            assert(c.len() == 1);
            assert(c[0] == t[s[k].0]);
        }
    }
}

/// A text that ends with its last component, seen from one of its later components on.
proof fn lemma_spans_tail(v: Seq<char>, k: int)
    requires
        0 < k < spans(v).len(),
    ensures
        shifted(spans(v.skip(spans(v)[k].0)), spans(v)[k].0) == spans(v).skip(k),
        0 < spans(v)[k].0 <= v.len(),
{
    let s = spans(v);
    lemma_spans(v, 0);
    let a = s[k].0;
    let e = s[k].1;
    let u = v.skip(a);
    assert(span_ok(v, 0, s[k]));
    assert(span_ok(v, 0, s[0]));
    assert(s[0].1 <= s[k].0);
    assert(e == v.len() || v[e] == '/') by {
        assert(v[e - 1] != '/');
    }
    lemma_piece_end_is(u, 0, e - a);
    lemma_spans_shift(v, a, e);
    assert(u[0] == v[a]);
    assert(spans(u) == seq![(0int, e - a)] + spans_from(u, e - a));
    assert(s.skip(k) =~= seq![s[k]] + s.skip(k + 1));
    assert(shifted(spans(u), a) =~= s.skip(k));
}

/// Dropping leading components from the text drops them from the path.
pub proof fn lemma_text_after(t: Seq<char>, k: int)
    requires
        0 <= k <= components(t).len(),
    ensures
        components(text_after(t, k)) == components(t).skip(k),
{
    let s = spans(t);
    lemma_spans(t, 0);
    if k == s.len() {
        assert(components(text_after(t, k)) =~= components(t).skip(k));
    } else {
        assert(span_ok(t, 0, s[k]));
        assert(span_ok(t, 0, s.last()));
        let a = s[k].0;
        let b = s.last().1;
        let v = t.take(b);
        lemma_spans_split(t, b, 0);
        assert(s.skip(s.len() as int) =~= Seq::empty());
        assert(spans(v) =~= s);
        assert forall|j: int| 0 <= j < s.len() implies 0 <= (#[trigger] s[j]).0 < s[j].1 <= b by {
            assert(span_ok(t, 0, s[j]));
            if j < s.len() - 1 {
                assert(s[j].1 <= s[s.len() - 1].0);
            }
        }
        lemma_cut_prefix(t, b, s);
        let u = text_after(t, k);
        assert(u =~= v.skip(a));
        if k == 0 {
            lemma_first_span(t);
            assert(u =~= v);
            assert(components(t).skip(0) =~= components(t));
        } else {
            lemma_spans_tail(v, k);
            lemma_spans(u, 0);
            assert forall|j: int| 0 <= j < spans(u).len() implies 0 <= (#[trigger] spans(u)[j]).0 < spans(u)[j].1
                <= v.len() - a by {
                assert(span_ok(u, 0, spans(u)[j]));
            }
            lemma_cut_suffix(v, a, spans(u));
            assert(components(t).skip(k) =~= cut(v, s.skip(k)));
        }
    }
}

/// Keeping leading components of the text keeps them of the path.
pub proof fn lemma_text_upto(t: Seq<char>, k: int)
    requires
        0 <= k <= components(t).len(),
    ensures
        components(text_upto(t, k)) == components(t).take(k),
        spans(text_upto(t, k)) == spans(t).take(k),
        text_upto(t, k).len() <= t.len(),
        text_upto(t, k) == t.take(text_upto(t, k).len() as int),
        k < components(t).len() ==> text_upto(t, k).len() < t.len(),
{
    let s = spans(t);
    lemma_spans(t, 0);
    if k == 0 {
        assert(components(text_upto(t, k)) =~= components(t).take(k));
        assert(text_upto(t, k) =~= t.take(0));
    } else {
        assert(span_ok(t, 0, s[k - 1]));
        let b = s[k - 1].1;
        let v = t.take(b);
        assert(text_upto(t, k) =~= v);
        lemma_spans_split(t, b, 0);
        assert(spans(v) =~= s.take(k)) by {
            assert(s =~= spans(v) + s.skip(k));
        }
        assert forall|j: int| 0 <= j < k implies #[trigger] components(v)[j] == components(t)[j] by {
            assert(span_ok(t, 0, s[j]));
            if j < k - 1 {
                assert(s[j].1 <= s[k - 1].0);
            }
            assert(components(v)[j] =~= t.subrange(s[j].0, s[j].1));
        }
        assert(components(v) =~= components(t).take(k));
        if k < s.len() {
            assert(span_ok(t, 0, s[k]));
            assert(s[k - 1].1 <= s[k].0);
        }
    }
}

/// The components that a relative path adds below another: a leading `.` adds nothing.
pub open spec fn added_components(path: Seq<char>) -> Seq<Seq<char>> {
    let cs = components(path);
    if cs.len() > 0 && cs[0] == "."@ {
        cs.skip(1)
    } else {
        cs
    }
}

/// The spans that a relative path takes when it stands at `a` of a longer text.
spec fn added_spans(path: Seq<char>) -> Seq<(int, int)> {
    let p = spans(path);
    if p.len() > 0 && components(path)[0] == "."@ {
        p.skip(1)
    } else {
        p
    }
}

proof fn lemma_added_spans(t: Seq<char>, a: int)
    requires
        0 < a <= t.len(),
        !is_absolute(t.skip(a)),
    ensures
        spans_from(t, a) == shifted(added_spans(t.skip(a)), a),
{
    reveal_strlit(".");
    let path = t.skip(a);
    let p = spans(path);
    if path.len() == 0 {
        assert(spans_from(t, a) =~= shifted(added_spans(path), a));
    } else {
        lemma_piece_end(path, 0);
        let e = piece_end(path, 0);
        assert(t[a] == path[0]);
        assert(piece_end(t, a) == a + e) by {
            assert(forall|j: int| a <= j < a + e ==> t[j] == path[j - a]);
            if a + e < t.len() {
                assert(t[a + e] == path[e]);
            }
            lemma_piece_end_is(t, a, a + e);
        }
        assert(p == seq![(0int, e)] + spans_from(path, e));
        assert(p.skip(1) =~= spans_from(path, e));
        lemma_spans_shift(t, a, a + e);
        let c = components(path)[0];
        assert(c == path.subrange(0, e));
        if e == 1 && path[0] == '.' {
            assert(c =~= "."@);
        } else {
            assert(c != "."@) by {
                if c == "."@ {
                    assert(c.len() == 1);
                    assert(c[0] == path[0]);
                }
            }
            assert(shifted(p, a) =~= seq![(a, a + e)] + shifted(spans_from(path, e), a));
        }
    }
}

proof fn lemma_cut_suffix(t: Seq<char>, a: int, s: Seq<(int, int)>)
    requires
        0 <= a <= t.len(),
        forall|k: int| 0 <= k < s.len() ==> 0 <= (#[trigger] s[k]).0 < s[k].1 <= t.len() - a,
    ensures
        cut(t, shifted(s, a)) == cut(t.skip(a), s),
{
    assert forall|j: int| 0 <= j < s.len() implies #[trigger] cut(t, shifted(s, a))[j] == cut(t.skip(a), s)[j] by {
        assert(cut(t, shifted(s, a))[j] =~= t.skip(a).subrange(s[j].0, s[j].1));
    }
    assert(cut(t, shifted(s, a)) =~= cut(t.skip(a), s));
}

/// Joining adds the components of the second path to those of the first.
pub proof fn lemma_join(base: Seq<char>, path: Seq<char>)
    requires
        base.len() > 0,
        !is_absolute(path),
    ensures
        components(join_text(base, path)) == components(base) + added_components(path),
{
    let t = join_text(base, path);
    let n = base.len() as int;
    let a = if base.last() == '/' { n } else { n + 1 };
    assert(t.take(n) =~= base);
    assert(t.skip(a) =~= path);
    assert(boundary(t, n)) by {
        if a == n + 1 {
            assert(t[n] == '/');
        } else {
            assert(t[n - 1] == '/');
        }
    }
    lemma_spans_split(t, n, 0);
    assert(spans_from(t, n) == spans_from(t, a)) by {
        if a == n + 1 {
            assert(t[n] == '/');
        }
    }
    lemma_added_spans(t, a);
    let q = added_spans(path);
    assert(added_components(path) =~= cut(path, q));
    assert forall|k: int| 0 <= k < spans(base).len() implies 0 <= (#[trigger] spans(base)[k]).0 < spans(base)[k].1
        <= n by {
        lemma_spans(base, 0);
        assert(span_ok(base, 0, spans(base)[k]));
    }
    assert forall|k: int| 0 <= k < q.len() implies 0 <= (#[trigger] q[k]).0 < q[k].1 <= t.len() - a by {
        lemma_spans(path, 0);
        let j = if q == spans(path) { k } else { k + 1 };
        assert(span_ok(path, 0, spans(path)[j]));
        assert(q[k] == spans(path)[j]);
    }
    lemma_cut_prefix(t, n, spans(base));
    lemma_cut_suffix(t, a, q);
    assert(components(t) =~= cut(t, spans(base)) + cut(t, shifted(q, a)));
}

/// A cut inside the first `n` characters depends on these alone.
proof fn lemma_cut_prefix(t: Seq<char>, n: int, s: Seq<(int, int)>)
    requires
        0 <= n <= t.len(),
        forall|k: int| 0 <= k < s.len() ==> 0 <= (#[trigger] s[k]).0 < s[k].1 <= n,
    ensures
        cut(t, s) == cut(t.take(n), s),
{
    assert forall|j: int| 0 <= j < s.len() implies #[trigger] cut(t, s)[j] == cut(t.take(n), s)[j] by {
        assert(cut(t, s)[j] =~= t.take(n).subrange(s[j].0, s[j].1));
    }
    assert(cut(t, s) =~= cut(t.take(n), s));
}

/// `t` without its last component. Nothing lies above the root or the empty path.
pub open spec fn parent_text(t: Seq<char>) -> Option<Seq<char>> {
    let cs = components(t);
    if cs.len() == 0 || cs.last() == "/"@ {
        None
    } else {
        Some(text_upto(t, cs.len() - 1))
    }
}

/// The last component of `t`, when it names an entry of a directory.
pub open spec fn file_name_text(t: Seq<char>) -> Option<Seq<char>> {
    let cs = components(t);
    if cs.len() > 0 && is_normal(cs.last()) {
        Some(cs.last())
    } else {
        None
    }
}

/// What is left of `path` below `base`.
pub open spec fn stripped_text(path: Seq<char>, base: Seq<char>) -> Option<Seq<char>> {
    if starts_with(path, base) {
        Some(text_after(path, components(base).len() as int))
    } else {
        None
    }
}

/// The directories above `start`, from the nearest up to `root`, or up to the top when
/// `root` is not among them.
pub open spec fn directories_above(start: Seq<char>, root: Seq<char>) -> Seq<Seq<char>>
    decreases start.len(),
{
    match parent_text(start) {
        None => Seq::empty(),
        Some(dir) => {
            proof {
                lemma_text_upto(start, components(start).len() - 1);
            }
            if same_path(dir, root) {
                seq![dir]
            } else {
                seq![dir] + directories_above(dir, root)
            }
        },
    }
}

/// Of some leading components of a path, fewer can be taken in one step.
pub proof fn lemma_upto_nested(t: Seq<char>, a: int, b: int)
    requires
        0 <= b <= a <= components(t).len(),
    ensures
        text_upto(text_upto(t, a), b) == text_upto(t, b),
{
    let s = spans(t);
    lemma_spans(t, 0);
    lemma_text_upto(t, a);
    if b > 0 {
        assert(span_ok(t, 0, s[a - 1]));
        assert(span_ok(t, 0, s[b - 1]));
        if b < a {
            assert(s[b - 1].1 <= s[a - 1].0);
        }
        assert(text_upto(text_upto(t, a), b) =~= text_upto(t, b));
    }
}

/// The text between two components of a path is a prefix of that up to its end.
pub proof fn lemma_upto_after(t: Seq<char>, k: int, b: int)
    requires
        0 <= k <= b <= components(t).len(),
    ensures
        text_after(text_upto(t, b), k).is_prefix_of(text_after(t, k)),
        text_after(text_upto(t, b), k) == text_after(t, k).take(text_after(text_upto(t, b), k).len() as int),
{
    let s = spans(t);
    lemma_spans(t, 0);
    lemma_text_upto(t, b);
    let u = text_upto(t, b);
    if k < b {
        assert(span_ok(t, 0, s[k]));
        assert(span_ok(t, 0, s[b - 1]));
        assert(span_ok(t, 0, s.last()));
        if k < b - 1 {
            assert(s[k].1 <= s[b - 1].0);
        }
        if b < s.len() {
            assert(s[b - 1].1 <= s.last().0);
        }
        assert(spans(u) == s.take(b));
        assert(text_after(u, k) =~= t.subrange(s[k].0, s[b - 1].1));
    }
    assert(text_after(u, k) =~= text_after(t, k).take(text_after(u, k).len() as int));
}

/// The directories above a path are the path without its last components, one more each
/// time, and only the last of them can be `root`.
pub proof fn lemma_directories_above(start: Seq<char>, root: Seq<char>)
    ensures
        ({
            let dirs = directories_above(start, root);
            let n = components(start).len() as int;
            &&& dirs.len() <= n
            &&& forall|i: int| 0 <= i < dirs.len() ==> #[trigger] dirs[i] == text_upto(start, n - 1 - i)
            &&& forall|i: int| 0 <= i < dirs.len() - 1 ==> !same_path(#[trigger] dirs[i], root)
        }),
    decreases start.len(),
{
    if let Some(dir) = parent_text(start) {
        let n = components(start).len() as int;
        lemma_text_upto(start, n - 1);
        let dirs = directories_above(start, root);
        assert(dirs[0] == dir);
        if !same_path(dir, root) {
            lemma_directories_above(dir, root);
            let above = directories_above(dir, root);
            assert forall|i: int| 0 <= i < dirs.len() implies #[trigger] dirs[i] == text_upto(start, n - 1 - i) by {
                if i > 0 {
                    assert(dirs[i] == above[i - 1]);
                    lemma_upto_nested(start, n - 1, n - 1 - i);
                }
            }
            assert forall|i: int| 0 <= i < dirs.len() - 1 implies !same_path(#[trigger] dirs[i], root) by {
                if i > 0 {
                    assert(dirs[i] == above[i - 1]);
                }
            }
        }
    }
}

/// The directories above a path below `root` end with `root`, and all of them lie in it.
pub proof fn law_directories_end_at_the_root(start: Seq<char>, root: Seq<char>)
    requires
        starts_with(start, root),
        components(root).len() < components(start).len(),
        root.len() > 0 || !is_absolute(start),
    ensures
        ({
            let dirs = directories_above(start, root);
            &&& dirs.len() == components(start).len() - components(root).len()
            &&& same_path(dirs.last(), root)
            &&& forall|i: int| 0 <= i < dirs.len() ==> starts_with(#[trigger] dirs[i], root)
        }),
    decreases start.len(),
{
    let cs = components(start);
    let n = cs.len() as int;
    let k = components(root).len() as int;
    lemma_components(start);
    lemma_components(root);
    reveal_strlit("/");
    if n > 1 {
        assert(is_piece(cs[n - 1]));
        assert(cs.last() == "/"@ ==> cs[n - 1].contains(cs[n - 1][0]));
    }
    let dir = text_upto(start, n - 1);
    lemma_text_upto(start, n - 1);
    assert(cs.take(n - 1).take(k) =~= cs.take(k));
    assert(components(root) =~= cs.take(k));
    assert(starts_with(dir, root));
    let dirs = directories_above(start, root);
    if k == n - 1 {
        assert(cs.take(n - 1) =~= components(root));
    } else {
        assert(components(dir).len() != k);
        lemma_components(dir);
        if root.len() == 0 {
            assert(components(dir)[0] == cs[0]);
        }
        law_directories_end_at_the_root(dir, root);
        let above = directories_above(dir, root);
        assert(dirs =~= seq![dir] + above);
        assert(dirs.last() == above.last());
        assert forall|i: int| 0 <= i < dirs.len() implies starts_with(#[trigger] dirs[i], root) by {
            if i > 0 {
                assert(dirs[i] == above[i - 1]);
            }
        }
    }
}

/// Positions held in machine integers.
pub open spec fn positions(list: Seq<(usize, usize)>) -> Seq<(int, int)> {
    list.map_values(|p: (usize, usize)| (p.0 as int, p.1 as int))
}

/// Where the components of `t` begin and end.
fn component_spans(t: &Vec<char>) -> (r: Vec<(usize, usize)>)
    ensures
        positions(r@) == spans(t@),
{
    let mut r: Vec<(usize, usize)> = Vec::new();
    let mut i: usize = 0;
    assert(positions(r@) + spans_from(t@, 0) =~= spans(t@));
    while i < t.len()
        invariant
            i <= t.len(),
            positions(r@) + spans_from(t@, i as int) == spans(t@),
        decreases t.len() - i,
    {
        let ghost before = r@;
        let start: usize = i;
        proof {
            lemma_piece_end(t@, start as int);
        }
        if t[i] == '/' {
            i = i + 1;
            if start == 0 {
                r.push((0, 1));
                assert(positions(r@) =~= positions(before).push((0int, 1int)));
            }
        } else {
            while i < t.len() && t[i] != '/'
                invariant
                    start <= i <= t.len(),
                    start < t.len(),
                    i < t.len() || i == t.len(),
                    piece_end(t@, start as int) == piece_end(t@, i as int),
                decreases t.len() - i,
            {
                i = i + 1;
            }
            if !(start != 0 && i == start + 1 && t[start] == '.') {
                r.push((start, i));
                assert(positions(r@) =~= positions(before).push((start as int, i as int)));
            }
        }
        assert(positions(r@) + spans_from(t@, i as int) =~= positions(before) + spans_from(t@, start as int));
    }
    assert(positions(r@) + spans_from(t@, i as int) =~= positions(r@));
    r
}

/// The components of `path`, in order.
pub fn components_of(path: &str) -> (r: Vec<String>)
    ensures
        text::texts(r@) == components(path@),
{
    let t = chars_of(path);
    let list = component_spans(&t);
    let mut r: Vec<String> = Vec::new();
    for i in 0..list.len()
        invariant
            t@ == path@,
            positions(list@) == spans(path@),
            text::texts(r@) == components(path@).take(i as int),
    {
        proof {
            lemma_spans(path@, 0);
            assert(span_ok(path@, 0, spans(path@)[i as int]));
            assert(positions(list@)[i as int] == (list@[i as int].0 as int, list@[i as int].1 as int));
        }
        let ghost before = r@;
        r.push(path.substring_char(list[i].0, list[i].1).to_owned());
        assert(text::texts(r@) =~= text::texts(before).push(components(path@)[i as int]));
        assert(components(path@).take(i + 1) =~= components(path@).take(i as int).push(components(path@)[i as int]));
    }
    assert(list@.len() == spans(path@).len()) by {
        assert(positions(list@).len() == list@.len());
    }
    assert(components(path@).take(list@.len() as int) =~= components(path@));
    r
}

/// Whether `list` begins with the strings of `prefix`.
fn has_prefix(list: &Vec<String>, prefix: &Vec<String>) -> (r: bool)
    ensures
        r == text::texts(prefix@).is_prefix_of(text::texts(list@)),
{
    if prefix.len() > list.len() {
        return false;
    }
    for i in 0..prefix.len()
        invariant
            prefix.len() <= list.len(),
            forall|j: int| 0 <= j < i ==> text::texts(prefix@)[j] == text::texts(list@)[j],
    {
        assert(text::texts(prefix@)[i as int] == prefix@[i as int]@);
        assert(text::texts(list@)[i as int] == list@[i as int]@);
        if prefix[i] != list[i] {
            assert(text::texts(list@).subrange(0, prefix@.len() as int)[i as int] == text::texts(list@)[i as int]);
            return false;
        }
    }
    assert(text::texts(prefix@) =~= text::texts(list@).subrange(0, prefix@.len() as int));
    true
}

/// Whether `path` starts at the root.
pub fn is_rooted(path: &str) -> (r: bool)
    ensures
        r == is_absolute(path@),
{
    !path.is_empty() && path.get_char(0) == '/'
}

/// Whether two texts spell the same path.
pub fn is_same(a: &str, b: &str) -> (r: bool)
    ensures
        r == same_path(a@, b@),
{
    let x = components_of(a);
    let y = components_of(b);
    if x.len() != y.len() {
        assert(text::texts(x@).len() != text::texts(y@).len());
        return false;
    }
    let r = has_prefix(&x, &y);
    proof {
        assert(text::texts(x@).len() == text::texts(y@).len());
        assert(text::texts(x@).subrange(0, y@.len() as int) =~= text::texts(x@));
    }
    r
}

/// Whether `path` is `base` or lies below it.
pub fn is_below(path: &str, base: &str) -> (r: bool)
    ensures
        r == starts_with(path@, base@),
{
    has_prefix(&components_of(path), &components_of(base))
}

/// `path` below `base`; an absolute `path` stands alone.
pub fn join(base: &str, path: &str) -> (r: String)
    ensures
        r@ == join_text(base@, path@),
{
    if is_rooted(path) {
        return path.to_owned();
    }
    let mut r = base.to_owned();
    let n: usize = base.unicode_len();
    if n > 0 && base.get_char(n - 1) != '/' {
        r.append("/");
        proof {
            reveal_strlit("/");
            assert("/"@ =~= seq!['/']);
        }
    }
    r.append(path);
    r
}

/// What is left of `path` below `base`, or nothing when it does not lie there.
pub fn strip_prefix<'a>(path: &'a str, base: &str) -> (r: Option<&'a str>)
    ensures
        match r {
            Some(rest) => stripped_text(path@, base@) == Some(rest@),
            None => stripped_text(path@, base@) is None,
        },
{
    let t = chars_of(path);
    let list = component_spans(&t);
    let below = components_of(base);
    if !has_prefix(&components_of(path), &below) {
        return None;
    }
    let k: usize = below.len();
    proof {
        assert(text::texts(below@).len() == below@.len());
        assert(positions(list@).len() == list@.len());
        lemma_spans(path@, 0);
    }
    if k == list.len() {
        let rest = path.substring_char(0, 0);
        assert(rest@ =~= Seq::empty());
        return Some(rest);
    }
    let last: usize = list.len() - 1;
    proof {
        assert(span_ok(path@, 0, spans(path@)[k as int]));
        assert(span_ok(path@, 0, spans(path@)[last as int]));
        assert(positions(list@)[k as int] == (list@[k as int].0 as int, list@[k as int].1 as int));
        assert(positions(list@)[last as int] == (list@[last as int].0 as int, list@[last as int].1 as int));
        assert(k < last ==> spans(path@)[k as int].1 <= spans(path@)[last as int].0);
    }
    Some(path.substring_char(list[k].0, list[last].1))
}

/// The directory that holds `path`.
pub fn parent<'a>(path: &'a str) -> (r: Option<&'a str>)
    ensures
        match r {
            Some(dir) => parent_text(path@) == Some(dir@),
            None => parent_text(path@) is None,
        },
{
    let cs = components_of(path);
    assert(text::texts(cs@).len() == cs@.len());
    if cs.len() == 0 {
        return None;
    }
    assert(text::texts(cs@).last() == cs@.last()@);
    if cs[cs.len() - 1] == "/".to_owned() {
        return None;
    }
    let t = chars_of(path);
    let list = component_spans(&t);
    proof {
        assert(positions(list@).len() == list@.len());
        lemma_spans(path@, 0);
    }
    if list.len() == 1 {
        let dir = path.substring_char(0, 0);
        assert(dir@ =~= Seq::empty());
        return Some(dir);
    }
    let k: usize = list.len() - 2;
    proof {
        assert(span_ok(path@, 0, spans(path@)[k as int]));
        assert(positions(list@)[k as int] == (list@[k as int].0 as int, list@[k as int].1 as int));
    }
    Some(path.substring_char(0, list[k].1))
}

/// The name that `path` has in its directory.
pub fn file_name(path: &str) -> (r: Option<String>)
    ensures
        match r {
            Some(name) => file_name_text(path@) == Some(name@),
            None => file_name_text(path@) is None,
        },
{
    let cs = components_of(path);
    assert(text::texts(cs@).len() == cs@.len());
    if cs.len() == 0 {
        return None;
    }
    let last = &cs[cs.len() - 1];
    assert(text::texts(cs@).last() == last@);
    if is_normal_component(last) {
        Some(last.clone())
    } else {
        None
    }
}

/// Whether a component names an entry of a directory.
pub fn is_normal_component(c: &String) -> (r: bool)
    ensures
        r == is_normal(c@),
{
    *c != "/".to_owned() && *c != ".".to_owned() && *c != "..".to_owned()
}

/// The directories above `start`, from the nearest up to `root`.
pub fn ancestors(start: &str, root: &str) -> (r: Vec<String>)
    ensures
        text::texts(r@) == directories_above(start@, root@),
{
    let mut r: Vec<String> = Vec::new();
    let mut current: String = start.to_owned();
    assert(text::texts(r@) =~= Seq::empty());
    loop
        invariant_except_break
            text::texts(r@) + directories_above(current@, root@) =~= directories_above(start@, root@),
        ensures
            text::texts(r@) == directories_above(start@, root@),
        decreases current@.len(),
    {
        let ghost before = r@;
        let dir: String = match parent(current.as_str()) {
            None => {
                assert(text::texts(r@) + directories_above(current@, root@) =~= text::texts(r@));
                break;
            },
            Some(dir) => dir.to_owned(),
        };
        proof {
            lemma_text_upto(current@, components(current@).len() - 1);
        }
        r.push(dir.clone());
        assert(text::texts(r@) =~= text::texts(before).push(dir@));
        if is_same(dir.as_str(), root) {
            break;
        }
        current = dir;
    }
    r
}

/// A separator at the end of a path changes nothing, and neither do several.
pub proof fn law_separators_at_the_end_add_nothing(t: Seq<char>)
    requires
        t.len() > 0,
    ensures
        components(t.push('/')) == components(t),
{
    let u = t.push('/');
    let n = t.len() as int;
    assert(boundary(u, n));
    lemma_spans_split(u, n, 0);
    assert(u.take(n) =~= t);
    assert(spans_from(u, n + 1) =~= Seq::empty());
    assert(spans_from(u, n) =~= Seq::empty());
    assert(spans(u) =~= spans(t));
    lemma_spans(t, 0);
    assert forall|k: int| 0 <= k < spans(t).len() implies 0 <= (#[trigger] spans(t)[k]).0 < spans(t)[k].1 <= n by {
        assert(span_ok(t, 0, spans(t)[k]));
    }
    lemma_cut_prefix(u, n, spans(t));
}

/// An absolute path stands for itself wherever it is joined; any other is written behind the
/// other path, with one separator between them where there is none.
pub proof fn law_paths_are_joined_by_a_separator(base: Seq<char>, path: Seq<char>)
    ensures
        is_absolute(path) <==> path.len() > 0 && path[0] == '/',
        path.len() > 0 && path[0] == '/' ==> join_text(base, path) == path,
        path.len() == 0 || path[0] != '/' ==> {
            &&& join_text(Seq::empty(), path) == path
            &&& join_text(base.push('/'), path) == base.push('/') + path
            &&& base.len() > 0 && base.last() != '/' ==> join_text(base, path) == base.push('/') + path
        },
{
    assert(Seq::<char>::empty() + path =~= path);
    assert(base + seq!['/'] =~= base.push('/'));
}

/// The directory of a path is the path without its last component, and its name is that
/// component if it names an entry. Only the root and the empty path have no directory.
pub proof fn law_a_path_is_its_directory_and_its_name(t: Seq<char>)
    ensures
        ({
            let cs = components(t);
            let n = cs.len() as int;
            &&& parent_text(t) is None <==> n == 0 || (n == 1 && cs[0] == "/"@)
            &&& parent_text(t) matches Some(dir) ==> components(dir) == cs.take(n - 1)
            &&& file_name_text(t) is Some <==> n > 0 && cs.last() != "/"@ && cs.last() != "."@ && cs.last() != ".."@
            &&& file_name_text(t) matches Some(name) ==> name == cs.last()
        }),
{
    let cs = components(t);
    let n = cs.len() as int;
    lemma_components(t);
    reveal_strlit("/");
    if n > 0 {
        lemma_text_upto(t, n - 1);
    }
    if n > 1 {
        assert(is_piece(cs[n - 1]));
        if cs.last() == "/"@ {
            assert(cs[n - 1].contains(cs[n - 1][0]));
        }
    }
}

/// The directories above a path are the path without its last component, without its last
/// two, and so on. They end with the first that is the given root or that has no directory
/// above it.
pub proof fn law_directories_go_up_one_by_one(start: Seq<char>, root: Seq<char>)
    ensures
        ({
            let dirs = directories_above(start, root);
            let cs = components(start);
            &&& dirs.len() == 0 <==> parent_text(start) is None
            &&& forall|i: int| 0 <= i < dirs.len() ==> components(#[trigger] dirs[i]) == cs.take(cs.len() - 1 - i)
            &&& forall|i: int| 0 <= i < dirs.len() - 1 ==> components(#[trigger] dirs[i]) != components(root)
            &&& dirs.len() > 0 ==> components(dirs.last()) == components(root) || parent_text(dirs.last()) is None
        }),
    decreases start.len(),
{
    let dirs = directories_above(start, root);
    let cs = components(start);
    let n = cs.len() as int;
    lemma_directories_above(start, root);
    assert forall|i: int| 0 <= i < dirs.len() implies components(#[trigger] dirs[i]) == cs.take(n - 1 - i) by {
        lemma_text_upto(start, n - 1 - i);
    }
    assert forall|i: int| 0 <= i < dirs.len() - 1 implies components(#[trigger] dirs[i]) != components(root) by {
        assert(!same_path(dirs[i], root));
    }
    if let Some(dir) = parent_text(start) {
        lemma_text_upto(start, n - 1);
        if !same_path(dir, root) {
            law_directories_go_up_one_by_one(dir, root);
            let above = directories_above(dir, root);
            if above.len() > 0 {
                assert(dirs.last() == above.last());
            } else {
                assert(dirs.last() == dir);
            }
        }
    }
}

/// What is left of a path below another is written as in that path: it is one piece of its
/// text, from the start of the first component that is left to the end of the last.
pub proof fn law_what_is_left_is_written_as_before(path: Seq<char>, base: Seq<char>)
    requires
        components(base).is_prefix_of(components(path)),
        components(base).len() < components(path).len(),
    ensures
        stripped_text(path, base) is Some,
        ({
            let r = stripped_text(path, base)->0;
            let first = components(path)[components(base).len() as int];
            let last = components(path).last();
            &&& exists|i: int| 0 <= i && i + r.len() <= path.len() && r == #[trigger] path.subrange(i, i + r.len())
            &&& first.len() <= r.len() && r.take(first.len() as int) == first
            &&& last.len() <= r.len() && r.skip(r.len() - last.len()) == last
        }),
{
    let s = spans(path);
    let k = components(base).len() as int;
    let n = s.len() - 1;
    lemma_spans(path, 0);
    assert(span_ok(path, 0, s[k]));
    assert(span_ok(path, 0, s[n]));
    if k < n {
        assert(s[k].1 <= s[n].0);
    }
    let r = stripped_text(path, base)->0;
    let first = components(path)[k];
    let last = components(path).last();
    assert(r == path.subrange(s[k].0, s[k].0 + r.len()));
    assert(first == path.subrange(s[k].0, s[k].1));
    assert(last == path.subrange(s[n].0, s[n].1));
    assert(r.take(first.len() as int) =~= first);
    assert(r.skip(r.len() - last.len()) =~= last);
}

/// The directory of a path is written as in that path: it is the beginning of its text, up to
/// the end of the last component of the directory.
pub proof fn law_a_directory_is_written_as_before(t: Seq<char>, dir: Seq<char>)
    requires
        parent_text(t) == Some(dir),
    ensures
        dir.len() <= t.len(),
        dir == t.take(dir.len() as int),
        components(t).len() == 1 ==> dir.len() == 0,
        components(t).len() > 1 ==> {
            let last = components(t)[components(t).len() - 2];
            last.len() <= dir.len() && dir.skip(dir.len() - last.len()) == last
        },
{
    let s = spans(t);
    let k = components(t).len() - 1;
    lemma_text_upto(t, k);
    lemma_spans(t, 0);
    if k > 0 {
        assert(span_ok(t, 0, s[k - 1]));
        let last = components(t)[k - 1];
        assert(last == t.subrange(s[k - 1].0, s[k - 1].1));
        assert(dir.skip(dir.len() - last.len()) =~= last);
    }
}

} // verus!
