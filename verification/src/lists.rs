//! Steps in proofs about lists that are built one element after the other.

use vstd::prelude::*;

verus! {

/// What is kept of a list and changed, by its last element.
pub proof fn lemma_filter_map_step<A, B>(s: Seq<A>, p: spec_fn(A) -> bool, g: spec_fn(A) -> B)
    ensures
        s.len() == 0 ==> s.filter(p).map_values(g) == Seq::<B>::empty(),
        s.len() > 0 ==> s.filter(p).map_values(g) == if p(s.last()) {
            s.drop_last().filter(p).map_values(g).push(g(s.last()))
        } else {
            s.drop_last().filter(p).map_values(g)
        },
{
    reveal(Seq::filter);
    if s.len() == 0 {
        assert(s.filter(p).map_values(g) =~= Seq::<B>::empty());
    } else if p(s.last()) {
        let kept = s.drop_last().filter(p);
        assert(s.filter(p) == kept.push(s.last()));
        assert(kept.push(s.last()).map_values(g) =~= kept.map_values(g).push(g(s.last())));
    }
}

/// What the elements of a list give, one after the other, by its last element.
pub proof fn lemma_flat_map_step<A, B>(s: Seq<A>, f: spec_fn(A) -> Seq<B>)
    ensures
        s.len() == 0 ==> s.flat_map(f) == Seq::<B>::empty(),
        s.len() > 0 ==> s.flat_map(f) == s.drop_last().flat_map(f) + f(s.last()),
{
    if s.len() == 0 {
        assert(s.map_values(f) =~= Seq::empty());
        assert(s.flat_map(f) =~= Seq::<B>::empty());
    } else {
        s.drop_last().lemma_flat_map_push(f, s.last());
        assert(s.drop_last().push(s.last()) =~= s);
    }
}

/// What a list gives holds what each of its elements gives, and nothing else.
pub proof fn lemma_flat_map_contains<A, B>(s: Seq<A>, f: spec_fn(A) -> Seq<B>, b: B)
    ensures
        s.flat_map(f).contains(b) <==> exists|i: int| 0 <= i < s.len() && f(#[trigger] s[i]).contains(b),
    decreases s.len(),
{
    lemma_flat_map_step(s, f);
    if s.len() > 0 {
        let init = s.drop_last();
        let last = s.len() - 1;
        lemma_flat_map_contains(init, f, b);
        let x = init.flat_map(f);
        let y = f(s.last());
        assert(s[last] == s.last());
        if x.contains(b) {
            let k = choose|k: int| 0 <= k < x.len() && x[k] == b;
            assert((x + y)[k] == b);
            let i = choose|i: int| 0 <= i < init.len() && f(#[trigger] init[i]).contains(b);
            assert(f(s[i]).contains(b));
        }
        if y.contains(b) {
            let k = choose|k: int| 0 <= k < y.len() && y[k] == b;
            assert((x + y)[x.len() + k] == b);
            assert(f(s[last]).contains(b));
        }
        if (x + y).contains(b) {
            let k = choose|k: int| 0 <= k < (x + y).len() && (x + y)[k] == b;
            if k < x.len() {
                assert(x[k] == b);
            } else {
                assert(y[k - x.len()] == b);
            }
        }
        if exists|i: int| 0 <= i < s.len() && f(#[trigger] s[i]).contains(b) {
            let i = choose|i: int| 0 <= i < s.len() && f(#[trigger] s[i]).contains(b);
            if i < init.len() {
                assert(init[i] == s[i]);
            }
        }
    }
}

/// What is kept of a list and changed holds just what comes from a kept element.
pub proof fn lemma_filter_map_contains<A, B>(s: Seq<A>, p: spec_fn(A) -> bool, g: spec_fn(A) -> B, b: B)
    ensures
        s.filter(p).map_values(g).contains(b) <==> exists|i: int|
            0 <= i < s.len() && p(#[trigger] s[i]) && g(s[i]) == b,
{
    let kept = s.filter(p);
    let all = kept.map_values(g);
    if all.contains(b) {
        let k = choose|k: int| 0 <= k < all.len() && all[k] == b;
        s.lemma_filter_pred(p, k);
        assert(kept.contains(kept[k]));
        s.lemma_filter_contains_rev(p, kept[k]);
        let i = choose|i: int| 0 <= i < s.len() && s[i] == kept[k];
        assert(p(s[i]) && g(s[i]) == b);
    }
    if exists|i: int| 0 <= i < s.len() && p(#[trigger] s[i]) && g(s[i]) == b {
        let i = choose|i: int| 0 <= i < s.len() && p(#[trigger] s[i]) && g(s[i]) == b;
        s.lemma_filter_contains(p, i);
        let k = choose|k: int| 0 <= k < kept.len() && kept[k] == s[i];
        assert(all[k] == b);
    }
}

/// One list behind another holds what either holds.
pub proof fn lemma_concat_contains<A>(s: Seq<A>, t: Seq<A>, a: A)
    ensures
        (s + t).contains(a) <==> s.contains(a) || t.contains(a),
{
    let all = s + t;
    if s.contains(a) {
        let i = choose|i: int| 0 <= i < s.len() && s[i] == a;
        assert(all[i] == a);
    }
    if t.contains(a) {
        let i = choose|i: int| 0 <= i < t.len() && t[i] == a;
        assert(all[s.len() + i] == a);
    }
    if all.contains(a) {
        let i = choose|i: int| 0 <= i < all.len() && all[i] == a;
        if i < s.len() {
            assert(s[i] == a);
        } else {
            assert(t[i - s.len()] == a);
        }
    }
}

/// Of two lists, one behind the other, what is kept is what is kept of each.
pub proof fn lemma_filter_concat<A>(s: Seq<A>, t: Seq<A>, p: spec_fn(A) -> bool)
    ensures
        (s + t).filter(p) == s.filter(p) + t.filter(p),
    decreases t.len(),
{
    reveal(Seq::filter);
    if t.len() == 0 {
        assert(s + t =~= s);
        assert(s.filter(p) + t.filter(p) =~= s.filter(p));
    } else {
        lemma_filter_concat(s, t.drop_last(), p);
        assert((s + t).drop_last() =~= s + t.drop_last());
        assert((s + t).last() == t.last());
        assert((s + t).filter(p) =~= s.filter(p) + t.filter(p));
    }
}

/// A list is kept whole if every element is kept, and vanishes if none is.
pub proof fn lemma_filter_whole<A>(s: Seq<A>, p: spec_fn(A) -> bool)
    ensures
        (forall|i: int| 0 <= i < s.len() ==> p(#[trigger] s[i])) ==> s.filter(p) == s,
        (forall|i: int| 0 <= i < s.len() ==> !p(#[trigger] s[i])) ==> s.filter(p) == Seq::<A>::empty(),
    decreases s.len(),
{
    reveal(Seq::filter);
    if s.len() == 0 {
        assert(s.filter(p) =~= s);
        assert(s.filter(p) =~= Seq::<A>::empty());
    } else {
        let init = s.drop_last();
        lemma_filter_whole(init, p);
        assert(s[s.len() - 1] == s.last());
        assert forall|i: int| 0 <= i < init.len() implies #[trigger] init[i] == s[i] by {}
        if forall|i: int| 0 <= i < s.len() ==> p(#[trigger] s[i]) {
            assert forall|i: int| 0 <= i < init.len() implies p(#[trigger] init[i]) by {
                assert(p(s[i]));
            }
            assert(init.push(s.last()) =~= s);
        }
        if forall|i: int| 0 <= i < s.len() ==> !p(#[trigger] s[i]) {
            assert forall|i: int| 0 <= i < init.len() implies !p(#[trigger] init[i]) by {
                assert(!p(s[i]));
            }
        }
    }
}

} // verus!
