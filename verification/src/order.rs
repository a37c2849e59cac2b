//! Sorting: the order of text, and the order that a stable sort gives to a list of keys.

use crate::text;
use crate::text::chars_of;
use vstd::prelude::*;
use vstd::string::*;

verus! {

/// Whether `a` comes before `b` in the order of a dictionary, character by character.
pub open spec fn text_before(a: Seq<char>, b: Seq<char>) -> bool
    decreases a.len(),
{
    if b.len() == 0 {
        false
    } else if a.len() == 0 {
        true
    } else if a[0] != b[0] {
        (a[0] as int) < (b[0] as int)
    } else {
        text_before(a.skip(1), b.skip(1))
    }
}

/// What a list is sorted by: a rank, then a text.
pub struct SortKey {
    pub rank: u8,
    pub text: Vec<char>,
}

impl View for SortKey {
    type V = (int, Seq<char>);

    open spec fn view(&self) -> (int, Seq<char>) {
        (self.rank as int, self.text@)
    }
}

/// Whether key `a` comes before key `b`.
pub open spec fn key_before(a: (int, Seq<char>), b: (int, Seq<char>)) -> bool {
    a.0 < b.0 || (a.0 == b.0 && text_before(a.1, b.1))
}

/// Whether a stable sort puts the item at `i` before the item at `j`.
pub open spec fn goes_before(keys: Seq<(int, Seq<char>)>, i: int, j: int) -> bool {
    key_before(keys[i], keys[j]) || (keys[i] == keys[j] && i < j)
}

/// `p` lists positions between `lo` and `hi`, each once, as a stable sort orders them.
pub open spec fn is_run(keys: Seq<(int, Seq<char>)>, p: Seq<int>, lo: int, hi: int) -> bool {
    &&& p.len() == hi - lo
    &&& forall|k: int| 0 <= k < p.len() ==> lo <= #[trigger] p[k] < hi
    &&& forall|k: int, l: int| 0 <= k < l < p.len() ==> goes_before(keys, #[trigger] p[k], #[trigger] p[l])
}

/// `p` is the order in which a stable sort puts the items with these keys.
pub open spec fn is_stable_order(keys: Seq<(int, Seq<char>)>, p: Seq<int>) -> bool {
    is_run(keys, p, 0, keys.len() as int)
}

/// The order in which a stable sort puts the items with these keys.
pub open spec fn stable_order(keys: Seq<(int, Seq<char>)>) -> Seq<int> {
    choose|p: Seq<int>| is_stable_order(keys, p)
}

/// The items of a list in the given order.
pub open spec fn arranged<T>(items: Seq<T>, p: Seq<int>) -> Seq<T> {
    p.map_values(|i: int| items[i])
}

/// The keys that sort texts by themselves.
pub open spec fn text_keys(list: Seq<Seq<char>>) -> Seq<(int, Seq<char>)> {
    list.map_values(|t: Seq<char>| (0int, t))
}

/// The texts of a list, sorted.
pub open spec fn sorted_texts(list: Seq<Seq<char>>) -> Seq<Seq<char>> {
    arranged(list, stable_order(text_keys(list)))
}

/// No text comes before itself.
pub proof fn lemma_text_irreflexive(a: Seq<char>)
    ensures
        !text_before(a, a),
    decreases a.len(),
{
    if a.len() > 0 {
        lemma_text_irreflexive(a.skip(1));
    }
}

/// Of two different texts exactly one comes first.
pub proof fn lemma_text_total(a: Seq<char>, b: Seq<char>)
    ensures
        text_before(a, b) ==> !text_before(b, a),
        a != b ==> text_before(a, b) || text_before(b, a),
    decreases a.len(),
{
    if a.len() > 0 && b.len() > 0 {
        lemma_text_total(a.skip(1), b.skip(1));
        if a[0] == b[0] && a.skip(1) == b.skip(1) {
            assert(a =~= seq![a[0]] + a.skip(1));
            assert(b =~= seq![b[0]] + b.skip(1));
        }
    } else if a.len() == 0 && b.len() == 0 {
        assert(a =~= b);
    }
}

/// The order of text is transitive.
pub proof fn lemma_text_transitive(a: Seq<char>, b: Seq<char>, c: Seq<char>)
    requires
        text_before(a, b),
        text_before(b, c),
    ensures
        text_before(a, c),
    decreases a.len(),
{
    if a.len() > 0 && b.len() > 0 && c.len() > 0 && a[0] == b[0] && b[0] == c[0] {
        lemma_text_transitive(a.skip(1), b.skip(1), c.skip(1));
    }
}

proof fn lemma_before_asymmetric(keys: Seq<(int, Seq<char>)>, i: int, j: int)
    requires
        goes_before(keys, i, j),
    ensures
        !goes_before(keys, j, i),
        i != j,
{
    lemma_text_total(keys[i].1, keys[j].1);
    lemma_text_irreflexive(keys[i].1);
}

proof fn lemma_before_transitive(keys: Seq<(int, Seq<char>)>, i: int, j: int, k: int)
    requires
        goes_before(keys, i, j),
        goes_before(keys, j, k),
    ensures
        goes_before(keys, i, k),
{
    if text_before(keys[i].1, keys[j].1) && text_before(keys[j].1, keys[k].1) {
        lemma_text_transitive(keys[i].1, keys[j].1, keys[k].1);
    }
}

/// A stable order names every position.
pub proof fn lemma_order_covers(keys: Seq<(int, Seq<char>)>, p: Seq<int>, i: int)
    requires
        is_stable_order(keys, p),
        0 <= i < keys.len(),
    ensures
        p.contains(i),
{
    let n = keys.len() as int;
    assert(p.no_duplicates()) by {
        assert forall|k: int, l: int| 0 <= k < p.len() && 0 <= l < p.len() && k != l implies p[k] != p[l] by {
            if k < l {
                lemma_before_asymmetric(keys, p[k], p[l]);
            } else {
                lemma_before_asymmetric(keys, p[l], p[k]);
            }
        }
    }
    p.unique_seq_to_set();
    let all = vstd::set_lib::set_int_range(0, n);
    vstd::set_lib::lemma_int_range(0, n);
    assert(p.to_set().subset_of(all));
    vstd::set_lib::lemma_subset_equality(p.to_set(), all);
    assert(all.contains(i));
}

/// There is only one stable order.
pub proof fn lemma_order_unique(keys: Seq<(int, Seq<char>)>, p: Seq<int>, q: Seq<int>)
    requires
        is_stable_order(keys, p),
        is_stable_order(keys, q),
    ensures
        p == q,
{
    assert forall|k: int| 0 <= k < p.len() implies p[k] == q[k] by {
        lemma_order_agrees(keys, p, q, k);
    }
    assert(p =~= q);
}

proof fn lemma_order_agrees(keys: Seq<(int, Seq<char>)>, p: Seq<int>, q: Seq<int>, k: int)
    requires
        is_stable_order(keys, p),
        is_stable_order(keys, q),
        0 <= k < p.len(),
    ensures
        p[k] == q[k],
    decreases k,
{
    assert forall|j: int| 0 <= j < k implies p[j] == q[j] by {
        lemma_order_agrees(keys, p, q, j);
    }
    if p[k] != q[k] {
        lemma_order_covers(keys, q, p[k]);
        lemma_order_covers(keys, p, q[k]);
        let m = choose|m: int| 0 <= m < q.len() && q[m] == p[k];
        let l = choose|l: int| 0 <= l < p.len() && p[l] == q[k];
        if m < k {
            lemma_before_asymmetric(keys, p[m], p[k]);
        }
        if l < k {
            lemma_before_asymmetric(keys, q[l], q[k]);
        }
        assert(goes_before(keys, q[k], q[m]));
        assert(goes_before(keys, p[k], p[l]));
        lemma_before_asymmetric(keys, p[k], q[k]);
    }
}

/// Whether `a` comes before `b`.
fn chars_before(a: &Vec<char>, b: &Vec<char>) -> (r: bool)
    ensures
        r == text_before(a@, b@),
{
    let mut i: usize = 0;
    assert(a@.skip(0) =~= a@);
    assert(b@.skip(0) =~= b@);
    while i < a.len() && i < b.len()
        invariant
            i <= a.len(),
            i <= b.len(),
            text_before(a@, b@) == text_before(a@.skip(i as int), b@.skip(i as int)),
        decreases a.len() - i,
    {
        assert(a@.skip(i as int).skip(1) =~= a@.skip(i + 1));
        assert(b@.skip(i as int).skip(1) =~= b@.skip(i + 1));
        let x: char = a[i];
        let y: char = b[i];
        if x != y {
            proof {
                text::lemma_char_number(x);
                text::lemma_char_number(y);
            }
            return (x as u32) < (y as u32);
        }
        i = i + 1;
    }
    i < b.len()
}

fn key_goes_before(a: &SortKey, b: &SortKey) -> (r: bool)
    ensures
        r == key_before(a@, b@),
{
    a.rank < b.rank || (a.rank == b.rank && chars_before(&a.text, &b.text))
}

/// The keys as values.
pub open spec fn key_views(keys: Seq<SortKey>) -> Seq<(int, Seq<char>)> {
    keys.map_values(|k: SortKey| k@)
}

/// Positions held in machine integers.
pub open spec fn indexes(p: Seq<usize>) -> Seq<int> {
    p.map_values(|i: usize| i as int)
}

/// Merges the runs on both sides of `mid`.
fn merge(
    keys: &Vec<SortKey>,
    left: &Vec<usize>,
    right: &Vec<usize>,
    Ghost(lo): Ghost<int>,
    Ghost(mid): Ghost<int>,
    Ghost(hi): Ghost<int>,
) -> (r: Vec<usize>)
    requires
        0 <= lo <= mid <= hi <= keys.len(),
        is_run(key_views(keys@), indexes(left@), lo, mid),
        is_run(key_views(keys@), indexes(right@), mid, hi),
    ensures
        is_run(key_views(keys@), indexes(r@), lo, hi),
{
    let ghost ks = key_views(keys@);
    let ghost p = indexes(left@);
    let ghost q = indexes(right@);
    let mut r: Vec<usize> = Vec::new();
    let mut i: usize = 0;
    let mut j: usize = 0;
    while i < left.len() || j < right.len()
        invariant
            ks == key_views(keys@),
            p == indexes(left@),
            q == indexes(right@),
            0 <= lo <= mid <= hi <= keys.len(),
            is_run(ks, p, lo, mid),
            is_run(ks, q, mid, hi),
            i <= left.len(),
            j <= right.len(),
            r.len() == i + j,
            forall|k: int| 0 <= k < r.len() ==> lo <= #[trigger] indexes(r@)[k] < hi,
            forall|k: int, l: int|
                0 <= k < l < r.len() ==> goes_before(ks, #[trigger] indexes(r@)[k], #[trigger] indexes(r@)[l]),
            forall|k: int, l: int|
                0 <= k < r.len() && i <= l < left.len() ==> goes_before(ks, #[trigger] indexes(r@)[k], #[trigger] p[l]),
            forall|k: int, l: int|
                0 <= k < r.len() && j <= l < right.len() ==> goes_before(ks, #[trigger] indexes(r@)[k], #[trigger] q[l]),
        decreases left.len() - i + right.len() - j,
    {
        let ghost before = indexes(r@);
        assert(i < left.len() ==> p[i as int] == left@[i as int]);
        assert(j < right.len() ==> q[j as int] == right@[j as int]);
        let take_left: bool = if i == left.len() {
            false
        } else if j == right.len() {
            true
        } else {
            assert(ks[p[i as int]] == keys@[left@[i as int] as int]@);
            assert(ks[q[j as int]] == keys@[right@[j as int] as int]@);
            !key_goes_before(&keys[right[j]], &keys[left[i]])
        };
        if take_left {
            r.push(left[i]);
            proof {
                assert(indexes(r@) =~= before.push(p[i as int]));
                assert forall|l: int| j <= l < right.len() implies goes_before(ks, p[i as int], #[trigger] q[l]) by {
                    lemma_text_total(ks[p[i as int]].1, ks[q[j as int]].1);
                    assert(goes_before(ks, p[i as int], q[j as int]));
                    if l > j {
                        lemma_before_transitive(ks, p[i as int], q[j as int], q[l]);
                    }
                }
            }
            i = i + 1;
        } else {
            r.push(right[j]);
            proof {
                assert(indexes(r@) =~= before.push(q[j as int]));
                assert forall|l: int| i <= l < left.len() implies goes_before(ks, q[j as int], #[trigger] p[l]) by {
                    assert(goes_before(ks, q[j as int], p[i as int]));
                    if l > i {
                        lemma_before_transitive(ks, q[j as int], p[i as int], p[l]);
                    }
                }
            }
            j = j + 1;
        }
    }
    r
}

/// Sorts the positions from `lo` to `hi`.
fn sort_range(keys: &Vec<SortKey>, lo: usize, hi: usize) -> (r: Vec<usize>)
    requires
        lo <= hi <= keys.len(),
    ensures
        is_run(key_views(keys@), indexes(r@), lo as int, hi as int),
    decreases hi - lo,
{
    if hi - lo == 0 {
        return Vec::new();
    }
    if hi - lo == 1 {
        let mut r: Vec<usize> = Vec::new();
        r.push(lo);
        return r;
    }
    let mid: usize = lo + (hi - lo) / 2;
    let left = sort_range(keys, lo, mid);
    let right = sort_range(keys, mid, hi);
    merge(keys, &left, &right, Ghost(lo as int), Ghost(mid as int), Ghost(hi as int))
}

/// The order in which a stable sort puts the items with the given keys.
pub fn sort_order(keys: &Vec<SortKey>) -> (r: Vec<usize>)
    ensures
        indexes(r@) == stable_order(key_views(keys@)),
        is_stable_order(key_views(keys@), indexes(r@)),
{
    let r = sort_range(keys, 0, keys.len());
    proof {
        let ks = key_views(keys@);
        assert(is_stable_order(ks, indexes(r@)));
        lemma_order_unique(ks, indexes(r@), stable_order(ks));
    }
    r
}

/// Where a further position belongs among the first `k` of a run.
proof fn find_place(keys: Seq<(int, Seq<char>)>, p: Seq<int>, m: int, k: int) -> (r: int)
    requires
        is_run(keys, p, 0, m),
        0 <= k <= p.len(),
    ensures
        0 <= r <= k,
        forall|j: int| 0 <= j < r ==> goes_before(keys, #[trigger] p[j], m),
        forall|j: int| r <= j < k ==> goes_before(keys, m, #[trigger] p[j]),
    decreases k,
{
    if k == 0 {
        0
    } else if goes_before(keys, p[k - 1], m) {
        assert forall|j: int| 0 <= j < k implies goes_before(keys, #[trigger] p[j], m) by {
            if j < k - 1 {
                lemma_before_transitive(keys, p[j], p[k - 1], m);
            }
        }
        k
    } else {
        lemma_text_total(keys[p[k - 1]].1, keys[m].1);
        find_place(keys, p, m, k - 1)
    }
}

proof fn lemma_run_exists(keys: Seq<(int, Seq<char>)>, n: int) -> (p: Seq<int>)
    requires
        0 <= n <= keys.len(),
    ensures
        is_run(keys, p, 0, n),
    decreases n,
{
    if n == 0 {
        Seq::empty()
    } else {
        let before = lemma_run_exists(keys, n - 1);
        let r = find_place(keys, before, n - 1, before.len() as int);
        let p = before.insert(r, n - 1);
        assert forall|k: int, l: int| 0 <= k < l < p.len() implies goes_before(
            keys,
            #[trigger] p[k],
            #[trigger] p[l],
        ) by {
            let a = if k < r { k } else { k - 1 };
            let b = if l < r { l } else { l - 1 };
            if k != r && l != r {
                assert(goes_before(keys, before[a], before[b]));
            }
        }
        p
    }
}

/// Every list of keys has its stable order.
pub proof fn law_stable_order(keys: Seq<(int, Seq<char>)>)
    ensures
        is_stable_order(keys, stable_order(keys)),
{
    let p = lemma_run_exists(keys, keys.len() as int);
    assert(is_stable_order(keys, p));
}

/// Sorting loses no text and adds none.
pub proof fn law_sorting_keeps_every_text(list: Seq<Seq<char>>, t: Seq<char>)
    ensures
        sorted_texts(list).len() == list.len(),
        sorted_texts(list).contains(t) <==> list.contains(t),
{
    let keys = text_keys(list);
    let p = stable_order(keys);
    law_stable_order(keys);
    let s = sorted_texts(list);
    if list.contains(t) {
        let i = choose|i: int| 0 <= i < list.len() && list[i] == t;
        lemma_order_covers(keys, p, i);
        let k = choose|k: int| 0 <= k < p.len() && p[k] == i;
        assert(s[k] == t);
    }
    if s.contains(t) {
        let k = choose|k: int| 0 <= k < s.len() && s[k] == t;
        assert(list[p[k]] == t);
    }
}

/// In a sorted list no text comes before one that stands ahead of it.
pub proof fn law_sorted_texts_are_in_order(list: Seq<Seq<char>>, k: int, l: int)
    requires
        0 <= k < l < list.len(),
    ensures
        !text_before(sorted_texts(list)[l], sorted_texts(list)[k]),
{
    let keys = text_keys(list);
    let p = stable_order(keys);
    law_stable_order(keys);
    assert(goes_before(keys, p[k], p[l]));
    lemma_text_total(list[p[k]], list[p[l]]);
    lemma_text_irreflexive(list[p[k]]);
}

/// The texts of `list`, sorted.
pub fn sort_texts(list: &Vec<String>) -> (r: Vec<String>)
    ensures
        text::texts(r@) == sorted_texts(text::texts(list@)),
{
    let mut keys: Vec<SortKey> = Vec::new();
    let ghost all = text::texts(list@);
    for i in 0..list.len()
        invariant
            all == text::texts(list@),
            key_views(keys@) == text_keys(all).take(i as int),
    {
        let ghost before = keys@;
        keys.push(SortKey { rank: 0, text: chars_of(list[i].as_str()) });
        assert(all[i as int] == list@[i as int]@);
        assert(key_views(keys@) =~= key_views(before).push((0int, all[i as int])));
        assert(text_keys(all).take(i + 1) =~= text_keys(all).take(i as int).push(text_keys(all)[i as int]));
    }
    assert(text_keys(all).take(list@.len() as int) =~= text_keys(all));
    let order = sort_order(&keys);
    let ghost p = stable_order(text_keys(all));
    let mut r: Vec<String> = Vec::new();
    for i in 0..order.len()
        invariant
            all == text::texts(list@),
            p == indexes(order@),
            is_stable_order(text_keys(all), p),
            text::texts(r@) == arranged(all, p).take(i as int),
    {
        let ghost before = r@;
        assert(p[i as int] == order@[i as int]);
        r.push(list[order[i]].clone());
        assert(all[p[i as int]] == list@[p[i as int]]@);
        assert(text::texts(r@) =~= text::texts(before).push(arranged(all, p)[i as int]));
        assert(arranged(all, p).take(i + 1) =~= arranged(all, p).take(i as int).push(arranged(all, p)[i as int]));
    }
    assert(p.len() == order@.len());
    assert(arranged(all, p).take(order@.len() as int) =~= arranged(all, p));
    r
}

/// Whether each of `0..n` occurs once.
pub open spec fn is_permutation(p: Seq<int>, n: int) -> bool {
    &&& p.len() == n
    &&& p.no_duplicates()
    &&& forall|k: int| 0 <= k < p.len() ==> 0 <= #[trigger] p[k] < n
    &&& forall|i: int| 0 <= i < n ==> #[trigger] p.contains(i)
}

proof fn lemma_arranged_multiset<T>(items: Seq<T>, p: Seq<int>)
    requires
        is_permutation(p, items.len() as int),
    ensures
        arranged(items, p).to_multiset() == items.to_multiset(),
    decreases items.len(),
{
    let n = items.len() as int;
    if n == 0 {
        assert(arranged(items, p) =~= items);
    } else {
        let init = items.drop_last();
        assert(p.contains(n - 1));
        let k = choose|k: int| 0 <= k < p.len() && p[k] == n - 1;
        let q = p.remove(k);
        assert(q.no_duplicates()) by {
            assert forall|a: int, b: int| 0 <= a < q.len() && 0 <= b < q.len() && a != b implies q[a] != q[b] by {
                let x = if a < k { a } else { a + 1 };
                let y = if b < k { b } else { b + 1 };
                assert(q[a] == p[x] && q[b] == p[y]);
            }
        }
        assert forall|a: int| 0 <= a < q.len() implies 0 <= #[trigger] q[a] < n - 1 by {
            let x = if a < k { a } else { a + 1 };
            assert(q[a] == p[x]);
            assert(p[x] != p[k]);
        }
        assert forall|i: int| 0 <= i < n - 1 implies #[trigger] q.contains(i) by {
            assert(p.contains(i));
            let x = choose|x: int| 0 <= x < p.len() && p[x] == i;
            let a = if x < k { x } else { x - 1 };
            assert(q[a] == i);
        }
        lemma_arranged_multiset(init, q);
        let all = arranged(items, p);
        assert(all.remove(k) =~= arranged(init, q)) by {
            assert forall|a: int| 0 <= a < q.len() implies #[trigger] all.remove(k)[a] == arranged(init, q)[a] by {
                let x = if a < k { a } else { a + 1 };
                assert(q[a] == p[x]);
            }
        }
        all.to_multiset_ensures();
        items.to_multiset_ensures();
        init.to_multiset_ensures();
        assert(items =~= init.push(items.last()));
        assert(all.remove(k).to_multiset() =~= all.to_multiset().remove(all[k]));
        assert(all[k] == items.last());
        assert(all.contains(all[k]));
        assert(all.to_multiset().count(all[k]) > 0);
        assert(all.to_multiset() =~= items.to_multiset());
    }
}

/// Sorting texts rearranges them.
pub proof fn law_sorting_rearranges(list: Seq<Seq<char>>)
    ensures
        sorted_texts(list).to_multiset() == list.to_multiset(),
{
    let keys = text_keys(list);
    let p = stable_order(keys);
    law_stable_order(keys);
    assert forall|i: int| 0 <= i < list.len() implies #[trigger] p.contains(i) by {
        lemma_order_covers(keys, p, i);
    }
    assert(p.no_duplicates()) by {
        assert forall|k: int, l: int| 0 <= k < p.len() && 0 <= l < p.len() && k != l implies p[k] != p[l] by {
            if k < l {
                lemma_before_asymmetric(keys, p[k], p[l]);
            } else {
                lemma_before_asymmetric(keys, p[l], p[k]);
            }
        }
    }
    lemma_arranged_multiset(list, p);
}

/// Lists of the same texts are sorted alike, whatever order they came in.
pub proof fn law_sorting_forgets_the_order(a: Seq<Seq<char>>, b: Seq<Seq<char>>)
    requires
        a.to_multiset() == b.to_multiset(),
    ensures
        sorted_texts(a) == sorted_texts(b),
{
    let x = sorted_texts(a);
    let y = sorted_texts(b);
    let leq = |s: Seq<char>, t: Seq<char>| !text_before(t, s);
    law_sorting_rearranges(a);
    law_sorting_rearranges(b);
    law_sorting_keeps_every_text(a, Seq::empty());
    law_sorting_keeps_every_text(b, Seq::empty());
    assert(vstd::relations::sorted_by(x, leq)) by {
        assert forall|k: int, l: int| 0 <= k < l < x.len() implies #[trigger] leq(x[k], x[l]) by {
            law_sorted_texts_are_in_order(a, k, l);
        }
    }
    assert(vstd::relations::sorted_by(y, leq)) by {
        assert forall|k: int, l: int| 0 <= k < l < y.len() implies #[trigger] leq(y[k], y[l]) by {
            law_sorted_texts_are_in_order(b, k, l);
        }
    }
    assert(vstd::relations::total_ordering(leq)) by {
        assert forall|s: Seq<char>| #[trigger] leq(s, s) by {
            lemma_text_irreflexive(s);
        }
        assert forall|s: Seq<char>, t: Seq<char>| #[trigger] leq(s, t) && #[trigger] leq(t, s) implies s == t by {
            lemma_text_total(s, t);
        }
        assert forall|s: Seq<char>, t: Seq<char>, u: Seq<char>| #[trigger]
            leq(s, t) && #[trigger] leq(t, u) implies leq(s, u) by {
            lemma_text_total(s, t);
            lemma_text_total(t, u);
            lemma_text_total(s, u);
            if text_before(u, s) {
                if s != t && t != u {
                    lemma_text_transitive(s, t, u);
                }
            }
        }
        assert forall|s: Seq<char>, t: Seq<char>| #[trigger] leq(s, t) || #[trigger] leq(t, s) by {
            lemma_text_total(s, t);
        }
    }
    vstd::seq_lib::lemma_sorted_unique(x, y, leq);
}

/// A text comes before another if it is a proper beginning of it, or if the first character
/// in which they differ is the smaller one.
pub proof fn law_texts_are_ordered_by_their_characters(a: Seq<char>, b: Seq<char>)
    ensures
        text_before(a, b) <==> exists|k: int|
            0 <= k < b.len() && k <= a.len() && #[trigger] a.take(k) == b.take(k) && (k == a.len() || (a[k] as int) < (
            b[k] as int)),
    decreases a.len(),
{
    if text_before(a, b) {
        if a.len() == 0 || a[0] != b[0] {
            assert(a.take(0) =~= b.take(0));
        } else {
            let x = a.skip(1);
            let y = b.skip(1);
            law_texts_are_ordered_by_their_characters(x, y);
            let k = choose|k: int|
                0 <= k < y.len() && k <= x.len() && #[trigger] x.take(k) == y.take(k) && (k == x.len() || (x[k] as int)
                    < (y[k] as int));
            assert(a.take(k + 1) =~= b.take(k + 1)) by {
                assert forall|i: int| 0 <= i < k + 1 implies #[trigger] a[i] == b[i] by {
                    if i > 0 {
                        assert(x.take(k)[i - 1] == y.take(k)[i - 1]);
                    }
                }
            }
        }
    }
    if exists|k: int|
        0 <= k < b.len() && k <= a.len() && #[trigger] a.take(k) == b.take(k) && (k == a.len() || (a[k] as int) < (
        b[k] as int)) {
        let k = choose|k: int|
            0 <= k < b.len() && k <= a.len() && #[trigger] a.take(k) == b.take(k) && (k == a.len() || (a[k] as int) < (
            b[k] as int));
        if k > 0 {
            let x = a.skip(1);
            let y = b.skip(1);
            assert(a.take(k)[0] == b.take(k)[0]);
            law_texts_are_ordered_by_their_characters(x, y);
            assert(x.take(k - 1) =~= y.take(k - 1)) by {
                assert forall|i: int| 0 <= i < k - 1 implies #[trigger] x[i] == y[i] by {
                    assert(a.take(k)[i + 1] == b.take(k)[i + 1]);
                }
            }
        }
    }
}

/// A stable order names every position once, goes by the rank and then by the text, and
/// leaves positions with equal keys in their order.
pub proof fn law_a_stable_order_sorts(keys: Seq<(int, Seq<char>)>)
    ensures
        ({
            let p = stable_order(keys);
            &&& p.len() == keys.len()
            &&& p.no_duplicates()
            &&& forall|i: int| 0 <= i < keys.len() ==> #[trigger] p.contains(i)
            &&& forall|k: int| 0 <= k < p.len() ==> 0 <= #[trigger] p[k] < keys.len()
            &&& forall|k: int, l: int|
                0 <= k < l < p.len() ==> {
                    let x = keys[#[trigger] p[k]];
                    let y = keys[#[trigger] p[l]];
                    x.0 < y.0 || (x.0 == y.0 && text_before(x.1, y.1)) || (x == y && p[k] < p[l])
                }
        }),
{
    let p = stable_order(keys);
    law_stable_order(keys);
    assert forall|i: int| 0 <= i < keys.len() implies #[trigger] p.contains(i) by {
        lemma_order_covers(keys, p, i);
    }
    assert forall|k: int, l: int| 0 <= k < p.len() && 0 <= l < p.len() && k != l implies p[k] != p[l] by {
        if k < l {
            lemma_before_asymmetric(keys, p[k], p[l]);
        } else {
            lemma_before_asymmetric(keys, p[l], p[k]);
        }
    }
    assert forall|k: int, l: int| 0 <= k < l < p.len() implies {
        let x = keys[#[trigger] p[k]];
        let y = keys[#[trigger] p[l]];
        x.0 < y.0 || (x.0 == y.0 && text_before(x.1, y.1)) || (x == y && p[k] < p[l])
    } by {
        assert(goes_before(keys, p[k], p[l]));
    }
}

/// Items are arranged by their positions.
pub proof fn law_items_are_arranged_by_position<T>(items: Seq<T>, p: Seq<int>)
    ensures
        arranged(items, p).len() == p.len(),
        forall|k: int| 0 <= k < p.len() ==> #[trigger] arranged(items, p)[k] == items[p[k]],
{
}

} // verus!
