//! Operations on text, stated over sequences of characters.

use vstd::prelude::*;
use vstd::string::*;

verus! {

/// The characters of each string of a list.
pub open spec fn texts(list: Seq<String>) -> Seq<Seq<char>> {
    list.map_values(|s: String| s@)
}

/// The characters of `s`, one element each.
pub fn chars_of(s: &str) -> (r: Vec<char>)
    ensures
        r@ == s@,
{
    let mut r: Vec<char> = Vec::new();
    for c in it: s.chars()
        invariant
            it.seq() == s@,
            r@ == s@.take(it.index()),
    {
        assert(s@.take(it.index() + 1) =~= s@.take(it.index()).push(c));
        r.push(c);
    }
    assert(s@.take(s@.len() as int) =~= s@);
    r
}

/// Whether `list` holds `s`.
pub fn has_text(list: &Vec<String>, s: &String) -> (r: bool)
    ensures
        r == texts(list@).contains(s@),
{
    for i in 0..list.len()
        invariant
            forall|j: int| 0 <= j < i ==> texts(list@)[j] != s@,
    {
        assert(texts(list@)[i as int] == list@[i as int]@);
        if list[i] == *s {
            return true;
        }
    }
    false
}

/// The texts of a list in one, with `sep` between any two.
pub open spec fn joined(list: Seq<Seq<char>>, sep: Seq<char>) -> Seq<char>
    decreases list.len(),
{
    if list.len() == 0 {
        Seq::empty()
    } else if list.len() == 1 {
        list[0]
    } else {
        joined(list.drop_last(), sep) + sep + list.last()
    }
}

/// The strings of `list` in one, with `sep` between any two.
pub fn join_texts(list: &Vec<String>, sep: &str) -> (r: String)
    ensures
        r@ == joined(texts(list@), sep@),
{
    let mut r = String::new();
    let ghost all = texts(list@);
    assert(all.take(0) =~= Seq::empty());
    for i in 0..list.len()
        invariant
            all == texts(list@),
            r@ == joined(all.take(i as int), sep@),
    {
        proof {
            assert(all.take(i + 1).drop_last() =~= all.take(i as int));
            assert(all.take(i + 1).last() == list@[i as int]@);
        }
        if i > 0 {
            r.append(sep);
        } else {
            assert(r@ + list@[i as int]@ =~= list@[i as int]@);
        }
        r.append(list[i].as_str());
    }
    assert(all.take(list@.len() as int) =~= all);
    r
}

/// A text without the run of `c` at its end.
pub open spec fn without_trailing(t: Seq<char>, c: char) -> Seq<char>
    decreases t.len(),
{
    if t.len() > 0 && t.last() == c {
        without_trailing(t.drop_last(), c)
    } else {
        t
    }
}

/// `s` without the run of `c` at its end.
pub fn trim_trailing<'a>(s: &'a str, c: char) -> (r: &'a str)
    ensures
        r@ == without_trailing(s@, c),
{
    let t = chars_of(s);
    let mut n: usize = t.len();
    assert(t@.take(n as int) =~= t@);
    while n > 0 && t[n - 1] == c
        invariant
            n <= t.len(),
            t@ == s@,
            without_trailing(s@, c) == without_trailing(s@.take(n as int), c),
        decreases n,
    {
        assert(s@.take(n as int).drop_last() =~= s@.take(n - 1));
        n = n - 1;
    }
    let r = s.substring_char(0, n);
    assert(r@ =~= s@.take(n as int));
    r
}

/// A text without its last character, where that is `c`.
pub open spec fn without_last(t: Seq<char>, c: char) -> Seq<char> {
    if t.len() > 0 && t.last() == c {
        t.drop_last()
    } else {
        t
    }
}

/// `s` without its last character, where that is `c`.
pub fn trim_last<'a>(s: &'a str, c: char) -> (r: &'a str)
    ensures
        r@ == without_last(s@, c),
{
    let n: usize = s.unicode_len();
    if n > 0 && s.get_char(n - 1) == c {
        s.substring_char(0, n - 1)
    } else {
        s
    }
}

/// Whether a line that ends with `last` is over before `next`: after a newline, and after a
/// carriage return with no newline behind it.
pub open spec fn is_break(last: char, next: char) -> bool {
    last == '\n' || (last == '\r' && next != '\n')
}

/// The lines of a text, each with its terminator.
pub open spec fn lines_of(t: Seq<char>) -> Seq<Seq<char>>
    decreases t.len(),
{
    if t.len() == 0 {
        Seq::empty()
    } else {
        let before = lines_of(t.drop_last());
        if before.len() == 0 || is_break(before.last().last(), t.last()) {
            before.push(seq![t.last()])
        } else {
            before.drop_last().push(before.last().push(t.last()))
        }
    }
}

/// The texts of a list, one behind the other.
pub open spec fn concatenated(list: Seq<Seq<char>>) -> Seq<char>
    decreases list.len(),
{
    if list.len() == 0 {
        Seq::empty()
    } else {
        concatenated(list.drop_last()) + list.last()
    }
}

/// A text that is not empty and has a newline at most at its end.
pub open spec fn is_line(t: Seq<char>) -> bool {
    &&& t.len() > 0
    &&& forall|i: int| 0 <= i < t.len() - 1 ==> #[trigger] t[i] != '\n'
}

/// The lines of a text make up the text, and each of them is a line.
pub proof fn law_lines_make_up_the_text(t: Seq<char>)
    ensures
        concatenated(lines_of(t)) == t,
        forall|i: int| 0 <= i < lines_of(t).len() ==> is_line(#[trigger] lines_of(t)[i]),
        lines_of(t).len() <= t.len(),
        t.len() > 0 ==> lines_of(t).len() > 0 && lines_of(t).last().last() == t.last(),
    decreases t.len(),
{
    if t.len() == 0 {
        assert(concatenated(lines_of(t)) =~= t);
    } else {
        let init = t.drop_last();
        law_lines_make_up_the_text(init);
        let before = lines_of(init);
        let now = lines_of(t);
        assert(t =~= init.push(t.last()));
        if before.len() == 0 || is_break(before.last().last(), t.last()) {
            assert(now.drop_last() =~= before);
            assert(concatenated(now) =~= t);
        } else {
            assert(now.drop_last() =~= before.drop_last());
            assert(is_line(before[before.len() - 1]));
            assert(concatenated(before) == concatenated(before.drop_last()) + before.last());
            assert(concatenated(now) =~= t);
        }
        assert forall|i: int| 0 <= i < now.len() implies is_line(#[trigger] now[i]) by {
            if i < now.len() - 1 {
                assert(now[i] == before[i]);
            } else if before.len() > 0 && !is_break(before.last().last(), t.last()) {
                let line = before.last();
                assert(now[i] == line.push(t.last()));
                assert forall|j: int| 0 <= j < now[i].len() - 1 implies #[trigger] now[i][j] != '\n' by {
                    assert(now[i][j] == line[j]);
                    assert(is_line(before[before.len() - 1]));
                }
            }
        }
    }
}

/// Whether `s` holds `c`.
pub fn has_char(s: &str, c: char) -> (r: bool)
    ensures
        r == s@.contains(c),
{
    let t = chars_of(s);
    for i in 0..t.len()
        invariant
            t@ == s@,
            forall|j: int| 0 <= j < i ==> s@[j] != c,
    {
        if t[i] == c {
            assert(s@[i as int] == c);
            return true;
        }
    }
    false
}

/// The lines of `s`, each with its terminator.
pub fn split_lines(s: &str) -> (r: Vec<String>)
    ensures
        texts(r@) == lines_of(s@),
{
    let t = chars_of(s);
    let mut r: Vec<String> = Vec::new();
    let mut start: usize = 0;
    for i in 0..t.len()
        invariant
            t@ == s@,
            start <= i,
            i == 0 ==> texts(r@) == Seq::<Seq<char>>::empty(),
            i > 0 ==> start < i && lines_of(s@.take(i as int)) == texts(r@).push(s@.subrange(start as int, i as int)),
    {
        let ghost before = r@;
        let ghost line = s@.subrange(start as int, i as int);
        proof {
            assert(s@.take(i + 1).drop_last() =~= s@.take(i as int));
            assert(s@.take(i + 1).last() == s@[i as int]);
            assert(s@.take(0) =~= Seq::empty());
            if i > 0 {
                assert(line.last() == s@[i - 1]);
                assert(texts(before).push(line).drop_last() =~= texts(before));
                assert(line.push(s@[i as int]) =~= s@.subrange(start as int, i + 1));
            }
            assert(seq![s@[i as int]] =~= s@.subrange(i as int, i + 1));
        }
        if i > 0 && (t[i - 1] == '\n' || (t[i - 1] == '\r' && t[i] != '\n')) {
            r.push(s.substring_char(start, i).to_owned());
            start = i;
            assert(texts(r@) =~= texts(before).push(line));
        }
        proof {
            let now = lines_of(s@.take(i + 1));
            if i == 0 {
                assert(lines_of(Seq::<char>::empty()) =~= Seq::empty());
                assert(now =~= Seq::<Seq<char>>::empty().push(seq![s@[0]]));
                assert(now =~= texts(r@).push(s@.subrange(start as int, i + 1)));
            } else if is_break(s@[i - 1], s@[i as int]) {
                assert(now == texts(before).push(line).push(seq![s@[i as int]]));
            } else {
                assert(now == texts(before).push(line.push(s@[i as int])));
            }
        }
    }
    assert(s@.take(t@.len() as int) =~= s@);
    if t.len() > 0 {
        let ghost before = r@;
        r.push(s.substring_char(start, t.len()).to_owned());
        assert(texts(r@) =~= texts(before).push(s@.subrange(start as int, s@.len() as int)));
    }
    r
}

/// The characters with the Unicode property White_Space.
pub open spec fn is_white_space(c: char) -> bool {
    let n = c as int;
    ||| 0x9 <= n <= 0xd
    ||| n == 0x20
    ||| n == 0x85
    ||| n == 0xa0
    ||| n == 0x1680
    ||| 0x2000 <= n <= 0x200a
    ||| n == 0x2028
    ||| n == 0x2029
    ||| n == 0x202f
    ||| n == 0x205f
    ||| n == 0x3000
}

/// A text without the white space around it.
pub open spec fn trimmed(t: Seq<char>) -> Seq<char>
    decreases t.len(),
{
    if t.len() == 0 {
        t
    } else if is_white_space(t[0]) {
        trimmed(t.skip(1))
    } else if is_white_space(t.last()) {
        trimmed(t.drop_last())
    } else {
        t
    }
}

/// The number of a character fits in 32 bits.
pub proof fn lemma_char_number(c: char)
    ensures
        (c as u32) as int == c as int,
{
}

/// Whether `c` is white space.
pub fn is_space(c: char) -> (r: bool)
    ensures
        r == is_white_space(c),
{
    proof {
        lemma_char_number(c);
    }
    let n: u32 = c as u32;
    (0x9 <= n && n <= 0xd) || n == 0x20 || n == 0x85 || n == 0xa0 || n == 0x1680 || (0x2000 <= n && n <= 0x200a) || n
        == 0x2028 || n == 0x2029 || n == 0x202f || n == 0x205f || n == 0x3000
}

/// `s` without the white space around it.
pub fn trim<'a>(s: &'a str) -> (r: &'a str)
    ensures
        r@ == trimmed(s@),
{
    let t = chars_of(s);
    let mut lo: usize = 0;
    let mut hi: usize = t.len();
    assert(t@.subrange(0, hi as int) =~= t@);
    while lo < hi && is_space(t[lo])
        invariant
            lo <= hi == t.len(),
            t@ == s@,
            trimmed(s@) == trimmed(s@.subrange(lo as int, hi as int)),
        decreases hi - lo,
    {
        assert(s@.subrange(lo as int, hi as int).skip(1) =~= s@.subrange(lo + 1, hi as int));
        lo = lo + 1;
    }
    while lo < hi && is_space(t[hi - 1])
        invariant
            lo <= hi <= t.len(),
            t@ == s@,
            lo < hi ==> !is_white_space(s@[lo as int]),
            trimmed(s@) == trimmed(s@.subrange(lo as int, hi as int)),
        decreases hi - lo,
    {
        assert(s@.subrange(lo as int, hi as int).drop_last() =~= s@.subrange(lo as int, hi - 1));
        hi = hi - 1;
    }
    let ghost rest = s@.subrange(lo as int, hi as int);
    assert(trimmed(rest) == rest) by {
        if lo < hi {
            assert(rest[0] == s@[lo as int]);
            assert(rest.last() == s@[hi - 1]);
        }
    }
    s.substring_char(lo, hi)
}

/// A text with each `c` replaced by `by`.
pub open spec fn replaced(t: Seq<char>, c: char, by: Seq<char>) -> Seq<char>
    decreases t.len(),
{
    if t.len() == 0 {
        t
    } else {
        replaced(t.drop_last(), c, by) + if t.last() == c {
            by
        } else {
            seq![t.last()]
        }
    }
}

/// `s` with each `c` replaced by `by`.
pub fn replace_char(s: &str, c: char, by: &str) -> (r: String)
    ensures
        r@ == replaced(s@, c, by@),
{
    let t = chars_of(s);
    let mut r = String::new();
    assert(s@.take(0) =~= Seq::empty());
    for i in 0..t.len()
        invariant
            t@ == s@,
            r@ == replaced(s@.take(i as int), c, by@),
    {
        assert(s@.take(i + 1).drop_last() =~= s@.take(i as int));
        assert(s@.take(i + 1).last() == s@[i as int]);
        if t[i] == c {
            r.append(by);
        } else {
            let one = s.substring_char(i, i + 1);
            assert(one@ =~= seq![s@[i as int]]);
            r.append(one);
        }
    }
    assert(s@.take(s@.len() as int) =~= s@);
    r
}

/// The different texts of a list, in the order in which each first occurs.
pub open spec fn distinct(list: Seq<Seq<char>>) -> Seq<Seq<char>>
    decreases list.len(),
{
    if list.len() == 0 {
        list
    } else {
        let before = distinct(list.drop_last());
        if before.contains(list.last()) {
            before
        } else {
            before.push(list.last())
        }
    }
}

/// There are no more different texts than texts.
pub proof fn lemma_distinct_is_shorter(list: Seq<Seq<char>>)
    ensures
        distinct(list).len() <= list.len(),
    decreases list.len(),
{
    if list.len() > 0 {
        lemma_distinct_is_shorter(list.drop_last());
    }
}

/// The different strings of `list`, in the order in which each first occurs.
pub fn distinct_texts(list: &Vec<String>) -> (r: Vec<String>)
    ensures
        texts(r@) == distinct(texts(list@)),
{
    let mut r: Vec<String> = Vec::new();
    let ghost all = texts(list@);
    assert(all.take(0) =~= Seq::empty());
    assert(texts(r@) =~= Seq::empty());
    for i in 0..list.len()
        invariant
            all == texts(list@),
            texts(r@) == distinct(all.take(i as int)),
    {
        let ghost before = r@;
        assert(all.take(i + 1).drop_last() =~= all.take(i as int));
        assert(all.take(i + 1).last() == list@[i as int]@);
        if !has_text(&r, &list[i]) {
            r.push(list[i].clone());
            assert(texts(r@) =~= texts(before).push(list@[i as int]@));
        }
    }
    assert(all.take(list@.len() as int) =~= all);
    r
}

/// A copy of a list of strings.
pub fn copy_texts(list: &Vec<String>) -> (r: Vec<String>)
    ensures
        texts(r@) == texts(list@),
{
    let mut r: Vec<String> = Vec::new();
    for i in 0..list.len()
        invariant
            texts(r@) == texts(list@).take(i as int),
    {
        let ghost before = r@;
        r.push(list[i].clone());
        assert(texts(r@) =~= texts(before).push(texts(list@)[i as int]));
        assert(texts(list@).take(i + 1) =~= texts(list@).take(i as int).push(texts(list@)[i as int]));
    }
    assert(texts(list@).take(list@.len() as int) =~= texts(list@));
    r
}

/// A list of one string.
pub fn one_text(s: String) -> (r: Vec<String>)
    ensures
        texts(r@) == seq![s@],
{
    let mut r: Vec<String> = Vec::new();
    r.push(s);
    assert(texts(r@) =~= seq![s@]);
    r
}

/// Joining nothing gives nothing, joining one text that text, and lists can be joined in
/// parts: with the separator between them.
pub proof fn law_joining_in_parts(a: Seq<Seq<char>>, b: Seq<Seq<char>>, x: Seq<char>, sep: Seq<char>)
    ensures
        joined(Seq::empty(), sep) == Seq::<char>::empty(),
        joined(seq![x], sep) == x,
        a.len() > 0 && b.len() > 0 ==> joined(a + b, sep) == joined(a, sep) + sep + joined(b, sep),
    decreases b.len(),
{
    if a.len() > 0 && b.len() > 0 {
        let init = b.drop_last();
        assert((a + b).drop_last() =~= a + init);
        assert((a + b).last() == b.last());
        if b.len() == 1 {
            assert(a + init =~= a);
            assert(joined(b, sep) == b[0]);
        } else {
            law_joining_in_parts(a, init, x, sep);
            assert(joined(a + b, sep) =~= joined(a, sep) + sep + joined(b, sep));
        }
    }
}

/// The end that is cut off a text consists of one character alone, and all of it is cut off.
pub proof fn law_the_whole_end_is_cut_off(t: Seq<char>, c: char)
    ensures
        ({
            let n = without_trailing(t, c).len() as int;
            &&& n <= t.len()
            &&& without_trailing(t, c) == t.take(n)
            &&& forall|i: int| n <= i < t.len() ==> #[trigger] t[i] == c
            &&& n > 0 ==> t[n - 1] != c
        }),
    decreases t.len(),
{
    let n = without_trailing(t, c).len() as int;
    if t.len() > 0 && t.last() == c {
        law_the_whole_end_is_cut_off(t.drop_last(), c);
        assert(t.drop_last().take(n) =~= t.take(n));
        assert forall|i: int| n <= i < t.len() implies #[trigger] t[i] == c by {
            if i < t.len() - 1 {
                assert(t.drop_last()[i] == t[i]);
            }
        }
    } else {
        assert(t.take(n) =~= t);
    }
}

/// One character at most is taken off the end of a text, and only the one that is meant.
pub proof fn law_one_last_character_is_taken_off(t: Seq<char>, c: char, d: char)
    ensures
        without_last(t.push(c), c) == t,
        d != c ==> without_last(t.push(d), c) == t.push(d),
        without_last(Seq::empty(), c) == Seq::<char>::empty(),
{
    assert(t.push(c).drop_last() =~= t);
}

/// What is trimmed off a text on both sides is white space, and what is left neither begins
/// nor ends with white space.
pub proof fn law_trimming_takes_white_space_off(t: Seq<char>)
    ensures
        exists|i: int, j: int|
            0 <= i <= j <= t.len() && trimmed(t) == #[trigger] t.subrange(i, j) && (forall|k: int|
                0 <= k < i || j <= k < t.len() ==> is_white_space(#[trigger] t[k])) && (i < j ==> !is_white_space(t[i])
                && !is_white_space(t[j - 1])),
{
    let (i, j) = lemma_trim_range(t);
    assert(trimmed(t) == t.subrange(i, j));
}

/// Whether just white space lies outside `i` and `j`, and none right inside.
spec fn is_trim_range(t: Seq<char>, i: int, j: int) -> bool {
    &&& 0 <= i <= j <= t.len()
    &&& forall|k: int| 0 <= k < i || j <= k < t.len() ==> is_white_space(#[trigger] t[k])
    &&& i < j ==> !is_white_space(t[i]) && !is_white_space(t[j - 1])
}

proof fn lemma_trim_front(t: Seq<char>, i: int, j: int)
    requires
        t.len() > 0,
        is_white_space(t[0]),
        is_trim_range(t.skip(1), i, j),
    ensures
        is_trim_range(t, i + 1, j + 1),
        t.skip(1).subrange(i, j) == t.subrange(i + 1, j + 1),
{
    let rest = t.skip(1);
    assert(rest.subrange(i, j) =~= t.subrange(i + 1, j + 1));
    assert forall|k: int| 0 <= k < i + 1 || j + 1 <= k < t.len() implies is_white_space(#[trigger] t[k]) by {
        if k > 0 {
            assert(is_white_space(rest[k - 1]));
            assert(rest[k - 1] == t[k]);
        }
    }
    if i < j {
        assert(rest[i] == t[i + 1] && rest[j - 1] == t[j]);
    }
}

proof fn lemma_trim_back(t: Seq<char>, i: int, j: int)
    requires
        t.len() > 0,
        is_white_space(t.last()),
        is_trim_range(t.drop_last(), i, j),
    ensures
        is_trim_range(t, i, j),
        t.drop_last().subrange(i, j) == t.subrange(i, j),
{
    let rest = t.drop_last();
    assert(rest.subrange(i, j) =~= t.subrange(i, j));
    assert forall|k: int| 0 <= k < i || j <= k < t.len() implies is_white_space(#[trigger] t[k]) by {
        if k < t.len() - 1 {
            assert(is_white_space(rest[k]));
            assert(rest[k] == t[k]);
        } else {
            assert(t[k] == t.last());
        }
    }
    if i < j {
        assert(rest[i] == t[i] && rest[j - 1] == t[j - 1]);
    }
}

proof fn lemma_trim_range(t: Seq<char>) -> (r: (int, int))
    ensures
        is_trim_range(t, r.0, r.1),
        trimmed(t) == t.subrange(r.0, r.1),
    decreases t.len(),
{
    if t.len() == 0 {
        assert(t.subrange(0, 0) =~= t);
        (0, 0)
    } else if is_white_space(t[0]) {
        let (i, j) = lemma_trim_range(t.skip(1));
        lemma_trim_front(t, i, j);
        (i + 1, j + 1)
    } else if is_white_space(t.last()) {
        let (i, j) = lemma_trim_range(t.drop_last());
        lemma_trim_back(t, i, j);
        (i, j)
    } else {
        assert(t.subrange(0, t.len() as int) =~= t);
        assert(t[t.len() - 1] == t.last());
        (0, t.len() as int)
    }
}

/// Among the first 128 characters the white space is the blank and the five controls from
/// the tabulator to the carriage return.
pub proof fn law_ascii_white_space(c: char)
    requires
        (c as int) < 0x80,
    ensures
        is_white_space(c) <==> c == ' ' || '\t' <= c <= '\r',
{
}

/// A text can be replaced in parts, and of a single character all or nothing is replaced.
pub proof fn law_replacing_in_parts(a: Seq<char>, b: Seq<char>, d: char, c: char, by: Seq<char>)
    ensures
        replaced(Seq::empty(), c, by) == Seq::<char>::empty(),
        replaced(seq![d], c, by) == if d == c {
            by
        } else {
            seq![d]
        },
        replaced(a + b, c, by) == replaced(a, c, by) + replaced(b, c, by),
    decreases b.len(),
{
    assert(seq![d].drop_last() =~= Seq::empty());
    assert(replaced(Seq::empty(), c, by) =~= Seq::<char>::empty());
    assert(replaced(seq![d], c, by) =~= if d == c {
        by
    } else {
        seq![d]
    });
    if b.len() == 0 {
        assert(a + b =~= a);
        assert(replaced(a, c, by) + replaced(b, c, by) =~= replaced(a, c, by));
    } else {
        law_replacing_in_parts(a, b.drop_last(), d, c, by);
        assert((a + b).drop_last() =~= a + b.drop_last());
        assert((a + b).last() == b.last());
        assert(replaced(a + b, c, by) =~= replaced(a, c, by) + replaced(b, c, by));
    }
}

/// The different texts of a list are just its texts, each once, and those of a longer list
/// begin with those of the shorter one: each stands where it first occurs.
pub proof fn law_different_texts(list: Seq<Seq<char>>, n: int)
    requires
        0 <= n <= list.len(),
    ensures
        distinct(list).no_duplicates(),
        forall|t: Seq<char>| #[trigger] distinct(list).contains(t) <==> list.contains(t),
        distinct(list.take(n)).is_prefix_of(distinct(list)),
    decreases list.len(),
{
    if list.len() == 0 {
        assert(list.take(n) =~= list);
    } else {
        let init = list.drop_last();
        let before = distinct(init);
        let now = distinct(list);
        law_different_texts(init, if n < list.len() { n } else { 0 });
        if n < list.len() {
            assert(init.take(n) =~= list.take(n));
        } else {
            assert(list.take(n) =~= list);
        }
        assert(list[list.len() - 1] == list.last());
        assert forall|t: Seq<char>| #[trigger] now.contains(t) <==> list.contains(t) by {
            if list.contains(t) {
                let i = choose|i: int| 0 <= i < list.len() && list[i] == t;
                if i < init.len() {
                    assert(init[i] == t);
                    assert(before.contains(t));
                }
                if before.contains(t) {
                    let k = choose|k: int| 0 <= k < before.len() && before[k] == t;
                    assert(now[k] == t);
                } else {
                    assert(now[before.len() as int] == t);
                }
            }
            if now.contains(t) {
                let k = choose|k: int| 0 <= k < now.len() && now[k] == t;
                if k < before.len() {
                    assert(before[k] == t);
                    assert(before.contains(t));
                    let i = choose|i: int| 0 <= i < init.len() && init[i] == t;
                    assert(list[i] == t);
                }
            }
        }
        if !before.contains(list.last()) {
            assert forall|i: int, j: int| 0 <= i < now.len() && 0 <= j < now.len() && i != j implies now[i]
                != now[j] by {
                if i < before.len() && j == before.len() {
                    assert(before[i] == now[i]);
                }
                if j < before.len() && i == before.len() {
                    assert(before[j] == now[j]);
                }
            }
        }
    }
}

/// A line ends where the next one begins: at a newline, or at a carriage return that has no
/// newline behind it, and nowhere else.
pub proof fn law_lines_end_at_their_terminators(t: Seq<char>)
    ensures
        forall|i: int, j: int|
            0 <= i < lines_of(t).len() && 0 <= j < lines_of(t)[i].len() - 1 ==> (#[trigger] lines_of(t)[i][j]) != '\n'
                && (lines_of(t)[i][j] == '\r' ==> lines_of(t)[i][j + 1] == '\n'),
        forall|i: int|
            0 <= i < lines_of(t).len() - 1 ==> (#[trigger] lines_of(t)[i]).len() > 0 && (lines_of(t)[i].last() == '\n'
                || (lines_of(t)[i].last() == '\r' && lines_of(t)[i + 1][0] != '\n')),
    decreases t.len(),
{
    if t.len() > 0 {
        let init = t.drop_last();
        law_lines_end_at_their_terminators(init);
        law_lines_make_up_the_text(init);
        law_lines_make_up_the_text(t);
        let before = lines_of(init);
        let now = lines_of(t);
        let n = before.len() as int;
        if n == 0 || is_break(before.last().last(), t.last()) {
            assert forall|i: int, j: int| 0 <= i < now.len() && 0 <= j < now[i].len() - 1 implies (#[trigger] now[i][j])
                != '\n' && (now[i][j] == '\r' ==> now[i][j + 1] == '\n') by {
                assert(now[i] == before[i]);
                assert(before[i][j] == now[i][j]);
            }
            assert forall|i: int| 0 <= i < now.len() - 1 implies (#[trigger] now[i]).len() > 0 && (now[i].last() == '\n'
                || (now[i].last() == '\r' && now[i + 1][0] != '\n')) by {
                assert(now[i] == before[i]);
                assert(is_line(before[i]));
                if i < n - 1 {
                    assert(now[i + 1] == before[i + 1]);
                }
            }
        } else {
            let line = before.last();
            assert(before[n - 1] == line);
            assert(is_line(before[n - 1]));
            assert(now[n - 1] == line.push(t.last()));
            assert forall|i: int, j: int| 0 <= i < now.len() && 0 <= j < now[i].len() - 1 implies (#[trigger] now[i][j])
                != '\n' && (now[i][j] == '\r' ==> now[i][j + 1] == '\n') by {
                if i < n - 1 {
                    assert(now[i] == before[i]);
                    assert(before[i][j] == now[i][j]);
                } else {
                    assert(now[i][j] == line[j]);
                    if j < line.len() - 1 {
                        assert(before[n - 1][j] == line[j]);
                        assert(now[i][j + 1] == line[j + 1]);
                    }
                }
            }
            assert forall|i: int| 0 <= i < now.len() - 1 implies (#[trigger] now[i]).len() > 0 && (now[i].last() == '\n'
                || (now[i].last() == '\r' && now[i + 1][0] != '\n')) by {
                assert(now[i] == before[i]);
                assert(now[i + 1][0] == before[i + 1][0]);
            }
        }
    }
}

/// The texts of a list stand for its strings one by one.
pub proof fn law_texts_one_by_one(list: Seq<String>)
    ensures
        texts(list).len() == list.len(),
        forall|i: int| 0 <= i < list.len() ==> #[trigger] texts(list)[i] == list[i]@,
{
}

/// Besides the blank and the ASCII controls from tab to carriage return, the characters that
/// Unicode calls white space count as such, and no others.
pub proof fn law_white_space(c: char)
    ensures
        is_white_space(c) <==> {
            let n = c as int;
            ||| 0x09 <= n <= 0x0d
            ||| n == 0x20
            ||| n == 0x85
            ||| n == 0xa0
            ||| n == 0x1680
            ||| 0x2000 <= n <= 0x200a
            ||| n == 0x2028
            ||| n == 0x2029
            ||| n == 0x202f
            ||| n == 0x205f
            ||| n == 0x3000
        },
{
}

} // verus!
