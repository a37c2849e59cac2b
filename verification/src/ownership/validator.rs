//! Whether the ownership that a project declares is sound.

use crate::lists;
use crate::order;
use crate::order::{sort_order, sort_texts, SortKey};
use crate::outside;
use crate::outside::{compare_lines, to_lowercase, ChangeKind, LineChange};
use crate::ownership::file_owner_finder;
use crate::ownership::file_owner_finder::{FileOwnerFinder, Owner, OwnerView};
use crate::ownership::mapper;
use crate::ownership::mapper::{collect_matchers, Mapper, OwnerMatcherView};
use crate::path;
use crate::path::{is_below, is_same};
use crate::project;
use crate::project::{Package, PackageView, Project, ProjectFile, ProjectFileView, ProjectView, TeamView};
use crate::text;
use crate::text::{chars_of, distinct_texts, join_texts, one_text, split_lines, trim_trailing};
use vstd::prelude::*;
use vstd::string::*;

verus! {

/// A defect of the declared ownership.
#[derive(Debug)]
pub enum Error {
    /// `path` refers to a team that does not exist.
    InvalidTeam { name: String, path: String },
    FileWithoutOwner { path: String },
    FileWithMultipleOwners { path: String, owners: Vec<Owner> },
    /// The CODEOWNERS file on disk is not the one that would be generated.
    CodeownershipFileIsStale { executable_name: String, diff: String },
}

/// An [`Error`] as a value.
#[verifier::ext_equal]
pub enum ErrorView {
    InvalidTeam { name: Seq<char>, path: Seq<char> },
    FileWithoutOwner { path: Seq<char> },
    FileWithMultipleOwners { path: Seq<char>, owners: Seq<OwnerView> },
    CodeownershipFileIsStale { executable_name: Seq<char>, diff: Seq<char> },
}

impl View for Error {
    type V = ErrorView;

    open spec fn view(&self) -> ErrorView {
        match self {
            Error::InvalidTeam { name, path } => ErrorView::InvalidTeam { name: name@, path: path@ },
            Error::FileWithoutOwner { path } => ErrorView::FileWithoutOwner { path: path@ },
            Error::FileWithMultipleOwners { path, owners } => ErrorView::FileWithMultipleOwners {
                path: path@,
                owners: file_owner_finder::owner_views(owners@),
            },
            Error::CodeownershipFileIsStale { executable_name, diff } => ErrorView::CodeownershipFileIsStale {
                executable_name: executable_name@,
                diff: diff@,
            },
        }
    }
}

/// The defects of a list as values.
pub open spec fn error_views(list: Seq<Error>) -> Seq<ErrorView> {
    list.map_values(|e: Error| e@)
}

/// The lines that name an owner and what makes it one, for each of a list.
pub open spec fn owner_lines(owners: Seq<OwnerView>) -> Seq<Seq<char>>
    decreases owners.len(),
{
    if owners.len() == 0 {
        Seq::empty()
    } else {
        owner_lines(owners.drop_last()).push(" owner: "@ + owners.last().team_name) + owners.last().sources.map_values(
            |s: mapper::SourceView| "  - "@ + s.described(),
        )
    }
}

/// The keys that sort owners by name, whatever the case.
pub open spec fn owner_keys(owners: Seq<OwnerView>) -> Seq<(int, Seq<char>)> {
    owners.map_values(|o: OwnerView| (0int, outside::lowercase(o.team_name)))
}

/// The message about a file with several owners, who are named in the given order.
pub open spec fn several_owners_text(path: Seq<char>, owners: Seq<OwnerView>, p: Seq<int>) -> Seq<char> {
    text::joined(seq!["\n"@ + path] + owner_lines(order::arranged(owners, p)), "\n"@)
}

impl ErrorView {
    /// The headline under which the defect is reported.
    pub open spec fn category(self) -> Seq<char> {
        match self {
            ErrorView::FileWithoutOwner { .. } => "Some files are missing ownership"@,
            ErrorView::FileWithMultipleOwners { .. } =>
                "Code ownership should only be defined for each file in one way. The following files have declared ownership in multiple ways"@,
            ErrorView::CodeownershipFileIsStale { executable_name, .. } => "CODEOWNERS out of date. Run `"@
                + executable_name + "` to update the CODEOWNERS file"@,
            ErrorView::InvalidTeam { .. } => "Found invalid team annotations"@,
        }
    }

    /// What is said of the defect under its headline.
    pub open spec fn messages(self) -> Seq<Seq<char>> {
        match self {
            ErrorView::FileWithoutOwner { path } => seq!["- "@ + path],
            ErrorView::FileWithMultipleOwners { path, owners } => seq![
                several_owners_text(path, owners, order::stable_order(owner_keys(owners))),
            ],
            ErrorView::CodeownershipFileIsStale { .. } => Seq::empty(),
            ErrorView::InvalidTeam { name, path } => seq![
                "- "@ + path + " is referencing an invalid team - '"@ + name + "'"@,
            ],
        }
    }
}

/// The message about a file with several owners. `lowered` holds the name of each in lower
/// case, by which they are sorted.
pub fn several_owners_message(path: &str, owners: &Vec<Owner>, lowered: &Vec<String>) -> (r: String)
    requires
        lowered.len() == owners.len(),
    ensures
        r@ == several_owners_text(
            path@,
            file_owner_finder::owner_views(owners@),
            order::stable_order(order::text_keys(text::texts(lowered@))),
        ),
{
    let ghost views = file_owner_finder::owner_views(owners@);
    let ghost keys = order::text_keys(text::texts(lowered@));
    let mut list: Vec<SortKey> = Vec::new();
    for i in 0..lowered.len()
        invariant
            keys == order::text_keys(text::texts(lowered@)),
            order::key_views(list@) == keys.take(i as int),
    {
        let ghost before = list@;
        list.push(SortKey { rank: 0, text: chars_of(lowered[i].as_str()) });
        assert(order::key_views(list@) =~= order::key_views(before).push(keys[i as int]));
        assert(keys.take(i + 1) =~= keys.take(i as int).push(keys[i as int]));
    }
    assert(keys.take(lowered@.len() as int) =~= keys);
    let p = sort_order(&list);
    let ghost q = order::stable_order(keys);
    let ghost sorted = order::arranged(views, q);
    let mut head = "\n".to_owned();
    head.append(path);
    let mut lines: Vec<String> = one_text(head);
    assert(sorted.take(0) =~= Seq::empty());
    assert(seq!["\n"@ + path@] + owner_lines(sorted.take(0)) =~= seq!["\n"@ + path@]);
    for k in 0..p.len()
        invariant
            views == file_owner_finder::owner_views(owners@),
            keys.len() == owners.len(),
            q == order::indexes(p@),
            order::is_stable_order(keys, q),
            sorted == order::arranged(views, q),
            text::texts(lines@) == seq!["\n"@ + path@] + owner_lines(sorted.take(k as int)),
    {
        assert(q[k as int] == p@[k as int]);
        let owner = &owners[p[k]];
        assert(sorted[k as int] == owner@);
        assert(sorted.take(k + 1).drop_last() =~= sorted.take(k as int));
        assert(sorted.take(k + 1).last() == owner@);
        let ghost start = text::texts(lines@);
        let ghost old_lines = lines@;
        let mut line = " owner: ".to_owned();
        line.append(owner.team_name.as_str());
        lines.push(line);
        let ghost named = start.push(" owner: "@ + owner@.team_name);
        assert(text::texts(lines@) =~= named);
        let ghost told = owner@.sources.map_values(|s: mapper::SourceView| "  - "@ + s.described());
        assert(named + told.take(0) =~= named);
        for j in 0..owner.sources.len()
            invariant
                told == mapper::source_views(owner.sources@).map_values(
                    |s: mapper::SourceView| "  - "@ + s.described(),
                ),
                text::texts(lines@) == named + told.take(j as int),
        {
            let ghost before = lines@;
            let mut line = "  - ".to_owned();
            line.append(owner.sources[j].to_string().as_str());
            lines.push(line);
            assert(text::texts(lines@) =~= text::texts(before).push(told[j as int]));
            assert(named + told.take(j + 1) =~= (named + told.take(j as int)).push(told[j as int]));
        }
        assert(told.take(owner.sources@.len() as int) =~= told);
        assert(named + told =~= seq!["\n"@ + path@] + owner_lines(sorted.take(k + 1)));
    }
    assert(q.len() == p@.len());
    assert(sorted.take(p@.len() as int) =~= sorted);
    join_texts(&lines, "\n")
}

impl Error {
    /// The headline under which the defect is reported.
    pub fn category(&self) -> (r: String)
        ensures
            r@ == self@.category(),
    {
        match self {
            Error::FileWithoutOwner { .. } => "Some files are missing ownership".to_owned(),
            Error::FileWithMultipleOwners { .. } =>
                "Code ownership should only be defined for each file in one way. The following files have declared ownership in multiple ways".to_owned(),
            Error::CodeownershipFileIsStale { executable_name, .. } => {
                let mut r = "CODEOWNERS out of date. Run `".to_owned();
                r.append(executable_name.as_str());
                r.append("` to update the CODEOWNERS file");
                r
            },
            Error::InvalidTeam { .. } => "Found invalid team annotations".to_owned(),
        }
    }

    /// What is said of the defect under its headline.
    ///
    /// The difference between two CODEOWNERS files is not said here: it can be long and would
    /// bury the headline. See [`Errors::info_messages`].
    pub fn messages(&self) -> (r: Vec<String>)
        ensures
            text::texts(r@) == self@.messages(),
    {
        match self {
            Error::FileWithoutOwner { path } => {
                let mut r = "- ".to_owned();
                r.append(path.as_str());
                one_text(r)
            },
            Error::FileWithMultipleOwners { path, owners } => {
                let ghost views = file_owner_finder::owner_views(owners@);
                let mut lowered: Vec<String> = Vec::new();
                for i in 0..owners.len()
                    invariant
                        views == file_owner_finder::owner_views(owners@),
                        lowered.len() == i,
                        order::text_keys(text::texts(lowered@)) == owner_keys(views).take(i as int),
                {
                    let ghost before = lowered@;
                    lowered.push(to_lowercase(owners[i].team_name.as_str()));
                    assert(order::text_keys(text::texts(lowered@)) =~= order::text_keys(text::texts(before)).push(
                        owner_keys(views)[i as int],
                    ));
                    assert(owner_keys(views).take(i + 1) =~= owner_keys(views).take(i as int).push(
                        owner_keys(views)[i as int],
                    ));
                }
                assert(owner_keys(views).take(owners@.len() as int) =~= owner_keys(views));
                one_text(several_owners_message(path.as_str(), owners, &lowered))
            },
            Error::CodeownershipFileIsStale { .. } => {
                let r: Vec<String> = Vec::new();
                assert(text::texts(r@) =~= Seq::empty());
                r
            },
            Error::InvalidTeam { name, path } => {
                let mut r = "- ".to_owned();
                r.append(path.as_str());
                r.append(" is referencing an invalid team - '");
                r.append(name.as_str());
                r.append("'");
                one_text(r)
            },
        }
    }
}

/// The defects that a run found.
#[derive(Debug)]
pub struct Errors(pub Vec<Error>);

impl View for Errors {
    type V = Seq<ErrorView>;

    open spec fn view(&self) -> Seq<ErrorView> {
        error_views(self.0@)
    }
}

/// The headlines of a list of defects, one for each.
pub open spec fn categories(errors: Seq<ErrorView>) -> Seq<Seq<char>> {
    errors.map_values(|e: ErrorView| e.category())
}

/// What is said of the defects under one headline.
pub open spec fn messages_under(errors: Seq<ErrorView>, category: Seq<char>) -> Seq<Seq<char>>
    decreases errors.len(),
{
    if errors.len() == 0 {
        Seq::empty()
    } else if errors.last().category() == category {
        messages_under(errors.drop_last(), category) + errors.last().messages()
    } else {
        messages_under(errors.drop_last(), category)
    }
}

/// A headline with what is said under it.
pub open spec fn section(errors: Seq<ErrorView>, category: Seq<char>) -> Seq<char> {
    let body = text::joined(order::sorted_texts(messages_under(errors, category)), "\n"@);
    "\n"@ + category + if body.len() == 0 {
        Seq::empty()
    } else {
        "\n"@ + body
    } + "\n"@
}

/// The sections for a list of headlines.
pub open spec fn sections(errors: Seq<ErrorView>, heads: Seq<Seq<char>>) -> Seq<char>
    decreases heads.len(),
{
    if heads.len() == 0 {
        Seq::empty()
    } else {
        sections(errors, heads.drop_last()) + section(errors, heads.last())
    }
}

/// The report on a list of defects: a section for each headline, in the order of the headlines.
pub open spec fn report(errors: Seq<ErrorView>) -> Seq<char> {
    sections(errors, order::sorted_texts(text::distinct(categories(errors))))
}

/// What is worth knowing about a list of defects beside the report: how the CODEOWNERS file
/// has to change.
pub open spec fn infos(errors: Seq<ErrorView>) -> Seq<Seq<char>>
    decreases errors.len(),
{
    if errors.len() == 0 {
        Seq::empty()
    } else {
        let before = infos(errors.drop_last());
        match errors.last() {
            ErrorView::CodeownershipFileIsStale { diff, .. } => if diff.len() > 0 {
                before.push("The following changes are required (- current, + expected):\n"@ + diff)
            } else {
                before
            },
            _ => before,
        }
    }
}

impl Errors {
    /// What is worth knowing beside the report.
    pub fn info_messages(&self) -> (r: Vec<String>)
        ensures
            text::texts(r@) == infos(self@),
    {
        let ghost all = self@;
        let mut r: Vec<String> = Vec::new();
        assert(all.take(0) =~= Seq::empty());
        assert(text::texts(r@) =~= Seq::empty());
        for i in 0..self.0.len()
            invariant
                all == self@,
                text::texts(r@) == infos(all.take(i as int)),
        {
            let ghost before = r@;
            assert(all.take(i + 1).drop_last() =~= all.take(i as int));
            assert(all.take(i + 1).last() == self.0@[i as int]@);
            match &self.0[i] {
                Error::CodeownershipFileIsStale { diff, .. } => {
                    if !diff.as_str().is_empty() {
                        let mut message = "The following changes are required (- current, + expected):\n".to_owned();
                        message.append(diff.as_str());
                        r.push(message);
                        assert(text::texts(r@) =~= text::texts(before).push(r@.last()@));
                    }
                },
                _ => {},
            }
        }
        assert(all.take(self.0@.len() as int) =~= all);
        r
    }

    /// What is said under one headline.
    fn messages_of(&self, category: &String) -> (r: Vec<String>)
        ensures
            text::texts(r@) == messages_under(self@, category@),
    {
        let ghost all = self@;
        let mut r: Vec<String> = Vec::new();
        assert(all.take(0) =~= Seq::empty());
        assert(text::texts(r@) =~= Seq::empty());
        for i in 0..self.0.len()
            invariant
                all == self@,
                text::texts(r@) == messages_under(all.take(i as int), category@),
        {
            let ghost before = r@;
            assert(all.take(i + 1).drop_last() =~= all.take(i as int));
            assert(all.take(i + 1).last() == self.0@[i as int]@);
            if self.0[i].category() == *category {
                let mut list = self.0[i].messages();
                let ghost added = list@;
                r.append(&mut list);
                assert(text::texts(r@) =~= text::texts(before) + text::texts(added));
            }
        }
        assert(all.take(self.0@.len() as int) =~= all);
        r
    }

    /// The report.
    pub fn to_string(&self) -> (r: String)
        ensures
            r@ == report(self@),
    {
        let ghost all = self@;
        let mut heads: Vec<String> = Vec::new();
        for i in 0..self.0.len()
            invariant
                all == self@,
                text::texts(heads@) == categories(all).take(i as int),
        {
            let ghost before = heads@;
            heads.push(self.0[i].category());
            assert(text::texts(heads@) =~= text::texts(before).push(categories(all)[i as int]));
            assert(categories(all).take(i + 1) =~= categories(all).take(i as int).push(categories(all)[i as int]));
        }
        assert(categories(all).take(self.0@.len() as int) =~= categories(all));
        let heads = sort_texts(&distinct_texts(&heads));
        let ghost ordered = text::texts(heads@);
        let mut r = String::new();
        assert(ordered.take(0) =~= Seq::empty());
        for i in 0..heads.len()
            invariant
                all == self@,
                ordered == text::texts(heads@),
                r@ == sections(all, ordered.take(i as int)),
        {
            assert(ordered.take(i + 1).drop_last() =~= ordered.take(i as int));
            assert(ordered.take(i + 1).last() == heads@[i as int]@);
            let ghost before = r@;
            let body = join_texts(&sort_texts(&self.messages_of(&heads[i])), "\n");
            r.append("\n");
            r.append(heads[i].as_str());
            if !body.as_str().is_empty() {
                r.append("\n");
                r.append(body.as_str());
            }
            r.append("\n");
            assert(r@ =~= before + section(all, heads@[i as int]@));
        }
        assert(ordered.take(heads@.len() as int) =~= ordered);
        r
    }
}

/// The lines that differ, each behind a sign that says how, without line terminators.
pub open spec fn changed_lines(changes: Seq<(ChangeKind, Seq<char>)>) -> Seq<Seq<char>>
    decreases changes.len(),
{
    if changes.len() == 0 {
        Seq::empty()
    } else {
        let before = changed_lines(changes.drop_last());
        let line = text::without_trailing(changes.last().1, '\n');
        match changes.last().0 {
            ChangeKind::Equal => before,
            ChangeKind::Delete => before.push("-"@ + line),
            ChangeKind::Insert => before.push("+"@ + line),
        }
    }
}

/// Every change is told, in order: `-` stands before each deleted line and `+` before each
/// inserted one.
pub proof fn law_every_change_is_told(changes: Seq<(ChangeKind, Seq<char>)>)
    ensures
        changed_lines(changes) == changes.filter(|c: (ChangeKind, Seq<char>)| c.0 != ChangeKind::Equal).map_values(
            |c: (ChangeKind, Seq<char>)|
                (if c.0 == ChangeKind::Delete {
                    "-"@
                } else {
                    "+"@
                }) + text::without_trailing(c.1, '\n'),
        ),
    decreases changes.len(),
{
    lists::lemma_filter_map_step(
        changes,
        |c: (ChangeKind, Seq<char>)| c.0 != ChangeKind::Equal,
        |c: (ChangeKind, Seq<char>)|
            (if c.0 == ChangeKind::Delete {
                "-"@
            } else {
                "+"@
            }) + text::without_trailing(c.1, '\n'),
    );
    if changes.len() > 0 {
        law_every_change_is_told(changes.drop_last());
    }
}

/// Which lines start with a sign.
pub open spec fn starts_with_sign(sign: char) -> spec_fn(Seq<char>) -> bool {
    |l: Seq<char>| l.len() > 0 && l[0] == sign
}

/// The lines told with a sign, without it.
pub open spec fn told_with(lines: Seq<Seq<char>>, sign: char) -> Seq<Seq<char>> {
    lines.filter(starts_with_sign(sign)).map_values(|l: Seq<char>| l.skip(1))
}

proof fn lemma_told_step(lines: Seq<Seq<char>>, sign: char)
    ensures
        lines.len() == 0 ==> told_with(lines, sign) == Seq::<Seq<char>>::empty(),
        lines.len() > 0 ==> told_with(lines, sign) == if lines.last().len() > 0 && lines.last()[0] == sign {
            told_with(lines.drop_last(), sign).push(lines.last().skip(1))
        } else {
            told_with(lines.drop_last(), sign)
        },
{
    lists::lemma_filter_map_step(lines, starts_with_sign(sign), |l: Seq<char>| l.skip(1));
}

/// The lines told with `-` are all deleted lines, in order, those with `+` all inserted ones,
/// and no other line is told. The lines of the old side with those of `+` added are the lines
/// of the new side with those of `-` added, so that taking away the one and adding the other
/// turns the old side into the new.
pub proof fn law_what_is_told_turns_one_side_into_the_other(changes: Seq<(ChangeKind, Seq<char>)>)
    ensures
        ({
            let bare = |t: Seq<char>| text::without_trailing(t, '\n');
            let minus = told_with(changed_lines(changes), '-');
            let plus = told_with(changed_lines(changes), '+');
            &&& minus == changes.filter(|c: (ChangeKind, Seq<char>)| c.0 == ChangeKind::Delete).map_values(
                |c: (ChangeKind, Seq<char>)| text::without_trailing(c.1, '\n'),
            )
            &&& plus == changes.filter(|c: (ChangeKind, Seq<char>)| c.0 == ChangeKind::Insert).map_values(
                |c: (ChangeKind, Seq<char>)| text::without_trailing(c.1, '\n'),
            )
            &&& changed_lines(changes).len() == minus.len() + plus.len()
            &&& changed_lines(changes).len() == changes.filter(
                |c: (ChangeKind, Seq<char>)| c.0 != ChangeKind::Equal,
            ).len()
            &&& outside::lines_without(changes, ChangeKind::Insert).map_values(bare).to_multiset().add(
                plus.to_multiset(),
            ) == outside::lines_without(changes, ChangeKind::Delete).map_values(bare).to_multiset().add(
                minus.to_multiset(),
            )
        }),
    decreases changes.len(),
{
    let bare = |t: Seq<char>| text::without_trailing(t, '\n');
    let line = |c: (ChangeKind, Seq<char>)| text::without_trailing(c.1, '\n');
    let lines = changed_lines(changes);
    reveal_strlit("-");
    reveal_strlit("+");
    lists::lemma_filter_map_step(changes, |c: (ChangeKind, Seq<char>)| c.0 == ChangeKind::Delete, line);
    lists::lemma_filter_map_step(changes, |c: (ChangeKind, Seq<char>)| c.0 == ChangeKind::Insert, line);
    lists::lemma_filter_map_step(changes, |c: (ChangeKind, Seq<char>)| c.0 != ChangeKind::Equal, line);
    lemma_told_step(lines, '-');
    lemma_told_step(lines, '+');
    let differs = |c: (ChangeKind, Seq<char>)| c.0 != ChangeKind::Equal;
    assert(changes.filter(differs).map_values(line).len() == changes.filter(differs).len());
    let old_side = outside::lines_without(changes, ChangeKind::Insert);
    let new_side = outside::lines_without(changes, ChangeKind::Delete);
    if changes.len() == 0 {
        assert(told_with(lines, '-') =~= Seq::empty());
        assert(told_with(lines, '+') =~= Seq::empty());
        assert(old_side.map_values(bare) =~= new_side.map_values(bare));
    } else {
        let init = changes.drop_last();
        let before = changed_lines(init);
        assert(init.filter(differs).map_values(line).len() == init.filter(differs).len());
        law_what_is_told_turns_one_side_into_the_other(init);
        let last = bare(changes.last().1);
        let old_before = outside::lines_without(init, ChangeKind::Insert).map_values(bare);
        let new_before = outside::lines_without(init, ChangeKind::Delete).map_values(bare);
        old_before.to_multiset_ensures();
        new_before.to_multiset_ensures();
        told_with(before, '-').to_multiset_ensures();
        told_with(before, '+').to_multiset_ensures();
        assert(("-"@ + last).skip(1) =~= last);
        assert(("+"@ + last).skip(1) =~= last);
        match changes.last().0 {
            ChangeKind::Equal => {
                assert(old_side.map_values(bare) =~= old_before.push(last));
                assert(new_side.map_values(bare) =~= new_before.push(last));
                let a = old_before.to_multiset();
                let b = new_before.to_multiset();
                let m = told_with(before, '-').to_multiset();
                let p = told_with(before, '+').to_multiset();
                assert(lines == before);
                assert(old_before.push(last).to_multiset() =~= a.insert(last));
                assert(new_before.push(last).to_multiset() =~= b.insert(last));
                assert(a.insert(last).add(p) =~= a.add(p).insert(last));
                assert(b.insert(last).add(m) =~= b.add(m).insert(last));
            },
            ChangeKind::Delete => {
                assert(lines.drop_last() =~= before);
                assert(old_side.map_values(bare) =~= old_before.push(last));
                assert(told_with(lines, '-') =~= told_with(before, '-').push(last));
                let a = old_before.to_multiset();
                let b = new_before.to_multiset();
                let m = told_with(before, '-').to_multiset();
                let p = told_with(before, '+').to_multiset();
                assert(told_with(lines, '+') == told_with(before, '+'));
                assert(a.insert(last).add(p) =~= a.add(p).insert(last));
                assert(b.add(m.insert(last)) =~= b.add(m).insert(last));
            },
            ChangeKind::Insert => {
                assert(lines.drop_last() =~= before);
                assert(new_side.map_values(bare) =~= new_before.push(last));
                assert(told_with(lines, '+') =~= told_with(before, '+').push(last));
                let a = old_before.to_multiset();
                let b = new_before.to_multiset();
                let m = told_with(before, '-').to_multiset();
                let p = told_with(before, '+').to_multiset();
                assert(told_with(lines, '-') == told_with(before, '-'));
                assert(a.add(p.insert(last)) =~= a.add(p).insert(last));
                assert(b.insert(last).add(m) =~= b.add(m).insert(last));
            },
        }
    }
}

/// The lines of `changes` that differ: `-` stands before a line that has to go and `+`
/// before one that is missing.
pub fn render_changes(changes: &Vec<LineChange>) -> (r: String)
    ensures
        r@ == text::joined(changed_lines(outside::change_views(changes@)), "\n"@),
        r@ == text::joined(
            outside::change_views(changes@).filter(
                |c: (ChangeKind, Seq<char>)| c.0 != ChangeKind::Equal,
            ).map_values(
                |c: (ChangeKind, Seq<char>)|
                    (if c.0 == ChangeKind::Delete {
                        "-"@
                    } else {
                        "+"@
                    }) + text::without_trailing(c.1, '\n'),
            ),
            "\n"@,
        ),
{
    proof {
        law_every_change_is_told(outside::change_views(changes@));
    }
    let ghost all = outside::change_views(changes@);
    let mut lines: Vec<String> = Vec::new();
    assert(all.take(0) =~= Seq::empty());
    assert(text::texts(lines@) =~= Seq::empty());
    for i in 0..changes.len()
        invariant
            all == outside::change_views(changes@),
            text::texts(lines@) == changed_lines(all.take(i as int)),
    {
        let ghost before = lines@;
        assert(all.take(i + 1).drop_last() =~= all.take(i as int));
        assert(all.take(i + 1).last() == changes@[i as int]@);
        let text = trim_trailing(changes[i].line.as_str(), '\n');
        match changes[i].kind {
            ChangeKind::Equal => {},
            ChangeKind::Delete => {
                let mut line = "-".to_owned();
                line.append(text);
                lines.push(line);
                assert(text::texts(lines@) =~= text::texts(before).push(lines@.last()@));
            },
            ChangeKind::Insert => {
                let mut line = "+".to_owned();
                line.append(text);
                lines.push(line);
                assert(text::texts(lines@) =~= text::texts(before).push(lines@.last()@));
            },
        }
    }
    assert(all.take(changes@.len() as int) =~= all);
    join_texts(&lines, "\n")
}

/// How one CODEOWNERS file differs from another.
pub open spec fn diff_text(current: Seq<char>, generated: Seq<char>) -> Seq<char> {
    text::joined(changed_lines(outside::line_changes(current, generated)), "\n"@)
}

/// Whether it can be told how two files differ: they do not, or their different lines can be
/// numbered.
pub open spec fn comparable(current: Seq<char>, generated: Seq<char>) -> bool {
    current == generated || outside::fits_comparison(current, generated)
}

/// Whether it can be told how two files differ.
pub fn is_comparable(current: &str, generated: &str) -> (r: bool)
    ensures
        r == comparable(current@, generated@),
{
    let current_len: usize = current.unicode_len();
    let generated_len: usize = generated.unicode_len();
    proof {
        let all = text::lines_of(current@) + text::lines_of(generated@);
        text::law_lines_make_up_the_text(current@);
        text::law_lines_make_up_the_text(generated@);
        text::lemma_distinct_is_shorter(all);
    }
    if current_len < 0x7fff_ffff && generated_len < 0x7fff_ffff {
        return true;
    }
    if current.to_owned() == generated.to_owned() {
        return true;
    }
    let mut lines = split_lines(current);
    let mut others = split_lines(generated);
    let ghost a = lines@;
    let ghost b = others@;
    lines.append(&mut others);
    assert(text::texts(lines@) =~= text::texts(a) + text::texts(b));
    let different = distinct_texts(&lines);
    assert(text::texts(different@).len() == different@.len());
    different.len() <= 0xffff_ffff
}

proof fn lemma_no_changes(changes: Seq<(ChangeKind, Seq<char>)>)
    requires
        forall|i: int| 0 <= i < changes.len() ==> (#[trigger] changes[i]).0 == ChangeKind::Equal,
    ensures
        changed_lines(changes).len() == 0,
    decreases changes.len(),
{
    if changes.len() > 0 {
        let before = changes.drop_last();
        assert forall|i: int| 0 <= i < before.len() implies (#[trigger] before[i]).0 == ChangeKind::Equal by {
            assert(before[i] == changes[i]);
        }
        lemma_no_changes(before);
        assert(changes[changes.len() - 1] == changes.last());
    }
}

/// Whether every line of a text starts with a sign.
pub open spec fn is_signed(t: Seq<char>) -> bool {
    forall|i: int|
        0 <= i < t.len() && (i == 0 || t[i - 1] == '\n') ==> (#[trigger] t[i] == '-' || t[i] == '+')
}

/// Whether a text is one line that starts with a sign.
spec fn is_signed_line(t: Seq<char>) -> bool {
    &&& t.len() > 0
    &&& t[0] == '-' || t[0] == '+'
    &&& !t.contains('\n')
}

proof fn lemma_changes_are_signed(changes: Seq<(ChangeKind, Seq<char>)>)
    requires
        forall|i: int| 0 <= i < changes.len() ==> text::is_line((#[trigger] changes[i]).1),
    ensures
        forall|i: int| 0 <= i < changed_lines(changes).len() ==> is_signed_line(#[trigger] changed_lines(changes)[i]),
    decreases changes.len(),
{
    if changes.len() > 0 {
        reveal_strlit("-");
        reveal_strlit("+");
        let init = changes.drop_last();
        assert forall|i: int| 0 <= i < init.len() implies text::is_line((#[trigger] init[i]).1) by {
            assert(init[i] == changes[i]);
        }
        lemma_changes_are_signed(init);
        let whole = changes.last().1;
        assert(text::is_line(changes[changes.len() - 1].1));
        let line = text::without_trailing(whole, '\n');
        assert(!line.contains('\n')) by {
            if whole.last() == '\n' {
                let rest = whole.drop_last();
                assert(text::without_trailing(rest, '\n') == rest) by {
                    if rest.len() > 0 {
                        assert(rest.last() == whole[whole.len() - 2]);
                    }
                }
                assert forall|i: int| 0 <= i < line.len() implies line[i] != '\n' by {
                    assert(line[i] == whole[i]);
                }
            } else {
                assert(line == whole);
            }
        }
        let minus = "-"@ + line;
        let plus = "+"@ + line;
        assert forall|i: int| 0 <= i < minus.len() implies minus[i] != '\n' && plus[i] != '\n' by {
            if i > 0 {
                assert(minus[i] == line[i - 1] && plus[i] == line[i - 1]);
                assert(line.contains(line[i - 1]));
            }
        }
        assert(is_signed_line(minus) && is_signed_line(plus));
        let before = changed_lines(init);
        let now = changed_lines(changes);
        assert forall|i: int| 0 <= i < now.len() implies is_signed_line(#[trigger] now[i]) by {
            if i < before.len() {
                assert(now[i] == before[i]);
            }
        }
    }
}

proof fn lemma_joined_is_signed(list: Seq<Seq<char>>)
    requires
        forall|i: int| 0 <= i < list.len() ==> is_signed_line(#[trigger] list[i]),
    ensures
        is_signed(text::joined(list, "\n"@)),
        list.len() > 0 ==> text::joined(list, "\n"@).len() > 0,
    decreases list.len(),
{
    reveal_strlit("\n");
    let t = text::joined(list, "\n"@);
    if list.len() > 0 {
        let last = list[list.len() - 1];
        assert(is_signed_line(last));
        assert(last == list.last());
        let init = list.drop_last();
        assert forall|i: int| 0 <= i < init.len() implies is_signed_line(#[trigger] init[i]) by {
            assert(init[i] == list[i]);
        }
        lemma_joined_is_signed(init);
        let front = text::joined(init, "\n"@);
        let n = front.len() as int;
        assert forall|i: int| 0 <= i < t.len() && (i == 0 || t[i - 1] == '\n') implies (#[trigger] t[i] == '-' || t[i]
            == '+') by {
            if list.len() == 1 {
                assert(t == last);
                if i > 0 {
                    assert(last.contains(last[i - 1]));
                }
            } else {
                assert(t == front + "\n"@ + last);
                if i < n {
                    assert(t[i] == front[i]);
                    if i > 0 {
                        assert(t[i - 1] == front[i - 1]);
                    }
                } else if i == n {
                    // The separator: what comes before it is the end of a line, which is no newline.
                    lemma_joined_end(init);
                    assert(t[n - 1] == front.last());
                } else if i > n + 1 {
                    assert(t[i - 1] == last[i - n - 2]);
                    assert(last.contains(last[i - n - 2]));
                } else {
                    assert(t[i] == last[0]);
                }
            }
        }
    }
}

proof fn lemma_joined_end(list: Seq<Seq<char>>)
    requires
        list.len() > 0,
        list.last().len() > 0,
        !list.last().contains('\n'),
    ensures
        text::joined(list, "\n"@).len() > 0,
        text::joined(list, "\n"@).last() != '\n',
{
    let last = list.last();
    let t = text::joined(list, "\n"@);
    assert(last.contains(last[last.len() - 1]));
    assert(t.last() == last.last());
}

proof fn lemma_some_change(changes: Seq<(ChangeKind, Seq<char>)>)
    ensures
        changed_lines(changes).len() == 0 ==> outside::lines_without(changes, ChangeKind::Insert)
            == outside::lines_without(changes, ChangeKind::Delete),
    decreases changes.len(),
{
    if changes.len() > 0 {
        lemma_some_change(changes.drop_last());
    }
}

proof fn lemma_change_is_kept(changes: Seq<(ChangeKind, Seq<char>)>, without: ChangeKind, i: int)
    requires
        0 <= i < changes.len(),
        changes[i].0 != without,
    ensures
        outside::lines_without(changes, without).contains(changes[i].1),
    decreases changes.len(),
{
    let init = changes.drop_last();
    let before = outside::lines_without(init, without);
    let now = outside::lines_without(changes, without);
    if i < init.len() {
        assert(init[i] == changes[i]);
        lemma_change_is_kept(init, without, i);
        let k = choose|k: int| 0 <= k < before.len() && before[k] == changes[i].1;
        assert(now[k] == before[k]);
    } else {
        assert(now.last() == changes[i].1);
    }
}

proof fn lemma_changes_are_lines(changes: Seq<(ChangeKind, Seq<char>)>, current: Seq<char>, generated: Seq<char>)
    requires
        outside::lines_without(changes, ChangeKind::Insert) == text::lines_of(current),
        outside::lines_without(changes, ChangeKind::Delete) == text::lines_of(generated),
    ensures
        forall|i: int| 0 <= i < changes.len() ==> text::is_line((#[trigger] changes[i]).1),
{
    text::law_lines_make_up_the_text(current);
    text::law_lines_make_up_the_text(generated);
    assert forall|i: int| 0 <= i < changes.len() implies text::is_line((#[trigger] changes[i]).1) by {
        if changes[i].0 == ChangeKind::Insert {
            lemma_change_is_kept(changes, ChangeKind::Delete, i);
        } else {
            lemma_change_is_kept(changes, ChangeKind::Insert, i);
        }
    }
}

/// The lines by which the CODEOWNERS file on disk differs from the generated one: `-` stands
/// before a line that has to go and `+` before one that is missing.
///
/// The comparison that the lines come from accounts for both files line by line: leaving out
/// the missing lines gives the lines of the file on disk, leaving out those that have to go
/// the lines of the generated one. Every line of the result starts with a sign, and there is
/// none exactly if the files are equal.
pub fn codeowners_diff(current: &str, generated: &str) -> (r: String)
    requires
        outside::fits_comparison(current@, generated@),
    ensures
        r@ == diff_text(current@, generated@),
        outside::lines_without(outside::line_changes(current@, generated@), ChangeKind::Insert) == text::lines_of(
            current@,
        ),
        outside::lines_without(outside::line_changes(current@, generated@), ChangeKind::Delete) == text::lines_of(
            generated@,
        ),
        ({
            let bare = |t: Seq<char>| text::without_trailing(t, '\n');
            let told = changed_lines(outside::line_changes(current@, generated@));
            &&& r@ == text::joined(told, "\n"@)
            &&& text::lines_of(current@).map_values(bare).to_multiset().add(told_with(told, '+').to_multiset())
                == text::lines_of(generated@).map_values(bare).to_multiset().add(told_with(told, '-').to_multiset())
        }),
        is_signed(r@),
        r@.len() == 0 <==> current@ == generated@,
{
    let changes = compare_lines(current, generated);
    proof {
        let views = outside::change_views(changes@);
        lemma_some_change(views);
        text::law_lines_make_up_the_text(current@);
        text::law_lines_make_up_the_text(generated@);
        lemma_changes_are_lines(views, current@, generated@);
        lemma_changes_are_signed(views);
        lemma_joined_is_signed(changed_lines(views));
        law_what_is_told_turns_one_side_into_the_other(views);
        if current@ == generated@ {
            assert forall|i: int| 0 <= i < views.len() implies (#[trigger] views[i]).0 == ChangeKind::Equal by {
                assert(changes@[i].kind == ChangeKind::Equal);
            }
            lemma_no_changes(views);
        }
    }
    render_changes(&changes)
}

/// Whether there is a team of this name.
pub open spec fn team_exists(teams: Seq<TeamView>, name: Seq<char>) -> bool {
    exists|i: int| 0 <= i < teams.len() && (#[trigger] teams[i]).name == name
}

/// The annotations among `files` that name no team of the project.
pub open spec fn annotation_errors(project: ProjectView, files: Seq<ProjectFileView>) -> Seq<ErrorView>
    decreases files.len(),
{
    if files.len() == 0 {
        Seq::empty()
    } else {
        let before = annotation_errors(project, files.drop_last());
        match files.last().owner {
            Some(name) => if team_exists(project.teams, name) {
                before
            } else {
                before.push(ErrorView::InvalidTeam { name, path: project.relative(files.last().path) })
            },
            None => before,
        }
    }
}

/// The manifests among `packages` that name no team of the project.
pub open spec fn package_errors(project: ProjectView, packages: Seq<PackageView>) -> Seq<ErrorView>
    decreases packages.len(),
{
    if packages.len() == 0 {
        Seq::empty()
    } else {
        let before = package_errors(project, packages.drop_last());
        let package = packages.last();
        if team_exists(project.teams, package.owner) {
            before
        } else {
            before.push(ErrorView::InvalidTeam { name: package.owner, path: project.relative(package.path) })
        }
    }
}

/// The paths of a list that do not have exactly one owner.
pub open spec fn ownership_errors(rules: Seq<OwnerMatcherView>, paths: Seq<Seq<char>>) -> Seq<ErrorView>
    decreases paths.len(),
{
    if paths.len() == 0 {
        Seq::empty()
    } else {
        let before = ownership_errors(rules, paths.drop_last());
        let owners = file_owner_finder::owners_of(rules, paths.last());
        if owners.len() == 0 {
            before.push(ErrorView::FileWithoutOwner { path: paths.last() })
        } else if owners.len() > 1 {
            before.push(ErrorView::FileWithMultipleOwners { path: paths.last(), owners })
        } else {
            before
        }
    }
}

/// What is wrong with the CODEOWNERS file on disk.
pub open spec fn staleness_errors(executable_name: Seq<char>, current: Seq<char>, generated: Seq<char>) -> Seq<
    ErrorView,
> {
    if generated == current {
        Seq::empty()
    } else {
        seq![ErrorView::CodeownershipFileIsStale { executable_name, diff: diff_text(current, generated) }]
    }
}

/// Whether a list names a path, in whatever spelling.
pub open spec fn names_path(list: Seq<Seq<char>>, p: Seq<char>) -> bool {
    exists|i: int| 0 <= i < list.len() && path::same_path(#[trigger] list[i], p)
}

/// The different paths of a list, each as it is spelled first.
pub open spec fn distinct_paths(list: Seq<Seq<char>>) -> Seq<Seq<char>>
    decreases list.len(),
{
    if list.len() == 0 {
        list
    } else {
        let before = distinct_paths(list.drop_last());
        if names_path(before, list.last()) {
            before
        } else {
            before.push(list.last())
        }
    }
}

impl ProjectView {
    /// The files of the project, relative to it.
    pub open spec fn relative_files(self) -> Seq<Seq<char>> {
        self.files.map_values(|f: ProjectFileView| self.relative(f.path))
    }

    /// The files of the project that a list of paths names.
    pub open spec fn files_named(self, paths: Seq<Seq<char>>) -> Seq<ProjectFileView> {
        self.files.filter(|f: ProjectFileView| names_path(paths, self.relative(f.path)))
    }

    /// Whether one of `supplied` lies inside a package.
    pub open spec fn in_scope(self, package: PackageView, supplied: Seq<Seq<char>>) -> bool {
        match path::parent_text(package.path) {
            Some(dir) => exists|i: int|
                0 <= i < supplied.len() && path::starts_with(#[trigger] supplied[i], self.relative(dir)),
            None => false,
        }
    }

    /// The packages of the project that hold one of `supplied`.
    pub open spec fn packages_in_scope(self, supplied: Seq<Seq<char>>) -> Seq<PackageView> {
        self.packages.filter(|p: PackageView| self.in_scope(p, supplied))
    }
}

/// What the rules and the teams of a project say against it as a whole.
pub open spec fn project_errors(project: ProjectView, rules: Seq<OwnerMatcherView>) -> Seq<ErrorView> {
    annotation_errors(project, project.files) + package_errors(project, project.packages) + ownership_errors(
        rules,
        project.relative_files(),
    )
}

/// What the rules and the teams of a project say against some of its paths.
pub open spec fn scoped_errors(
    project: ProjectView,
    rules: Seq<OwnerMatcherView>,
    owned_paths: Seq<Seq<char>>,
    supplied_paths: Seq<Seq<char>>,
) -> Seq<ErrorView> {
    annotation_errors(project, project.files_named(owned_paths)) + package_errors(
        project,
        project.packages_in_scope(supplied_paths),
    ) + ownership_errors(rules, distinct_paths(owned_paths))
}

/// The files of a list as values.
pub open spec fn file_refs(list: Seq<&ProjectFile>) -> Seq<ProjectFileView> {
    list.map_values(|f: &ProjectFile| f@)
}

/// The packages of a list as values.
pub open spec fn package_refs(list: Seq<&Package>) -> Seq<PackageView> {
    list.map_values(|p: &Package| p@)
}

/// A path with its owners, as values.
pub open spec fn attribution(rules: Seq<OwnerMatcherView>, paths: Seq<Seq<char>>) -> Seq<
    (Seq<char>, Seq<OwnerView>),
> {
    paths.map_values(|p: Seq<char>| (p, file_owner_finder::owners_of(rules, p)))
}

/// Paths with their owners, as values.
pub open spec fn attribution_views(list: Seq<(String, Vec<Owner>)>) -> Seq<(Seq<char>, Seq<OwnerView>)> {
    list.map_values(|a: (String, Vec<Owner>)| (a.0@, file_owner_finder::owner_views(a.1@)))
}

/// The paths that were not attributed to exactly one owner.
pub open spec fn attributed_errors(list: Seq<(Seq<char>, Seq<OwnerView>)>) -> Seq<ErrorView>
    decreases list.len(),
{
    if list.len() == 0 {
        Seq::empty()
    } else {
        let before = attributed_errors(list.drop_last());
        let (path, owners) = list.last();
        if owners.len() == 0 {
            before.push(ErrorView::FileWithoutOwner { path })
        } else if owners.len() > 1 {
            before.push(ErrorView::FileWithMultipleOwners { path, owners })
        } else {
            before
        }
    }
}

proof fn lemma_attributed_errors(rules: Seq<OwnerMatcherView>, paths: Seq<Seq<char>>)
    ensures
        attributed_errors(attribution(rules, paths)) == ownership_errors(rules, paths),
    decreases paths.len(),
{
    if paths.len() > 0 {
        lemma_attributed_errors(rules, paths.drop_last());
        assert(attribution(rules, paths).drop_last() =~= attribution(rules, paths.drop_last()));
        assert(attribution(rules, paths).last() == (
            paths.last(),
            file_owner_finder::owners_of(rules, paths.last()),
        ));
    }
}

/// The paths that were not attributed to exactly one owner.
pub fn judge_attribution(attributed: Vec<(String, Vec<Owner>)>) -> (r: Vec<Error>)
    ensures
        error_views(r@) == attributed_errors(attribution_views(attributed@)),
{
    let ghost given = attributed@;
    let ghost all = attribution_views(given);
    let mut r: Vec<Error> = Vec::new();
    assert(all.take(0) =~= Seq::empty());
    assert(error_views(r@) =~= Seq::empty());
    for (path, owners) in it: attributed
        invariant
            it.seq() == given,
            all == attribution_views(given),
            error_views(r@) == attributed_errors(all.take(it.index())),
    {
        let ghost before = r@;
        proof {
            let i = it.index();
            assert(all.take(i + 1).drop_last() =~= all.take(i));
            assert(all.take(i + 1).last() == (path@, file_owner_finder::owner_views(owners@)));
        }
        if owners.len() == 0 {
            r.push(Error::FileWithoutOwner { path });
            assert(error_views(r@) =~= error_views(before).push(r@.last()@));
        } else if owners.len() > 1 {
            r.push(Error::FileWithMultipleOwners { path, owners });
            assert(error_views(r@) =~= error_views(before).push(r@.last()@));
        }
    }
    assert(all.take(all.len() as int) =~= all);
    r
}

/// Whether `list` names `p`, in whatever spelling.
fn lists_path(list: &Vec<String>, p: &str) -> (r: bool)
    ensures
        r == names_path(text::texts(list@), p@),
{
    for i in 0..list.len()
        invariant
            forall|j: int| 0 <= j < i ==> !path::same_path(#[trigger] text::texts(list@)[j], p@),
    {
        assert(text::texts(list@)[i as int] == list@[i as int]@);
        if is_same(list[i].as_str(), p) {
            return true;
        }
    }
    false
}

/// The different paths of `list`, each as it is spelled first.
pub fn unique_paths(list: &Vec<String>) -> (r: Vec<String>)
    ensures
        text::texts(r@) == distinct_paths(text::texts(list@)),
{
    let ghost all = text::texts(list@);
    let mut r: Vec<String> = Vec::new();
    assert(all.take(0) =~= Seq::empty());
    assert(text::texts(r@) =~= Seq::empty());
    for i in 0..list.len()
        invariant
            all == text::texts(list@),
            text::texts(r@) == distinct_paths(all.take(i as int)),
    {
        let ghost before = r@;
        assert(all.take(i + 1).drop_last() =~= all.take(i as int));
        assert(all.take(i + 1).last() == list@[i as int]@);
        if !lists_path(&r, list[i].as_str()) {
            r.push(list[i].clone());
            assert(text::texts(r@) =~= text::texts(before).push(list@[i as int]@));
        }
    }
    assert(all.take(list@.len() as int) =~= all);
    r
}

/// Judges a project by the rules that its mappers found.
pub struct Validator {
    pub project: Project,
    pub mappers: Vec<Mapper>,
    pub executable_name: String,
}

impl Validator {
    /// The rules of the project.
    pub open spec fn rules(self) -> Seq<OwnerMatcherView> {
        mapper::all_rules(self.mappers@)
    }

    /// Judges the whole project.
    ///
    /// `generated_file` is the CODEOWNERS file that the rules give, and `current_file` the one
    /// on disk, if there is one. A missing file counts as an empty one. A stale file always
    /// comes with the lines by which it has to change.
    pub fn validate(&self, generated_file: &str, current_file: Option<&str>) -> (r: Result<(), Errors>)
        requires
            comparable(
                match current_file {
                    Some(c) => c@,
                    None => Seq::empty(),
                },
                generated_file@,
            ),
        ensures
            ({
                let current = match current_file {
                    Some(c) => c@,
                    None => Seq::empty(),
                };
                let errors = project_errors(self.project@, self.rules()) + staleness_errors(
                    self.executable_name@,
                    current,
                    generated_file@,
                );
                &&& match r {
                    Ok(_) => errors.len() == 0,
                    Err(e) => errors.len() > 0 && e@ == errors,
                }
                &&& generated_file@ != current ==> diff_text(current, generated_file@).len() > 0
            }),
    {
        let mut files: Vec<&ProjectFile> = Vec::new();
        let mut relative_paths: Vec<String> = Vec::new();
        let ghost project = self.project@;
        for i in 0..self.project.files.len()
            invariant
                project == self.project@,
                file_refs(files@) == project.files.take(i as int),
                text::texts(relative_paths@) == project.relative_files().take(i as int),
        {
            let ghost old_files = files@;
            let ghost old_paths = relative_paths@;
            let file = &self.project.files[i];
            assert(project.files[i as int] == file@);
            files.push(file);
            relative_paths.push(self.project.relative_path(file.path.as_str()).to_owned());
            assert(file_refs(files@) =~= file_refs(old_files).push(file@));
            assert(project.files.take(i + 1) =~= project.files.take(i as int).push(file@));
            assert(text::texts(relative_paths@) =~= text::texts(old_paths).push(project.relative_files()[i as int]));
            assert(project.relative_files().take(i + 1) =~= project.relative_files().take(i as int).push(
                project.relative_files()[i as int],
            ));
        }
        assert(project.files.take(self.project.files@.len() as int) =~= project.files);
        assert(project.relative_files().take(self.project.files@.len() as int) =~= project.relative_files());
        let mut packages: Vec<&Package> = Vec::new();
        for i in 0..self.project.packages.len()
            invariant
                project == self.project@,
                package_refs(packages@) == project.packages.take(i as int),
        {
            let ghost before = packages@;
            packages.push(&self.project.packages[i]);
            assert(package_refs(packages@) =~= package_refs(before).push(project.packages[i as int]));
            assert(project.packages.take(i + 1) =~= project.packages.take(i as int).push(project.packages[i as int]));
        }
        assert(project.packages.take(self.project.packages@.len() as int) =~= project.packages);
        let mut errors: Vec<Error> = self.validate_invalid_team(&files, &packages);
        let mut ownership = self.validate_file_ownership(&relative_paths);
        let mut stale = self.validate_codeowners_file(generated_file, current_file);
        let ghost a = errors@;
        let ghost b = ownership@;
        let ghost c = stale@;
        errors.append(&mut ownership);
        errors.append(&mut stale);
        assert(error_views(errors@) =~= error_views(a) + error_views(b) + error_views(c));
        assert(error_views(errors@).len() == errors@.len());
        if errors.len() == 0 {
            Ok(())
        } else {
            Err(Errors(errors))
        }
    }

    /// Judges some paths of the project.
    ///
    /// `owned_paths` are those that have to have an owner. Every one of them is put to the
    /// rules, also one that the project does not list: a new file in a directory that has an
    /// owner is owned from the start. `supplied_paths` are all that the caller named. They
    /// select the packages to judge, so that a manifest is judged when it is itself named,
    /// and a package with which no path has to do never is.
    ///
    /// Whether the CODEOWNERS file is up to date is a matter of the whole file and not judged.
    pub fn validate_files(&self, owned_paths: &Vec<String>, supplied_paths: &Vec<String>) -> (r: Result<(), Errors>)
        ensures
            ({
                let errors = scoped_errors(
                    self.project@,
                    self.rules(),
                    text::texts(owned_paths@),
                    text::texts(supplied_paths@),
                );
                match r {
                    Ok(_) => errors.len() == 0,
                    Err(e) => errors.len() > 0 && e@ == errors,
                }
            }),
    {
        let ghost project = self.project@;
        let ghost owned = text::texts(owned_paths@);
        let ghost supplied = text::texts(supplied_paths@);
        let ghost named = |f: ProjectFileView| names_path(owned, project.relative(f.path));
        let ghost held = |p: PackageView| project.in_scope(p, supplied);
        let mut files: Vec<&ProjectFile> = Vec::new();
        assert(project.files.take(0).filter(named) =~= Seq::empty()) by {
            reveal(Seq::filter);
        }
        assert(file_refs(files@) =~= Seq::empty());
        for i in 0..self.project.files.len()
            invariant
                project == self.project@,
                owned == text::texts(owned_paths@),
                named == (|f: ProjectFileView| names_path(owned, project.relative(f.path))),
                file_refs(files@) == project.files.take(i as int).filter(named),
        {
            reveal(Seq::filter);
            let ghost before = files@;
            let file = &self.project.files[i];
            assert(project.files.take(i + 1).drop_last() =~= project.files.take(i as int));
            assert(project.files.take(i + 1).last() == file@);
            if lists_path(owned_paths, self.project.relative_path(file.path.as_str())) {
                files.push(file);
                assert(file_refs(files@) =~= file_refs(before).push(file@));
            }
        }
        assert(project.files.take(self.project.files@.len() as int) =~= project.files);
        let mut packages: Vec<&Package> = Vec::new();
        assert(project.packages.take(0).filter(held) =~= Seq::empty()) by {
            reveal(Seq::filter);
        }
        assert(package_refs(packages@) =~= Seq::empty());
        for i in 0..self.project.packages.len()
            invariant
                project == self.project@,
                supplied == text::texts(supplied_paths@),
                held == (|p: PackageView| project.in_scope(p, supplied)),
                package_refs(packages@) == project.packages.take(i as int).filter(held),
        {
            reveal(Seq::filter);
            let ghost before = packages@;
            let package = &self.project.packages[i];
            assert(project.packages.take(i + 1).drop_last() =~= project.packages.take(i as int));
            assert(project.packages.take(i + 1).last() == package@);
            if self.package_contains_any(package, supplied_paths) {
                packages.push(package);
                assert(package_refs(packages@) =~= package_refs(before).push(package@));
            }
        }
        assert(project.packages.take(self.project.packages@.len() as int) =~= project.packages);
        let mut errors: Vec<Error> = self.validate_invalid_team(&files, &packages);
        let mut ownership = self.validate_file_ownership(&unique_paths(owned_paths));
        let ghost a = errors@;
        let ghost b = ownership@;
        errors.append(&mut ownership);
        assert(error_views(errors@) =~= error_views(a) + error_views(b));
        assert(error_views(errors@).len() == errors@.len());
        if errors.len() == 0 {
            Ok(())
        } else {
            Err(Errors(errors))
        }
    }

    /// Whether one of `supplied_paths` lies inside `package`.
    ///
    /// The manifest itself does, since it lies in the directory of the package. In a package
    /// at the root of the project every path lies.
    pub fn package_contains_any(&self, package: &Package, supplied_paths: &Vec<String>) -> (r: bool)
        ensures
            r == self.project@.in_scope(package@, text::texts(supplied_paths@)),
    {
        let dir: &str = match package.package_root() {
            Some(dir) => dir,
            None => {
                return false;
            },
        };
        let ghost above = dir@;
        let dir = self.project.relative_path(dir);
        for i in 0..supplied_paths.len()
            invariant
                path::parent_text(package@.path) == Some(above),
                dir@ == self.project@.relative(above),
                forall|j: int| 0 <= j < i ==> !path::starts_with(#[trigger] text::texts(supplied_paths@)[j], dir@),
        {
            assert(text::texts(supplied_paths@)[i as int] == supplied_paths@[i as int]@);
            if is_below(supplied_paths[i].as_str(), dir) {
                return true;
            }
        }
        false
    }

    /// The annotations and manifests that name no team of the project.
    pub fn validate_invalid_team(&self, files: &Vec<&ProjectFile>, packages: &Vec<&Package>) -> (r: Vec<Error>)
        ensures
            error_views(r@) == annotation_errors(self.project@, file_refs(files@)) + package_errors(
                self.project@,
                package_refs(packages@),
            ),
    {
        let mut errors = self.invalid_team_annotation(files);
        let mut others = self.invalid_package_ownership(packages);
        let ghost a = errors@;
        let ghost b = others@;
        errors.append(&mut others);
        assert(error_views(errors@) =~= error_views(a) + error_views(b));
        errors
    }

    /// Whether the project has a team of this name.
    fn has_team(&self, name: &String) -> (r: bool)
        ensures
            r == team_exists(self.project@.teams, name@),
    {
        for i in 0..self.project.teams.len()
            invariant
                forall|j: int| 0 <= j < i ==> (#[trigger] self.project@.teams[j]).name != name@,
        {
            assert(self.project@.teams[i as int] == self.project.teams@[i as int]@);
            if self.project.teams[i].name == *name {
                return true;
            }
        }
        false
    }

    /// The annotations that name no team of the project.
    pub fn invalid_team_annotation(&self, files: &Vec<&ProjectFile>) -> (r: Vec<Error>)
        ensures
            error_views(r@) == annotation_errors(self.project@, file_refs(files@)),
    {
        let ghost all = file_refs(files@);
        let mut r: Vec<Error> = Vec::new();
        assert(all.take(0) =~= Seq::empty());
        assert(error_views(r@) =~= Seq::empty());
        for i in 0..files.len()
            invariant
                all == file_refs(files@),
                error_views(r@) == annotation_errors(self.project@, all.take(i as int)),
        {
            let ghost before = r@;
            let file: &ProjectFile = files[i];
            assert(all.take(i + 1).drop_last() =~= all.take(i as int));
            assert(all.take(i + 1).last() == file@);
            if let Some(name) = &file.owner {
                if !self.has_team(name) {
                    r.push(
                        Error::InvalidTeam {
                            name: name.clone(),
                            path: self.project.relative_path(file.path.as_str()).to_owned(),
                        },
                    );
                    assert(error_views(r@) =~= error_views(before).push(r@.last()@));
                }
            }
        }
        assert(all.take(files@.len() as int) =~= all);
        r
    }

    /// The manifests that name no team of the project.
    pub fn invalid_package_ownership(&self, packages: &Vec<&Package>) -> (r: Vec<Error>)
        ensures
            error_views(r@) == package_errors(self.project@, package_refs(packages@)),
    {
        let ghost all = package_refs(packages@);
        let mut r: Vec<Error> = Vec::new();
        assert(all.take(0) =~= Seq::empty());
        assert(error_views(r@) =~= Seq::empty());
        for i in 0..packages.len()
            invariant
                all == package_refs(packages@),
                error_views(r@) == package_errors(self.project@, all.take(i as int)),
        {
            let ghost before = r@;
            let package: &Package = packages[i];
            assert(all.take(i + 1).drop_last() =~= all.take(i as int));
            assert(all.take(i + 1).last() == package@);
            if !self.has_team(&package.owner) {
                r.push(
                    Error::InvalidTeam {
                        name: package.owner.clone(),
                        path: self.project.relative_path(package.path.as_str()).to_owned(),
                    },
                );
                assert(error_views(r@) =~= error_views(before).push(r@.last()@));
            }
        }
        assert(all.take(packages@.len() as int) =~= all);
        r
    }

    /// The paths that do not have exactly one owner.
    pub fn validate_file_ownership(&self, relative_paths: &Vec<String>) -> (r: Vec<Error>)
        ensures
            error_views(r@) == ownership_errors(self.rules(), text::texts(relative_paths@)),
    {
        proof {
            lemma_attributed_errors(self.rules(), text::texts(relative_paths@));
        }
        judge_attribution(self.path_to_owners(relative_paths))
    }

    /// The CODEOWNERS file on disk, if it is not the generated one.
    pub fn validate_codeowners_file(&self, generated_file: &str, current_file: Option<&str>) -> (r: Vec<Error>)
        requires
            comparable(
                match current_file {
                    Some(c) => c@,
                    None => Seq::empty(),
                },
                generated_file@,
            ),
        ensures
            ({
                let current = match current_file {
                    Some(c) => c@,
                    None => Seq::empty(),
                };
                &&& error_views(r@) == staleness_errors(self.executable_name@, current, generated_file@)
                &&& generated_file@ != current ==> diff_text(current, generated_file@).len() > 0
            }),
    {
        let current: String = match current_file {
            Some(c) => c.to_owned(),
            None => String::new(),
        };
        let mut r: Vec<Error> = Vec::new();
        if generated_file.to_owned() == current {
            assert(error_views(r@) =~= Seq::empty());
        } else {
            r.push(
                Error::CodeownershipFileIsStale {
                    executable_name: self.executable_name.clone(),
                    diff: codeowners_diff(current.as_str(), generated_file),
                },
            );
            assert(error_views(r@) =~= seq![r@.last()@]);
        }
        r
    }

    /// The owners of each path, according to the rules.
    pub fn path_to_owners(&self, relative_paths: &Vec<String>) -> (r: Vec<(String, Vec<Owner>)>)
        ensures
            attribution_views(r@) == attribution(self.rules(), text::texts(relative_paths@)),
    {
        let owner_matchers = collect_matchers(&self.mappers);
        let finder = FileOwnerFinder { owner_matchers: &owner_matchers };
        let ghost all = attribution(self.rules(), text::texts(relative_paths@));
        let mut r: Vec<(String, Vec<Owner>)> = Vec::new();
        for i in 0..relative_paths.len()
            invariant
                mapper::matcher_views(finder.owner_matchers@) == self.rules(),
                all == attribution(self.rules(), text::texts(relative_paths@)),
                attribution_views(r@) == all.take(i as int),
        {
            let ghost before = r@;
            let owners = finder.find(relative_paths[i].as_str());
            r.push((relative_paths[i].clone(), owners));
            assert(attribution_views(r@) =~= attribution_views(before).push(all[i as int]));
            assert(all.take(i + 1) =~= all.take(i as int).push(all[i as int]));
        }
        assert(all.take(relative_paths@.len() as int) =~= all);
        r
    }
}

} // verus!
