//! What a report says, stated of the defects that it reports.

use crate::lists;
use crate::order;
use crate::order::law_sorting_keeps_every_text;
use crate::outside;
use crate::ownership::file_owner_finder::OwnerView;
use crate::ownership::mapper::SourceView;
use crate::ownership::validator;
use crate::ownership::validator::ErrorView;
use crate::text;
use crate::text::law_different_texts;
use vstd::prelude::*;

verus! {

/// Every source is told in its own words, with all that it names.
pub proof fn law_sources_in_words(dir: Seq<char>, glob: Seq<char>, manifest: Seq<char>)
    ensures
        SourceView::Directory(dir).described() == "Owner specified in `"@ + dir + "/.codeowner`"@,
        SourceView::TeamGlob(glob).described() == "Owner specified in Team YML as an owned_glob `"@ + glob + "`"@,
        SourceView::Package(manifest, glob).described() == "Owner defined in `"@ + manifest
            + "` with implicity owned glob: `"@ + glob + "`"@,
        SourceView::AnnotatedFile.described() == "Owner annotation at the top of the file"@,
        SourceView::TeamGem.described() == "Owner specified in Team YML's `owned_gems`"@,
        SourceView::TeamYml.described()
            == "Owner specified in Team YML itself (Teams own their configuration files)"@,
{
}

/// Each defect is told in its own words, with all that it names: one line for a file without an
/// owner or a reference to a missing team, none for a stale CODEOWNERS file.
pub proof fn law_defects_in_words(path: Seq<char>, name: Seq<char>, diff: Seq<char>)
    ensures
        (ErrorView::FileWithoutOwner { path }).messages() == seq!["- "@ + path],
        (ErrorView::InvalidTeam { name, path }).messages() == seq![
            "- "@ + path + " is referencing an invalid team - '"@ + name + "'"@,
        ],
        (ErrorView::CodeownershipFileIsStale { executable_name: name, diff }).messages() == Seq::<Seq<char>>::empty(),
        (ErrorView::FileWithoutOwner { path }).category() == "Some files are missing ownership"@,
        (ErrorView::InvalidTeam { name, path }).category() == "Found invalid team annotations"@,
        (ErrorView::CodeownershipFileIsStale { executable_name: name, diff }).category()
            == "CODEOWNERS out of date. Run `"@ + name + "` to update the CODEOWNERS file"@,
{
}

/// A file with several owners is told by its path and then, owner after owner, in the order of
/// their names in lower case, by the name of each and by each of its sources.
pub proof fn law_several_owners_in_words(path: Seq<char>, owners: Seq<OwnerView>)
    ensures
        ({
            let e = ErrorView::FileWithMultipleOwners { path, owners };
            let told = order::arranged(
                owners,
                order::stable_order(owners.map_values(|o: OwnerView| (0int, outside::lowercase(o.team_name)))),
            );
            &&& e.category()
                == "Code ownership should only be defined for each file in one way. The following files have declared ownership in multiple ways"@
            &&& e.messages() == seq![
                text::joined(
                    seq!["\n"@ + path] + told.flat_map(
                        |o: OwnerView|
                            seq![" owner: "@ + o.team_name] + o.sources.map_values(
                                |s: SourceView| "  - "@ + s.described(),
                            ),
                    ),
                    "\n"@,
                ),
            ]
        }),
{
    let keys = owners.map_values(|o: OwnerView| (0int, outside::lowercase(o.team_name)));
    assert(validator::owner_keys(owners) =~= keys);
    lemma_owner_lines(order::arranged(owners, order::stable_order(keys)));
}

proof fn lemma_owner_lines(owners: Seq<OwnerView>)
    ensures
        validator::owner_lines(owners) == owners.flat_map(
            |o: OwnerView|
                seq![" owner: "@ + o.team_name] + o.sources.map_values(|s: SourceView| "  - "@ + s.described()),
        ),
    decreases owners.len(),
{
    let f = |o: OwnerView|
        seq![" owner: "@ + o.team_name] + o.sources.map_values(|s: SourceView| "  - "@ + s.described());
    lists::lemma_flat_map_step(owners, f);
    if owners.len() > 0 {
        let init = owners.drop_last();
        lemma_owner_lines(init);
        let before = validator::owner_lines(init);
        assert(before.push(" owner: "@ + owners.last().team_name) + owners.last().sources.map_values(
            |s: SourceView| "  - "@ + s.described(),
        ) =~= before + f(owners.last()));
    }
}

/// Under a headline stands what every defect of that headline has to say, and nothing else.
pub proof fn law_messages_under_a_headline(errors: Seq<ErrorView>, category: Seq<char>)
    ensures
        validator::messages_under(errors, category) == errors.flat_map(
            |e: ErrorView|
                if e.category() == category {
                    e.messages()
                } else {
                    Seq::empty()
                },
        ),
        forall|i: int, k: int|
            0 <= i < errors.len() && 0 <= k < errors[i].messages().len() && errors[i].category() == category
                ==> validator::messages_under(errors, category).contains(#[trigger] errors[i].messages()[k]),
    decreases errors.len(),
{
    let f = |e: ErrorView|
        if e.category() == category {
            e.messages()
        } else {
            Seq::empty()
        };
    lemma_messages_under(errors, category);
    assert forall|i: int, k: int|
        0 <= i < errors.len() && 0 <= k < errors[i].messages().len() && errors[i].category()
            == category implies validator::messages_under(errors, category).contains(
        #[trigger] errors[i].messages()[k],
    ) by {
        lists::lemma_flat_map_contains(errors, f, errors[i].messages()[k]);
        assert(f(errors[i]).contains(errors[i].messages()[k]));
    }
}

proof fn lemma_messages_under(errors: Seq<ErrorView>, category: Seq<char>)
    ensures
        validator::messages_under(errors, category) == errors.flat_map(
            |e: ErrorView|
                if e.category() == category {
                    e.messages()
                } else {
                    Seq::empty()
                },
        ),
    decreases errors.len(),
{
    let f = |e: ErrorView|
        if e.category() == category {
            e.messages()
        } else {
            Seq::empty()
        };
    lists::lemma_flat_map_step(errors, f);
    if errors.len() > 0 {
        lemma_messages_under(errors.drop_last(), category);
        if errors.last().category() != category {
            let before = validator::messages_under(errors.drop_last(), category);
            assert(before + Seq::empty() =~= before);
        }
    }
}

/// A report is one section for each headline, the headlines in order. A section is the
/// headline on a line of its own and what is said under it in order, line by line.
pub proof fn law_a_report_is_its_sections(errors: Seq<ErrorView>)
    ensures
        ({
            let heads = order::sorted_texts(text::distinct(errors.map_values(|e: ErrorView| e.category())));
            validator::report(errors) == heads.flat_map(
                |head: Seq<char>|
                    {
                        let body = text::joined(
                            order::sorted_texts(
                                errors.flat_map(
                                    |e: ErrorView|
                                        if e.category() == head {
                                            e.messages()
                                        } else {
                                            Seq::empty()
                                        },
                                ),
                            ),
                            "\n"@,
                        );
                        if body.len() == 0 {
                            "\n"@ + head + "\n"@
                        } else {
                            "\n"@ + head + "\n"@ + body + "\n"@
                        }
                    },
            )
        }),
{
    let heads = order::sorted_texts(text::distinct(errors.map_values(|e: ErrorView| e.category())));
    assert(validator::categories(errors) =~= errors.map_values(|e: ErrorView| e.category()));
    lemma_sections(errors, heads);
}

proof fn lemma_sections(errors: Seq<ErrorView>, heads: Seq<Seq<char>>)
    ensures
        validator::sections(errors, heads) == heads.flat_map(
            |head: Seq<char>|
                {
                    let body = text::joined(
                        order::sorted_texts(
                            errors.flat_map(
                                |e: ErrorView|
                                    if e.category() == head {
                                        e.messages()
                                    } else {
                                        Seq::empty()
                                    },
                            ),
                        ),
                        "\n"@,
                    );
                    if body.len() == 0 {
                        "\n"@ + head + "\n"@
                    } else {
                        "\n"@ + head + "\n"@ + body + "\n"@
                    }
                },
        ),
    decreases heads.len(),
{
    let f = |head: Seq<char>|
        {
            let body = text::joined(
                order::sorted_texts(
                    errors.flat_map(
                        |e: ErrorView|
                            if e.category() == head {
                                e.messages()
                            } else {
                                Seq::empty()
                            },
                    ),
                ),
                "\n"@,
            );
            if body.len() == 0 {
                "\n"@ + head + "\n"@
            } else {
                "\n"@ + head + "\n"@ + body + "\n"@
            }
        };
    lists::lemma_flat_map_step(heads, f);
    if heads.len() > 0 {
        lemma_sections(errors, heads.drop_last());
        let head = heads.last();
        lemma_messages_under(errors, head);
        assert(validator::section(errors, head) =~= f(head));
    }
}

/// Whether a text holds another, at some position.
pub open spec fn occurs(part: Seq<char>, whole: Seq<char>) -> bool {
    exists|a: Seq<char>, b: Seq<char>| whole == #[trigger] (a + part + b)
}

proof fn lemma_occurs_in(part: Seq<char>, front: Seq<char>, whole: Seq<char>, back: Seq<char>)
    requires
        occurs(part, whole),
    ensures
        occurs(part, front + whole + back),
{
    let (a, b) = choose|a: Seq<char>, b: Seq<char>| whole == #[trigger] (a + part + b);
    assert(front + whole + back =~= (front + a) + part + (b + back));
}

proof fn lemma_occurs_joined(list: Seq<Seq<char>>, separator: Seq<char>, i: int)
    requires
        0 <= i < list.len(),
    ensures
        occurs(list[i], text::joined(list, separator)),
    decreases list.len(),
{
    let none = Seq::<char>::empty();
    let init = list.drop_last();
    let last = list.last();
    let front = text::joined(init, separator);
    if list.len() == 1 {
        assert(text::joined(list, separator) =~= none + last + none);
    } else if i == list.len() - 1 {
        assert(text::joined(list, separator) =~= (front + separator) + last + none);
    } else {
        lemma_occurs_joined(init, separator, i);
        assert(init[i] == list[i]);
        lemma_occurs_in(list[i], none, front, separator + last);
        assert(text::joined(list, separator) =~= none + front + (separator + last));
    }
}

proof fn lemma_occurs_in_sections(errors: Seq<ErrorView>, heads: Seq<Seq<char>>, i: int, part: Seq<char>)
    requires
        0 <= i < heads.len(),
        occurs(part, validator::section(errors, heads[i])),
    ensures
        occurs(part, validator::sections(errors, heads)),
    decreases heads.len(),
{
    let none = Seq::<char>::empty();
    let init = heads.drop_last();
    let front = validator::sections(errors, init);
    let last = validator::section(errors, heads.last());
    if i == heads.len() - 1 {
        lemma_occurs_in(part, front, last, none);
        assert(front + last + none =~= validator::sections(errors, heads));
    } else {
        assert(init[i] == heads[i]);
        lemma_occurs_in_sections(errors, init, i, part);
        lemma_occurs_in(part, none, front, last);
        assert(none + front + last =~= validator::sections(errors, heads));
    }
}

/// Whatever else is reported, the report holds the headline of every defect and all that is
/// said of it.
pub proof fn law_every_defect_is_in_the_report(errors: Seq<ErrorView>, i: int)
    requires
        0 <= i < errors.len(),
    ensures
        occurs(errors[i].category(), validator::report(errors)),
        forall|k: int|
            0 <= k < errors[i].messages().len() ==> occurs(
                #[trigger] errors[i].messages()[k],
                validator::report(errors),
            ),
{
    let head = errors[i].category();
    let all = validator::categories(errors);
    let heads = order::sorted_texts(text::distinct(all));
    assert(all[i] == head);
    assert(all.contains(head));
    law_different_texts(all, all.len() as int);
    assert(text::distinct(all).contains(head));
    law_sorting_keeps_every_text(text::distinct(all), head);
    let h = choose|h: int| 0 <= h < heads.len() && heads[h] == head;
    let none = Seq::<char>::empty();
    let messages = validator::messages_under(errors, head);
    let sorted = order::sorted_texts(messages);
    let body = text::joined(sorted, "\n"@);
    let after = (if body.len() == 0 {
        none
    } else {
        "\n"@ + body
    }) + "\n"@;
    assert(validator::section(errors, head) =~= "\n"@ + head + after);
    assert(occurs(head, validator::section(errors, head)));
    lemma_occurs_in_sections(errors, heads, h, head);
    law_messages_under_a_headline(errors, head);
    assert forall|k: int| 0 <= k < errors[i].messages().len() implies occurs(
        #[trigger] errors[i].messages()[k],
        validator::report(errors),
    ) by {
        let m = errors[i].messages()[k];
        assert(messages.contains(m));
        law_sorting_keeps_every_text(messages, m);
        let j = choose|j: int| 0 <= j < sorted.len() && sorted[j] == m;
        lemma_occurs_joined(sorted, "\n"@, j);
        if body.len() == 0 {
            let (a, b) = choose|a: Seq<char>, b: Seq<char>| body == #[trigger] (a + m + b);
            assert(m =~= none);
            assert(validator::section(errors, head) =~= validator::section(errors, head) + m + none);
        } else {
            lemma_occurs_in(m, "\n"@ + head + "\n"@, body, "\n"@);
            assert(validator::section(errors, head) =~= ("\n"@ + head + "\n"@) + body + "\n"@);
        }
        lemma_occurs_in_sections(errors, heads, h, m);
    }
}

/// Beside the report stands, for each stale CODEOWNERS file whose changes are known, what has
/// to change, and nothing else.
pub proof fn law_infos_tell_every_known_change(errors: Seq<ErrorView>)
    ensures
        validator::infos(errors) == errors.filter(
            |e: ErrorView| e is CodeownershipFileIsStale && e->diff.len() > 0,
        ).map_values(
            |e: ErrorView| "The following changes are required (- current, + expected):\n"@ + e->diff,
        ),
    decreases errors.len(),
{
    lists::lemma_filter_map_step(
        errors,
        |e: ErrorView| e is CodeownershipFileIsStale && e->diff.len() > 0,
        |e: ErrorView| "The following changes are required (- current, + expected):\n"@ + e->diff,
    );
    if errors.len() > 0 {
        law_infos_tell_every_known_change(errors.drop_last());
    }
}

/// It can be told how two files differ if they do not, or if no more than 32 bits are needed to
/// number the different lines of both.
pub proof fn law_which_files_can_be_compared(current: Seq<char>, generated: Seq<char>)
    ensures
        validator::comparable(current, generated) <==> current == generated || text::distinct(
            text::lines_of(current) + text::lines_of(generated),
        ).len() <= 0xffff_ffff,
        validator::comparable(current, current),
        current.len() < 0x7fff_ffff && generated.len() < 0x7fff_ffff ==> validator::comparable(current, generated),
{
    let all = text::lines_of(current) + text::lines_of(generated);
    text::law_lines_make_up_the_text(current);
    text::law_lines_make_up_the_text(generated);
    text::lemma_distinct_is_shorter(all);
}

} // verus!
