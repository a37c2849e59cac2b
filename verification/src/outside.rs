//! The calls into other crates and into parts of the standard library that have no
//! contract of their own. What is stated of each is believed, not proved.

use crate::lists;
use crate::text;
use crate::text::has_char;
use std::sync::Arc;
use vstd::prelude::*;
use vstd::string::*;

verus! {

/// What `fast_glob::glob_match` answers for a glob and a path, where `/` separates the
/// parts of a path.
pub uninterp spec fn fast_glob_match(glob: Seq<char>, path: Seq<char>) -> bool;

/// Whether the glob matcher can count what it has to count for a glob and a path. It counts
/// braces in a signed number of 32 bits, and where there are wildcards it keeps positions in
/// 32 bits, up to two beyond the end of the path.
pub open spec fn fits_glob_match(glob: Seq<char>, path: Seq<char>) -> bool {
    &&& glob.contains('{') ==> vstd::utf8::encode_utf8(glob).len() < 0x8000_0000
    &&& glob.contains('*') ==> vstd::utf8::encode_utf8(glob).len() < 0xffff_ffff && vstd::utf8::encode_utf8(path).len()
        < 0xffff_fffe
}

/// Calls `fast_glob::glob_match`. The answer depends on the two texts alone; what it is for
/// a given glob is left to that function.
///
/// Texts for which its counters are too small are left out.
#[verifier::external_body]
fn call_glob_match(glob: &str, path: &str) -> (r: bool)
    requires
        fits_glob_match(glob@, path@),
    ensures
        r == fast_glob_match(glob@, path@),
{
    fast_glob::glob_match(glob, path)
}

/// Whether `path` matches `glob`. Where the matcher cannot count that far, which takes texts
/// of gigabytes and braces or wildcards, nothing matches.
pub open spec fn glob_matches(glob: Seq<char>, path: Seq<char>) -> bool {
    fits_glob_match(glob, path) && fast_glob_match(glob, path)
}

/// Whether the glob matcher can count what it has to count.
fn can_match(glob: &str, path: &str) -> (r: bool)
    ensures
        r == fits_glob_match(glob@, path@),
{
    let glob_len: usize = glob.as_bytes().len();
    let path_len: usize = path.as_bytes().len();
    if glob_len < 0x8000_0000 && path_len < 0xffff_fffe {
        return true;
    }
    (glob_len < 0x8000_0000 || !has_char(glob, '{')) && ((glob_len < 0xffff_ffff && path_len < 0xffff_fffe) || !has_char(
        glob,
        '*',
    ))
}

/// Whether `path` matches `glob`.
pub fn glob_match(glob: &str, path: &str) -> (r: bool)
    ensures
        r == glob_matches(glob@, path@),
{
    can_match(glob, path) && call_glob_match(glob, path)
}

/// The part of `text` that the first group of the regular expression `pattern` matches, if
/// the expression is valid, matches, and the group takes part.
pub uninterp spec fn regex_first_group(pattern: Seq<char>, text: Seq<char>) -> Option<Seq<char>>;

/// Compiles `pattern` with `regex::Regex::new` and calls `regex::Regex::captures` on `text`.
/// The answer depends on the two texts alone, and what a group matched is a part of `text`;
/// what an expression matches is left to that crate.
#[verifier::external_body]
pub(crate) fn first_group(pattern: &str, text: &str) -> (r: Option<String>)
    ensures
        match r {
            Some(m) => regex_first_group(pattern@, text@) == Some(m@) && (exists|i: int, j: int|
                0 <= i <= j <= text@.len() && m@ == #[trigger] text@.subrange(i, j)),
            None => regex_first_group(pattern@, text@) is None,
        },
{
    let regex = regex::Regex::new(pattern).ok()?;
    regex.captures(text)?.get(1).map(|m| m.as_str().to_string())
}

/// What happened to a line between two texts.
#[derive(PartialEq, Eq, Structural, Clone, Copy, Debug)]
pub enum ChangeKind {
    Equal,
    Delete,
    Insert,
}

/// A line of a comparison, with its line terminator.
pub struct LineChange {
    pub kind: ChangeKind,
    pub line: String,
}

impl View for LineChange {
    type V = (ChangeKind, Seq<char>);

    open spec fn view(&self) -> (ChangeKind, Seq<char>) {
        (self.kind, self.line@)
    }
}

/// The lines of a comparison as values.
pub open spec fn change_views(list: Seq<LineChange>) -> Seq<(ChangeKind, Seq<char>)> {
    list.map_values(|c: LineChange| c@)
}

/// The lines that are left when those of kind `without` are taken out of a comparison.
pub open spec fn lines_without(changes: Seq<(ChangeKind, Seq<char>)>, without: ChangeKind) -> Seq<Seq<char>>
    decreases changes.len(),
{
    if changes.len() == 0 {
        Seq::empty()
    } else if changes.last().0 == without {
        lines_without(changes.drop_last(), without)
    } else {
        lines_without(changes.drop_last(), without).push(changes.last().1)
    }
}

/// The lines of a comparison of two texts, in order.
pub uninterp spec fn line_changes(old_text: Seq<char>, new_text: Seq<char>) -> Seq<(ChangeKind, Seq<char>)>;

/// Whether the different lines of two texts can be numbered in 32 bits.
pub open spec fn fits_comparison(old_text: Seq<char>, new_text: Seq<char>) -> bool {
    text::distinct(text::lines_of(old_text) + text::lines_of(new_text)).len() <= 0xffff_ffff
}

/// Compares two texts with `similar::TextDiff::from_lines` and lists what
/// `similar::TextDiff::iter_all_changes` yields.
///
/// Which lines are kept depends on the two texts alone and is left to that crate. The kept
/// and the deleted lines are the lines of the old text, the kept and the inserted lines those
/// of the new one, and equal texts differ in no line. The different lines are numbered in 32
/// bits there, so texts with more of them are left out.
#[verifier::external_body]
pub(crate) fn compare_lines(old_text: &str, new_text: &str) -> (r: Vec<LineChange>)
    requires
        fits_comparison(old_text@, new_text@),
    ensures
        change_views(r@) == line_changes(old_text@, new_text@),
        lines_without(change_views(r@), ChangeKind::Insert) == text::lines_of(old_text@),
        lines_without(change_views(r@), ChangeKind::Delete) == text::lines_of(new_text@),
        old_text@ == new_text@ ==> forall|i: int|
            0 <= i < r@.len() ==> (#[trigger] r@[i]).kind == ChangeKind::Equal,
{
    let diff = similar::TextDiff::from_lines(old_text, new_text);
    diff.iter_all_changes().map(|change| LineChange {
        kind: match change.tag() {
            similar::ChangeTag::Equal => ChangeKind::Equal,
            similar::ChangeTag::Delete => ChangeKind::Delete,
            similar::ChangeTag::Insert => ChangeKind::Insert,
        },
        line: change.value().to_string(),
    }).collect()
}

/// A member of a JSON object: a string or a list of strings.
pub enum JsonField {
    Text(String),
    List(Vec<String>),
}

/// A [`JsonField`] as a value.
#[verifier::ext_equal]
pub enum JsonFieldView {
    Text(Seq<char>),
    List(Seq<Seq<char>>),
}

impl View for JsonField {
    type V = JsonFieldView;

    open spec fn view(&self) -> JsonFieldView {
        match self {
            JsonField::Text(t) => JsonFieldView::Text(t@),
            JsonField::List(l) => JsonFieldView::List(text::texts(l@)),
        }
    }
}

/// The members of a JSON object as values.
pub open spec fn field_views(fields: Seq<(String, JsonField)>) -> Seq<(Seq<char>, JsonFieldView)> {
    fields.map_values(|f: (String, JsonField)| (f.0@, f.1@))
}

/// The outcome of a call as values.
pub open spec fn outcome_view(r: Result<String, String>) -> Result<Seq<char>, Seq<char>> {
    match r {
        Ok(t) => Ok(t@),
        Err(e) => Err(e@),
    }
}

/// What `serde_json::to_string` makes of an object with these members, or the text of its error.
pub uninterp spec fn json_compact(fields: Seq<(Seq<char>, JsonFieldView)>) -> Result<Seq<char>, Seq<char>>;

/// What `serde_json::to_string_pretty` makes of an object with these members, or the text of
/// its error.
pub uninterp spec fn json_pretty(fields: Seq<(Seq<char>, JsonFieldView)>) -> Result<Seq<char>, Seq<char>>;

/// Serializes an object with `serde_json::to_string`. The outcome depends on the members and
/// their order alone; how JSON is written is left to that crate.
#[verifier::external_body]
pub(crate) fn write_json(fields: Vec<(String, JsonField)>) -> (r: Result<String, String>)
    ensures
        outcome_view(r) == json_compact(field_views(fields@)),
{
    let object: serde_json::Map<String, serde_json::Value> = fields.into_iter().map(|(name, field)| match field {
        JsonField::Text(text) => (name, serde_json::Value::from(text)),
        JsonField::List(list) => (name, serde_json::Value::from(list)),
    }).collect();
    serde_json::to_string(&object).map_err(|e| e.to_string())
}

/// Serializes an object with `serde_json::to_string_pretty`. The outcome depends on the
/// members and their order alone; how JSON is written is left to that crate.
#[verifier::external_body]
pub(crate) fn write_pretty_json(fields: Vec<(String, JsonField)>) -> (r: Result<String, String>)
    ensures
        outcome_view(r) == json_pretty(field_views(fields@)),
{
    let object: serde_json::Map<String, serde_json::Value> = fields.into_iter().map(|(name, field)| match field {
        JsonField::Text(text) => (name, serde_json::Value::from(text)),
        JsonField::List(list) => (name, serde_json::Value::from(list)),
    }).collect();
    serde_json::to_string_pretty(&object).map_err(|e| e.to_string())
}

/// A text in lower case.
pub uninterp spec fn lowercase(t: Seq<char>) -> Seq<char>;

/// Calls `str::to_lowercase`. The result depends on the text alone; which characters have a
/// lower case is left to the standard library.
#[verifier::external_body]
pub(crate) fn to_lowercase(s: &str) -> (r: String)
    ensures
        r@ == lowercase(s@),
{
    s.to_lowercase()
}

/// Calls `String::from_utf8`, which succeeds exactly on valid UTF-8, and gives the text that
/// it encodes.
#[verifier::external_body]
pub(crate) fn decode(bytes: Vec<u8>) -> (r: Option<String>)
    ensures
        match r {
            Some(s) => vstd::utf8::valid_utf8(bytes@) && s@ == vstd::utf8::decode_utf8(bytes@),
            None => !vstd::utf8::valid_utf8(bytes@),
        },
{
    String::from_utf8(bytes).ok()
}

/// Calls `std::sync::Arc::clone`, which makes another pointer to the same value.
#[verifier::external_body]
pub(crate) fn share<T>(value: &Arc<T>) -> (r: Arc<T>)
    ensures
        r == *value,
{
    Arc::clone(value)
}

/// A side of a comparison holds every line but those of the other side alone, in order.
pub proof fn law_a_side_holds_all_other_lines(changes: Seq<(ChangeKind, Seq<char>)>, without: ChangeKind)
    ensures
        lines_without(changes, without) == changes.filter(|c: (ChangeKind, Seq<char>)| c.0 != without).map_values(
            |c: (ChangeKind, Seq<char>)| c.1,
        ),
    decreases changes.len(),
{
    lists::lemma_filter_map_step(
        changes,
        |c: (ChangeKind, Seq<char>)| c.0 != without,
        |c: (ChangeKind, Seq<char>)| c.1,
    );
    if changes.len() > 0 {
        law_a_side_holds_all_other_lines(changes.drop_last(), without);
    }
}

} // verus!
