//! What a run has to say.

use crate::outside;
use crate::outside::{JsonField, JsonFieldView, write_json, write_pretty_json};
use crate::ownership;
use crate::ownership::{FileOwner, FileOwnerView, describe_sources};
use crate::ownership::validator;
use crate::ownership::validator::{ErrorView, Errors};
use crate::text;
use crate::text::{copy_texts, one_text, replace_char};
use vstd::prelude::*;
use vstd::string::*;

verus! {

/// Why a run could not do its work.
#[derive(Debug, PartialEq, Eq)]
pub enum Error {
    Io(String),
    ValidationFailed,
}

/// An [`Error`] as a value.
#[verifier::ext_equal]
pub enum ErrorValue {
    Io(Seq<char>),
    ValidationFailed,
}

impl View for Error {
    type V = ErrorValue;

    open spec fn view(&self) -> ErrorValue {
        match self {
            Error::Io(message) => ErrorValue::Io(message@),
            Error::ValidationFailed => ErrorValue::ValidationFailed,
        }
    }
}

impl ErrorValue {
    /// The error in words.
    pub open spec fn described(self) -> Seq<char> {
        match self {
            ErrorValue::Io(message) => message,
            ErrorValue::ValidationFailed => "Error::ValidationFailed"@,
        }
    }
}

impl Error {
    /// The error in words.
    pub fn to_string(&self) -> (r: String)
        ensures
            r@ == self@.described(),
    {
        match self {
            Error::Io(message) => message.clone(),
            Error::ValidationFailed => "Error::ValidationFailed".to_owned(),
        }
    }
}

/// What a run has to say: defects of the project, failures of the run itself, and anything
/// else worth knowing.
#[derive(Debug, PartialEq, Eq)]
pub struct RunResult {
    pub validation_errors: Vec<String>,
    pub io_errors: Vec<String>,
    pub info_messages: Vec<String>,
}

/// A [`RunResult`] as a value.
#[verifier::ext_equal]
pub struct RunResultView {
    pub validation_errors: Seq<Seq<char>>,
    pub io_errors: Seq<Seq<char>>,
    pub info_messages: Seq<Seq<char>>,
}

impl View for RunResult {
    type V = RunResultView;

    open spec fn view(&self) -> RunResultView {
        RunResultView {
            validation_errors: text::texts(self.validation_errors@),
            io_errors: text::texts(self.io_errors@),
            info_messages: text::texts(self.info_messages@),
        }
    }
}

/// The result of a run that has nothing to say.
pub open spec fn nothing() -> RunResultView {
    RunResultView { validation_errors: Seq::empty(), io_errors: Seq::empty(), info_messages: Seq::empty() }
}

/// The result of a run that failed.
pub open spec fn failure(message: Seq<char>) -> RunResultView {
    RunResultView { io_errors: seq![message], ..nothing() }
}

/// The result of a run that found defects.
pub open spec fn defects(messages: Seq<Seq<char>>) -> RunResultView {
    RunResultView { validation_errors: messages, ..nothing() }
}

/// The result of a run that has something to tell.
pub open spec fn information(messages: Seq<Seq<char>>) -> RunResultView {
    RunResultView { info_messages: messages, ..nothing() }
}

impl RunResultView {
    /// Whether the run failed or found defects.
    pub open spec fn has_errors(self) -> bool {
        self.validation_errors.len() > 0 || self.io_errors.len() > 0
    }
}

impl Default for RunResult {
    fn default() -> (r: RunResult)
        ensures
            r@ == nothing(),
    {
        let r = RunResult { validation_errors: Vec::new(), io_errors: Vec::new(), info_messages: Vec::new() };
        assert(r@ =~= nothing());
        r
    }
}

/// What is known of the owner of a file.
#[derive(Debug)]
pub struct ForFileResult {
    pub team_name: String,
    pub github_team: String,
    pub team_yml: String,
    pub description: Vec<String>,
}

/// A [`ForFileResult`] as a value.
#[verifier::ext_equal]
pub struct ForFileResultView {
    pub team_name: Seq<char>,
    pub github_team: Seq<char>,
    pub team_yml: Seq<char>,
    pub description: Seq<Seq<char>>,
}

impl View for ForFileResult {
    type V = ForFileResultView;

    open spec fn view(&self) -> ForFileResultView {
        ForFileResultView {
            team_name: self.team_name@,
            github_team: self.github_team@,
            team_yml: self.team_yml@,
            description: text::texts(self.description@),
        }
    }
}

impl Clone for ForFileResult {
    fn clone(&self) -> (r: ForFileResult)
        ensures
            r@ == self@,
    {
        ForFileResult {
            team_name: self.team_name.clone(),
            github_team: self.github_team.clone(),
            team_yml: self.team_yml.clone(),
            description: copy_texts(&self.description),
        }
    }
}

impl ForFileResultView {
    /// The members of its JSON object.
    pub open spec fn members(self) -> Seq<(Seq<char>, JsonFieldView)> {
        seq![
            ("team_name"@, JsonFieldView::Text(self.team_name)),
            ("github_team"@, JsonFieldView::Text(self.github_team)),
            ("team_yml"@, JsonFieldView::Text(self.team_yml)),
            ("description"@, JsonFieldView::List(self.description)),
        ]
    }
}

/// What is reported in JSON when JSON cannot be written.
pub open spec fn fallback(message: Seq<char>) -> RunResultView {
    failure("{\"error\": \""@ + text::replaced(message, '"', "\\\""@) + "\"}"@)
}

/// What is told of a file whose owner was to be written as JSON.
pub open spec fn json_info_result(written: Result<Seq<char>, Seq<char>>) -> RunResultView {
    match written {
        Ok(json) => information(seq![json]),
        Err(e) => fallback(e),
    }
}

/// What is reported of a failure that was to be written as JSON.
pub open spec fn json_io_error_result(written: Result<Seq<char>, Seq<char>>) -> RunResultView {
    match written {
        Ok(json) => failure(json),
        Err(e) => fallback("JSON serialization failed: "@ + e),
    }
}

/// What is reported of defects that were to be written as JSON.
pub open spec fn json_validation_error_result(written: Result<Seq<char>, Seq<char>>) -> RunResultView {
    match written {
        Ok(json) => defects(seq![json]),
        Err(e) => fallback("JSON serialization failed: "@ + e),
    }
}

/// What is reported of a failure.
pub open spec fn io_error_result(error: ErrorValue, json: bool) -> RunResultView {
    if json {
        json_io_error_result(outside::json_compact(seq![("error"@, JsonFieldView::Text(error.described()))]))
    } else {
        failure(error.described())
    }
}

/// What is reported of defects.
pub open spec fn validation_error_result(messages: Seq<Seq<char>>, json: bool) -> RunResultView {
    if json {
        json_validation_error_result(
            outside::json_pretty(seq![("validation_errors"@, JsonFieldView::List(messages))]),
        )
    } else {
        defects(messages)
    }
}

/// An owner as a [`ForFileResultView`].
pub open spec fn for_file(owner: FileOwnerView) -> ForFileResultView {
    ForFileResultView {
        team_name: owner.team.name,
        github_team: owner.team.github_team,
        team_yml: owner.team_config_file_path,
        description: ownership::descriptions(owner.sources),
    }
}

/// What is told of the owner of a file.
pub open spec fn file_owner_result(owner: FileOwnerView, json: bool) -> RunResultView {
    if json {
        json_info_result(outside::json_pretty(for_file(owner).members()))
    } else {
        information(seq![owner.described()])
    }
}

/// What is reported of defects, with what is worth knowing beside them.
pub open spec fn report_result(errors: Seq<ErrorView>) -> RunResultView {
    RunResultView {
        validation_errors: seq![validator::report(errors)],
        io_errors: Seq::empty(),
        info_messages: validator::infos(errors),
    }
}

impl RunResult {
    /// Whether the run failed or found defects.
    pub fn has_errors(&self) -> (r: bool)
        ensures
            r == self@.has_errors(),
    {
        !self.validation_errors.is_empty() || !self.io_errors.is_empty()
    }

    /// The result of a run that failed.
    pub fn from_failure(message: String) -> (r: RunResult)
        ensures
            r@ == failure(message@),
    {
        let none = RunResult::default();
        let r = RunResult { io_errors: one_text(message), ..none };
        assert(r@ =~= failure(message@));
        r
    }

    /// The result of a run that found defects.
    pub fn from_defects(messages: Vec<String>) -> (r: RunResult)
        ensures
            r@ == defects(text::texts(messages@)),
    {
        let none = RunResult::default();
        let r = RunResult { validation_errors: messages, ..none };
        assert(r@ =~= defects(text::texts(messages@)));
        r
    }

    /// The result of a run that has something to tell.
    pub fn from_information(messages: Vec<String>) -> (r: RunResult)
        ensures
            r@ == information(text::texts(messages@)),
    {
        let none = RunResult::default();
        let r = RunResult { info_messages: messages, ..none };
        assert(r@ =~= information(text::texts(messages@)));
        r
    }

    /// What is reported of `errors`: the changes that a stale CODEOWNERS file needs stand
    /// beside the report, so that they do not bury it.
    pub fn from_errors(errors: &Errors) -> (r: RunResult)
        ensures
            r@ == report_result(errors@),
    {
        let none = RunResult::default();
        let r = RunResult {
            validation_errors: one_text(errors.to_string()),
            info_messages: errors.info_messages(),
            ..none
        };
        assert(r@ =~= report_result(errors@));
        r
    }

    /// What is reported of `error`.
    pub fn from_io_error(error: Error, json: bool) -> (r: RunResult)
        ensures
            r@ == io_error_result(error@, json),
    {
        if json {
            RunResult::json_io_error(error)
        } else {
            RunResult::from_failure(error.to_string())
        }
    }

    /// What is told of `file_owner`.
    pub fn from_file_owner(file_owner: &FileOwner, json: bool) -> (r: RunResult)
        ensures
            r@ == file_owner_result(file_owner@, json),
    {
        if json {
            let result = ForFileResult {
                team_name: file_owner.team.name.clone(),
                github_team: file_owner.team.github_team.clone(),
                team_yml: file_owner.team_config_file_path.clone(),
                description: describe_sources(&file_owner.sources),
            };
            assert(result@ =~= for_file(file_owner@));
            RunResult::json_info(result)
        } else {
            RunResult::from_information(one_text(file_owner.to_string()))
        }
    }

    /// What is reported of `validation_errors`.
    pub fn from_validation_errors(validation_errors: Vec<String>, json: bool) -> (r: RunResult)
        ensures
            r@ == validation_error_result(text::texts(validation_errors@), json),
    {
        if json {
            RunResult::json_validation_error(validation_errors)
        } else {
            RunResult::from_defects(validation_errors)
        }
    }

    /// Tells of the owner of a file in JSON.
    pub fn json_info(result: ForFileResult) -> (r: RunResult)
        ensures
            r@ == json_info_result(outside::json_pretty(result@.members())),
    {
        let ghost members = result@.members();
        let mut fields: Vec<(String, JsonField)> = Vec::new();
        fields.push(("team_name".to_owned(), JsonField::Text(result.team_name)));
        fields.push(("github_team".to_owned(), JsonField::Text(result.github_team)));
        fields.push(("team_yml".to_owned(), JsonField::Text(result.team_yml)));
        fields.push(("description".to_owned(), JsonField::List(result.description)));
        assert(outside::field_views(fields@) =~= members);
        RunResult::json_info_written(write_pretty_json(fields))
    }

    /// Tells of the owner of a file in JSON, as far as it could be written.
    pub fn json_info_written(written: Result<String, String>) -> (r: RunResult)
        ensures
            r@ == json_info_result(outside::outcome_view(written)),
    {
        match written {
            Ok(json) => RunResult::from_information(one_text(json)),
            Err(e) => RunResult::fallback_io_error(e.as_str()),
        }
    }

    /// Reports a failure in JSON.
    pub fn json_io_error(error: Error) -> (r: RunResult)
        ensures
            r@ == io_error_result(error@, true),
    {
        let ghost members = seq![("error"@, JsonFieldView::Text(error@.described()))];
        let mut fields: Vec<(String, JsonField)> = Vec::new();
        fields.push(("error".to_owned(), JsonField::Text(error.to_string())));
        assert(outside::field_views(fields@) =~= members);
        RunResult::json_io_error_written(write_json(fields))
    }

    /// Reports a failure in JSON, as far as it could be written.
    pub fn json_io_error_written(written: Result<String, String>) -> (r: RunResult)
        ensures
            r@ == json_io_error_result(outside::outcome_view(written)),
    {
        match written {
            Ok(json) => RunResult::from_failure(json),
            Err(e) => RunResult::serialization_failed(e.as_str()),
        }
    }

    /// Reports defects in JSON.
    pub fn json_validation_error(validation_errors: Vec<String>) -> (r: RunResult)
        ensures
            r@ == validation_error_result(text::texts(validation_errors@), true),
    {
        let ghost members = seq![("validation_errors"@, JsonFieldView::List(text::texts(validation_errors@)))];
        let mut fields: Vec<(String, JsonField)> = Vec::new();
        fields.push(("validation_errors".to_owned(), JsonField::List(validation_errors)));
        assert(outside::field_views(fields@) =~= members);
        RunResult::json_validation_error_written(write_pretty_json(fields))
    }

    /// Reports defects in JSON, as far as it could be written.
    pub fn json_validation_error_written(written: Result<String, String>) -> (r: RunResult)
        ensures
            r@ == json_validation_error_result(outside::outcome_view(written)),
    {
        match written {
            Ok(json) => RunResult::from_defects(one_text(json)),
            Err(e) => RunResult::serialization_failed(e.as_str()),
        }
    }

    /// What is reported in JSON when JSON cannot be written.
    pub fn fallback_io_error(message: &str) -> (r: RunResult)
        ensures
            r@ == fallback(message@),
    {
        let mut json = "{\"error\": \"".to_owned();
        json.append(replace_char(message, '"', "\\\"").as_str());
        json.append("\"}");
        RunResult::from_failure(json)
    }

    fn serialization_failed(error: &str) -> (r: RunResult)
        ensures
            r@ == fallback("JSON serialization failed: "@ + error@),
    {
        let mut message = "JSON serialization failed: ".to_owned();
        message.append(error);
        RunResult::fallback_io_error(message.as_str())
    }
}

} // verus!
