//! Errors of the library.
use vstd::prelude::*;
use crate::json::{JsonKind, kind_name, kind_name_str};
use crate::text::{dec_text, usize_text};

verus! {

/// Why an operation of the library failed.
#[derive(Debug)]
pub enum ScribeError {
    /// The tracked file is neither `.json` nor `.csv`.
    UnsupportedFormat { path: String },
    /// The file content is not valid UTF-8.
    NotUtf8,
    /// The file content is not JSON.
    InvalidJson,
    /// The JSON root is not an array.
    JsonRootNotArray { kind: JsonKind },
    /// An element of the JSON root array is not an object.
    JsonItemNotObject { index: usize },
    /// The CSV header row could not be read.
    CsvHeaders,
    /// A CSV record could not be read; `row` counts the header as row 1.
    CsvRecord { row: usize },
    /// A CSV record has fewer fields than there are headers.
    CsvMissingColumn,
    /// An item lacks one of the primary key columns.
    MissingPrimaryKey { key: String },
    /// The transformation is not a valid JMESPath expression.
    InvalidTransform,
    /// Evaluating the transformation failed.
    TransformFailed,
    /// The transformation's result could not be read back as JSON.
    TransformOutputUnreadable,
    /// The transformation did not give an array.
    TransformNotArray { kind: JsonKind },
    /// An element of the transformation's result is not an object.
    TransformItemNotObject { index: usize, kind: JsonKind },
    /// Parsing the tracked file failed in a commit.
    InCommit { commit: String, cause: Box<ScribeError> },
    /// The database refused an operation.
    Database { message: String },
}

/// The mathematical value of an error.
pub enum ErrorView {
    UnsupportedFormat { path: Seq<char> },
    NotUtf8,
    InvalidJson,
    JsonRootNotArray { kind: JsonKind },
    JsonItemNotObject { index: nat },
    CsvHeaders,
    CsvRecord { row: nat },
    CsvMissingColumn,
    MissingPrimaryKey { key: Seq<char> },
    InvalidTransform,
    TransformFailed,
    TransformOutputUnreadable,
    TransformNotArray { kind: JsonKind },
    TransformItemNotObject { index: nat, kind: JsonKind },
    InCommit { commit: Seq<char>, cause: Box<ErrorView> },
    Database { message: Seq<char> },
}

pub open spec fn error_view(e: &ScribeError) -> ErrorView
    decreases e,
{
    match e {
        ScribeError::UnsupportedFormat { path } => ErrorView::UnsupportedFormat { path: path@ },
        ScribeError::NotUtf8 => ErrorView::NotUtf8,
        ScribeError::InvalidJson => ErrorView::InvalidJson,
        ScribeError::JsonRootNotArray { kind } => ErrorView::JsonRootNotArray { kind: *kind },
        ScribeError::JsonItemNotObject { index } => ErrorView::JsonItemNotObject { index: *index as nat },
        ScribeError::CsvHeaders => ErrorView::CsvHeaders,
        ScribeError::CsvRecord { row } => ErrorView::CsvRecord { row: *row as nat },
        ScribeError::CsvMissingColumn => ErrorView::CsvMissingColumn,
        ScribeError::MissingPrimaryKey { key } => ErrorView::MissingPrimaryKey { key: key@ },
        ScribeError::InvalidTransform => ErrorView::InvalidTransform,
        ScribeError::TransformFailed => ErrorView::TransformFailed,
        ScribeError::TransformOutputUnreadable => ErrorView::TransformOutputUnreadable,
        ScribeError::TransformNotArray { kind } => ErrorView::TransformNotArray { kind: *kind },
        ScribeError::TransformItemNotObject { index, kind } => ErrorView::TransformItemNotObject {
            index: *index as nat,
            kind: *kind,
        },
        ScribeError::InCommit { commit, cause } => ErrorView::InCommit {
            commit: commit@,
            cause: Box::new(error_view(&**cause)),
        },
        ScribeError::Database { message } => ErrorView::Database { message: message@ },
    }
}

impl View for ScribeError {
    type V = ErrorView;

    open spec fn view(&self) -> ErrorView {
        error_view(self)
    }
}

/// The first eight characters of a commit hash (all of it if shorter).
pub open spec fn short_hash(h: Seq<char>) -> Seq<char> {
    if h.len() <= 8 { h } else { h.take(8) }
}

/// The message of an error, as the command line prints it.
pub open spec fn spec_message(e: ErrorView) -> Seq<char> {
    match e {
        ErrorView::UnsupportedFormat { path } =>
            "Unsupported file format. Only .json and .csv files are supported. Got: "@ + path,
        ErrorView::NotUtf8 => "File content is not valid UTF-8"@,
        ErrorView::InvalidJson => "Failed to parse JSON"@,
        ErrorView::JsonRootNotArray { kind } =>
            "JSON root element must be an array of objects. Got: "@ + kind_name(kind),
        ErrorView::JsonItemNotObject { index } =>
            "JSON array item at index "@ + dec_text(index) + " is not an object. Expected array of objects."@,
        ErrorView::CsvHeaders => "Failed to read CSV headers"@,
        ErrorView::CsvRecord { row } => "Failed to read CSV record at row "@ + dec_text(row),
        ErrorView::CsvMissingColumn => "CSV record has fewer columns than headers"@,
        ErrorView::MissingPrimaryKey { key } =>
            "Primary key column '"@ + key + "' not found in item"@,
        ErrorView::InvalidTransform => "Invalid JMESPath expression"@,
        ErrorView::TransformFailed => "Failed to apply JMESPath transformation"@,
        ErrorView::TransformOutputUnreadable => "Failed to convert JMESPath result to JSON"@,
        ErrorView::TransformNotArray { kind } =>
            "JMESPath expression must return an array, got: "@ + kind_name(kind),
        ErrorView::TransformItemNotObject { index, kind } =>
            "JMESPath expression must return array of objects, but element "@ + dec_text(index)
                + " is: "@ + kind_name(kind),
        ErrorView::InCommit { commit, cause } =>
            "Failed to parse file content in commit "@ + short_hash(commit),
        ErrorView::Database { message } => message,
    }
}

fn start(lit: &str) -> (s: String)
    ensures
        s@ == lit@,
{
    lit.to_string()
}

impl ScribeError {
    /// The message of the error, as the command line prints it.
    pub fn message(&self) -> (m: String)
        ensures
            m@ == spec_message(self@),
    {
        match self {
            ScribeError::UnsupportedFormat { path } => {
                let mut m = start("Unsupported file format. Only .json and .csv files are supported. Got: ");
                m.append(path.as_str());
                m
            },
            ScribeError::NotUtf8 => start("File content is not valid UTF-8"),
            ScribeError::InvalidJson => start("Failed to parse JSON"),
            ScribeError::JsonRootNotArray { kind } => {
                let mut m = start("JSON root element must be an array of objects. Got: ");
                m.append(kind_name_str(*kind));
                m
            },
            ScribeError::JsonItemNotObject { index } => {
                let mut m = start("JSON array item at index ");
                let n = usize_text(*index);
                m.append(n.as_str());
                m.append(" is not an object. Expected array of objects.");
                m
            },
            ScribeError::CsvHeaders => start("Failed to read CSV headers"),
            ScribeError::CsvRecord { row } => {
                let mut m = start("Failed to read CSV record at row ");
                let n = usize_text(*row);
                m.append(n.as_str());
                m
            },
            ScribeError::CsvMissingColumn => start("CSV record has fewer columns than headers"),
            ScribeError::MissingPrimaryKey { key } => {
                let mut m = start("Primary key column '");
                m.append(key.as_str());
                m.append("' not found in item");
                m
            },
            ScribeError::InvalidTransform => start("Invalid JMESPath expression"),
            ScribeError::TransformFailed => start("Failed to apply JMESPath transformation"),
            ScribeError::TransformOutputUnreadable => start("Failed to convert JMESPath result to JSON"),
            ScribeError::TransformNotArray { kind } => {
                let mut m = start("JMESPath expression must return an array, got: ");
                m.append(kind_name_str(*kind));
                m
            },
            ScribeError::TransformItemNotObject { index, kind } => {
                let mut m = start("JMESPath expression must return array of objects, but element ");
                let n = usize_text(*index);
                m.append(n.as_str());
                m.append(" is: ");
                m.append(kind_name_str(*kind));
                m
            },
            ScribeError::InCommit { commit, cause: _ } => {
                let mut m = start("Failed to parse file content in commit ");
                let n = commit.as_str().unicode_len();
                if n <= 8 {
                    m.append(commit.as_str());
                } else {
                    m.append(commit.as_str().substring_char(0, 8));
                }
                m
            },
            ScribeError::Database { message } => message.clone(),
        }
    }
}

} // verus!
