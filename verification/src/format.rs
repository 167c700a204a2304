//! Detection of the tracked file's format from its path.
use vstd::prelude::*;
use crate::text::{has_suffix, str_ends_with};
use crate::error::{ScribeError, ErrorView};

verus! {

/// The format of the tracked file.
#[derive(Debug, Clone, Copy, PartialEq, Eq, Structural)]
pub enum FileFormat {
    Json,
    Csv,
}

pub open spec fn json_suffix() -> Seq<char> {
    seq!['.', 'j', 's', 'o', 'n']
}

pub open spec fn csv_suffix() -> Seq<char> {
    seq!['.', 'c', 's', 'v']
}

/// The format that a path names, if it names one.
pub open spec fn spec_format_of(path: Seq<char>) -> Option<FileFormat> {
    if has_suffix(path, json_suffix()) {
        Some(FileFormat::Json)
    } else if has_suffix(path, csv_suffix()) {
        Some(FileFormat::Csv)
    } else {
        None
    }
}

impl FileFormat {
    /// Detect the file format from the file path extension: `.json` or `.csv`.
    /// Any other path is refused with the path in the error.
    pub fn from_path(path: &str) -> (r: Result<FileFormat, ScribeError>)
        ensures
            match r {
                Ok(f) => spec_format_of(path@) == Some(f),
                Err(e) => spec_format_of(path@) is None && e@ == (ErrorView::UnsupportedFormat { path: path@ }),
            },
    {
        let json = ".json";
        let csv = ".csv";
        proof {
            reveal_strlit(".json");
            reveal_strlit(".csv");
        }
        assert(json@ =~= json_suffix());
        assert(csv@ =~= csv_suffix());
        if str_ends_with(path, json) {
            Ok(FileFormat::Json)
        } else if str_ends_with(path, csv) {
            Ok(FileFormat::Csv)
        } else {
            Err(ScribeError::UnsupportedFormat { path: path.to_string() })
        }
    }
}

} // verus!
