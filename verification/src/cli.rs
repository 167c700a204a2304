//! What the command line asks for, and the header that a verbose run prints.
use vstd::prelude::*;
use crate::db::{join, join_strings};
use crate::sort::views;

verus! {

/// The command line's arguments.
#[derive(Debug)]
pub struct Cli {
    /// Path to the SQLite database file (created if it does not exist).
    pub db_path: String,
    /// Path to the tracked file in the Git repository.
    pub file_in_git: String,
    /// The column(s) that identify an item; several make a composite key.
    pub primary_key: Vec<String>,
    /// Path to the Git repository.
    pub repo_path: String,
    /// How many times `-v` was given.
    pub verbose: u8,
    /// A JMESPath expression to apply to the parsed items.
    pub transform: Option<String>,
}

/// The lines of the header of a verbose run.
pub open spec fn banner_lines(db_path: Seq<char>, file: Seq<char>, keys: Seq<Seq<char>>, repo: Seq<char>) -> Seq<Seq<char>> {
    seq![
        "Scribe v1.0.0 - High-Performance Git History Database Extractor"@,
        "============================================================="@,
        "Database: "@ + db_path,
        "File: "@ + file,
        "Primary key(s): "@ + join(keys, ", "@),
        "Repository: "@ + repo,
        Seq::empty(),
    ]
}

fn prefixed(prefix: &str, rest: &str) -> (s: String)
    ensures
        s@ == prefix@ + rest@,
{
    let mut s = prefix.to_string();
    s.append(rest);
    s
}

impl Cli {
    /// The header that a verbose run prints, line by line (the last line is empty).
    pub fn banner(&self) -> (lines: Vec<String>)
        ensures
            views(lines@) == banner_lines(self.db_path@, self.file_in_git@, views(self.primary_key@), self.repo_path@),
    {
        let keys = join_strings(&self.primary_key, ", ");
        let mut lines: Vec<String> = Vec::new();
        lines.push("Scribe v1.0.0 - High-Performance Git History Database Extractor".to_string());
        lines.push("=============================================================".to_string());
        lines.push(prefixed("Database: ", self.db_path.as_str()));
        lines.push(prefixed("File: ", self.file_in_git.as_str()));
        lines.push(prefixed("Primary key(s): ", keys.as_str()));
        lines.push(prefixed("Repository: ", self.repo_path.as_str()));
        lines.push(String::new());
        assert(views(lines@) =~= banner_lines(self.db_path@, self.file_in_git@, views(self.primary_key@), self.repo_path@));
        lines
    }
}

} // verus!
