//! One run: from the configuration and the file, as it was read, to the
//! lines to print.
//!
//! The library reads no file. Its caller reads the file that the
//! configuration names and hands over the text, or the reason why there is
//! none.

use crate::config::Config;
use crate::search::matching_lines;
use crate::search::matching_lines_folded;
use crate::search::search;
use crate::search::search_insensitive;
use vstd::prelude::*;
use vstd::string::StringExecFns;

verus! {

/// Why the file could not be read as text.
#[derive(Debug, Clone, Copy, PartialEq, Eq, Structural)]
pub enum FileAccessKind {
    /// There is no file at the path.
    NotFound,
    /// The file may not be read.
    PermissionDenied,
    /// The file does not hold valid UTF-8.
    InvalidEncoding,
    /// Reading failed for another reason.
    Other,
}

/// The failure to read the file: its kind, and the message of the system.
#[derive(Debug)]
pub struct FileAccessError {
    /// The kind of the failure.
    pub kind: FileAccessKind,
    /// The cause in words.
    pub message: String,
}

/// The line printed above the matching lines.
pub open spec fn banner_text() -> Seq<char> {
    "-------------------------lines found-------------------------"@
}

/// The beginning of the line printed where no line matches.
pub open spec fn notice_prefix() -> Seq<char> {
    "No matching content found for query: "@
}

/// The lines of `contents` that the configuration asks for: those that
/// contain the query, with case ignored exactly when `ignore_case` is set.
pub open spec fn matches_of(config: Config, contents: Seq<char>) -> Seq<Seq<char>> {
    if config.ignore_case {
        matching_lines_folded(config.query@, contents)
    } else {
        matching_lines(config.query@, contents)
    }
}

/// The lines to print for `contents`: the banner and the matching lines in
/// their order, or, where no line matches, one notice that names the query.
pub open spec fn report_of(config: Config, contents: Seq<char>) -> Seq<Seq<char>> {
    let found = matches_of(config, contents);
    if found.len() == 0 {
        seq![notice_prefix() + config.query@]
    } else {
        seq![banner_text()] + found
    }
}

/// Searches the text of the file as the configuration asks, and returns the
/// lines to print.
///
/// `loaded` is the text of the file named by `config.file_name`, or the
/// failure to read it. A failure comes back as it is and nothing is to
/// print: neither a match nor the notice that there is none.
pub fn run(config: &Config, loaded: Result<&str, FileAccessError>) -> (outcome: Result<
    Vec<String>,
    FileAccessError,
>)
    ensures
        match loaded {
            Ok(contents) => outcome is Ok && outcome->Ok_0.deep_view() == report_of(
                *config,
                contents@,
            ),
            Err(failure) => outcome == Err::<Vec<String>, FileAccessError>(failure),
        },
{
    let contents = match loaded {
        Ok(contents) => contents,
        Err(failure) => {
            return Err(failure);
        },
    };
    let query = config.query.as_str();
    let found = if config.ignore_case {
        search_insensitive(query, contents)
    } else {
        search(query, contents)
    };
    let mut report: Vec<String> = Vec::new();
    if found.len() == 0 {
        let notice = String::from_str("No matching content found for query: ").concat(query);
        report.push(notice);
    } else {
        report.push(
            String::from_str("-------------------------lines found-------------------------"),
        );
        let mut i: usize = 0;
        while i < found.len()
            invariant
                i <= found.len(),
                report.deep_view() == seq![banner_text()] + found.deep_view().take(i as int),
            decreases found.len() - i,
        {
            let ghost before = report.deep_view();
            report.push(found[i].to_owned());
            assert(report.deep_view() =~= before.push(found[i as int]@));
            assert(found.deep_view().take(i + 1) =~= found.deep_view().take(i as int).push(
                found[i as int]@,
            ));
            i += 1;
        }
    }
    Ok(report)
}

} // verus!
