use vstd::prelude::*;

verus! {

/// The error value that `regex-automata` reports for a pattern it cannot
/// compile.
#[verifier::external_type_specification]
#[verifier::external_body]
pub struct ExRegexBuildError(regex_automata::meta::BuildError);

/// Fatal query, decoding, archive, limit or index failure.
#[derive(Debug)]
pub enum Error {
    /// Empty patterns are rejected to avoid accidental match-everywhere work.
    EmptyQuery,
    /// A regular expression could not be compiled.
    Regex(regex_automata::meta::BuildError),
    /// An explicit encoding label is not recognized.
    InvalidEncoding(String),
    /// A source, decoder or index read failed.
    Io {
        /// Source or virtual member path.
        path: String,
        /// Failure detail.
        message: String,
    },
    /// An archive could not be inspected safely.
    Archive {
        /// Archive or virtual member path.
        path: String,
        /// Failure detail.
        message: String,
    },
    /// A configured source or decoded-content limit was exceeded.
    Limit {
        /// Source or virtual member path.
        path: String,
        /// Limit detail.
        message: String,
    },
    /// A persistent index is malformed, inconsistent or over a limit.
    Index {
        /// Index path.
        path: String,
        /// Failure detail.
        message: String,
    },
}

/// The text of a regular-expression build failure, as `regex-automata`
/// displays it.
#[verifier::external_body]
fn regex_error_text(error: &regex_automata::meta::BuildError) -> (text: String)
{
    error.to_string()
}

/// The human-readable form of a failure with its path and detail, for the
/// variants whose text the library composes itself.
pub open spec fn error_text(error: Error) -> Seq<char> {
    match error {
        Error::EmptyQuery => "search query must not be empty"@,
        Error::Regex(_) => "invalid regular expression: "@,
        Error::InvalidEncoding(label) => "unknown encoding label: "@ + label@,
        Error::Io { path, message } => "failed to read "@ + path@ + ": "@ + message@,
        Error::Archive { path, message } => "failed to search archive "@ + path@ + ": "@ + message@,
        Error::Limit { path, message } => "search limit reached for "@ + path@ + ": "@ + message@,
        Error::Index { path, message } => "invalid index "@ + path@ + ": "@ + message@,
    }
}

fn framed(prefix: &str, path: &String, message: &String) -> (text: String)
    ensures
        text@ == prefix@ + path@ + ": "@ + message@,
{
    let mut text = String::from_str(prefix);
    text.append(path.as_str());
    text.append(": ");
    text.append(message.as_str());
    proof {
        assert(text@ =~= prefix@ + path@ + ": "@ + message@);
    }
    text
}

impl Error {
    /// The human-readable form of this failure. A regular-expression
    /// failure continues with the compiler's own explanation.
    pub fn describe(&self) -> (text: String)
        ensures
            !(self is Regex) ==> text@ == error_text(*self),
            self is Regex ==> text@.len() >= error_text(*self).len()
                && text@.subrange(0, error_text(*self).len() as int) == error_text(*self),
    {
        match self {
            Error::EmptyQuery => String::from_str("search query must not be empty"),
            Error::Regex(error) => {
                let mut text = String::from_str("invalid regular expression: ");
                let detail = regex_error_text(error);
                let ghost head = text@;
                text.append(detail.as_str());
                proof {
                    assert(text@.subrange(0, head.len() as int) =~= head);
                }
                text
            }
            Error::InvalidEncoding(label) => {
                let mut text = String::from_str("unknown encoding label: ");
                text.append(label.as_str());
                text
            }
            Error::Io { path, message } => framed("failed to read ", path, message),
            Error::Archive { path, message } => framed("failed to search archive ", path, message),
            Error::Limit { path, message } => framed("search limit reached for ", path, message),
            Error::Index { path, message } => framed("invalid index ", path, message),
        }
    }
}

/// Result type returned by search operations.
pub type Result<T> = core::result::Result<T, Error>;

} // verus!
