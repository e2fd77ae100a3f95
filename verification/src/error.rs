use vstd::prelude::*;

verus! {

/// Whether a file access failed while reading or while writing.
#[derive(Debug, Clone, PartialEq, Eq)]
pub enum PermissionType {
    Read,
    Write,
}

/// Every failure the search pipeline reports to its caller.
///
/// Each kind is distinct on purpose: a malformed cache file is not a missing
/// one, a blocked discovery request is not an empty result, and an empty site
/// directory is not "no results for this query".
#[derive(Debug, Clone, PartialEq, Eq)]
pub enum Error {
    /// A request could not be sent or its transfer failed.
    Transport(String),
    /// A response could not be decoded as the platform's wire format.
    Decode(String),
    /// The platform API answered in an unexpected way.
    StackExchange(String),
    /// A discovery result page could not be used; also raised when a
    /// provider that never returns zero matches did exactly that.
    Scraping(String),
    /// A local file exists but does not parse; the user should remove it.
    MalformedFile(String),
    /// A file could not be opened with the needed access.
    Permissions(PermissionType, String),
    /// No suitable project directory exists on this system.
    ProjectDir,
    /// The site directory, cached or remote, contains no sites at all.
    EmptySites,
    /// The pipeline ran, but the merged result list is empty.
    NoResults,
}

impl Error {
    /// A short, user-facing description of the error kind.
    pub fn message(&self) -> (r: String)
        ensures
            r@.len() > 0,
            self is Transport ==> r@ == "network request failed"@,
            self is Decode ==> r@ == "response could not be decoded"@,
            self is StackExchange ==> r@ == "unexpected platform response"@,
            self is Scraping ==> r@ == "search result page could not be used"@,
            self is MalformedFile ==> r@ == "file is malformed; try removing it"@,
            self is Permissions ==> r@ == "lacking file permissions"@,
            self is ProjectDir ==> r@ == "no suitable project directory found"@,
            self is EmptySites ==> r@ == "the site directory is empty"@,
            self is NoResults ==> r@ == "sorry, couldn't find any answers to your question"@,
    {
        let r = match self {
            Error::Transport(_) => String::from_str("network request failed"),
            Error::Decode(_) => String::from_str("response could not be decoded"),
            Error::StackExchange(_) => String::from_str("unexpected platform response"),
            Error::Scraping(_) => String::from_str("search result page could not be used"),
            Error::MalformedFile(_) => String::from_str("file is malformed; try removing it"),
            Error::Permissions(_, _) => String::from_str("lacking file permissions"),
            Error::ProjectDir => String::from_str("no suitable project directory found"),
            Error::EmptySites => String::from_str("the site directory is empty"),
            Error::NoResults => String::from_str(
                "sorry, couldn't find any answers to your question",
            ),
        };
        proof {
            reveal_strlit("network request failed");
            reveal_strlit("response could not be decoded");
            reveal_strlit("unexpected platform response");
            reveal_strlit("search result page could not be used");
            reveal_strlit("file is malformed; try removing it");
            reveal_strlit("lacking file permissions");
            reveal_strlit("no suitable project directory found");
            reveal_strlit("the site directory is empty");
            reveal_strlit("sorry, couldn't find any answers to your question");
        }
        r
    }
}

pub type SearchResult<T> = Result<T, Error>;

} // verus!
