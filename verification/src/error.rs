use vstd::prelude::*;

verus! {

/// The error kinds surfaced by the mark store and the resolution engine.
#[derive(Debug, Clone)]
pub enum HuntersMarkError {
    /// No mark qualified for the given key or query.
    MarkNotFound(String),
    /// An add was attempted on a path that already carries a mark.
    /// Holds the offered name and the already-marked path.
    MarkAlreadyExists(String, String),
    /// A mark name failed the allowed-character or non-empty rule.
    /// Holds the offending name and a human-readable reason.
    InvalidMarkName(String, String),
    /// The path handed to an add does not exist on disk, or a resolved
    /// mark points at a directory that has since vanished.
    DirectoryNotFound(String),
}

/// Mathematical image of `HuntersMarkError`: the same variants over
/// character sequences.
pub ghost enum ErrorView {
    MarkNotFound(Seq<char>),
    MarkAlreadyExists(Seq<char>, Seq<char>),
    InvalidMarkName(Seq<char>, Seq<char>),
    DirectoryNotFound(Seq<char>),
}

impl View for HuntersMarkError {
    type V = ErrorView;

    open spec fn view(&self) -> ErrorView {
        match self {
            HuntersMarkError::MarkNotFound(q) => ErrorView::MarkNotFound(q@),
            HuntersMarkError::MarkAlreadyExists(n, p) => ErrorView::MarkAlreadyExists(n@, p@),
            HuntersMarkError::InvalidMarkName(n, r) => ErrorView::InvalidMarkName(n@, r@),
            HuntersMarkError::DirectoryNotFound(p) => ErrorView::DirectoryNotFound(p@),
        }
    }
}

} // verus!
