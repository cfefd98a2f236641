use vstd::prelude::*;

verus! {

/// Why a planning run fails.  Every planning-phase error is fatal to the whole
/// run: no partial plan is ever handed to the apply step.
#[derive(Debug, PartialEq, Eq)]
pub enum Error {
    /// A target directory that the traversal would have to descend into is not
    /// writable.
    PermissionDenied { target: Vec<String> },
    /// Stowing would have to overwrite an unrelated file or a foreign symlink.
    TargetExists { target: Vec<String> },
    /// The same traversal recorded two different link values for one target.
    DuplicateTarget { target: Vec<String>, existing: Vec<String>, incoming: Vec<String> },
    /// Two packages claim the same target with different link values.
    CrossPackageConflict { target: Vec<String>, value_a: Vec<String>, value_b: Vec<String> },
    /// Unstowing refuses to touch an ordinary file it does not manage.
    NotSymlinkOrDir { target: Vec<String> },
    /// A source entry had to be listed but is not a readable directory.
    SourceUnreadable { source: Vec<String> },
    /// The canonical package and target roots share no common ancestor.
    NoCommonRoot,
}

/// The mathematical shape of an [`Error`]: every path becomes the sequence of
/// the character sequences of its components.
pub enum ErrorView {
    PermissionDenied { target: Seq<Seq<char>> },
    TargetExists { target: Seq<Seq<char>> },
    DuplicateTarget { target: Seq<Seq<char>>, existing: Seq<Seq<char>>, incoming: Seq<Seq<char>> },
    CrossPackageConflict { target: Seq<Seq<char>>, value_a: Seq<Seq<char>>, value_b: Seq<Seq<char>> },
    NotSymlinkOrDir { target: Seq<Seq<char>> },
    SourceUnreadable { source: Seq<Seq<char>> },
    NoCommonRoot,
}

impl View for Error {
    type V = ErrorView;

    open spec fn view(&self) -> ErrorView {
        match self {
            Error::PermissionDenied { target } => ErrorView::PermissionDenied {
                target: target.deep_view(),
            },
            Error::TargetExists { target } => ErrorView::TargetExists {
                target: target.deep_view(),
            },
            Error::DuplicateTarget { target, existing, incoming } => ErrorView::DuplicateTarget {
                target: target.deep_view(),
                existing: existing.deep_view(),
                incoming: incoming.deep_view(),
            },
            Error::CrossPackageConflict { target, value_a, value_b } => ErrorView::CrossPackageConflict {
                target: target.deep_view(),
                value_a: value_a.deep_view(),
                value_b: value_b.deep_view(),
            },
            Error::NotSymlinkOrDir { target } => ErrorView::NotSymlinkOrDir {
                target: target.deep_view(),
            },
            Error::SourceUnreadable { source } => ErrorView::SourceUnreadable {
                source: source.deep_view(),
            },
            Error::NoCommonRoot => ErrorView::NoCommonRoot,
        }
    }
}

} // verus!
