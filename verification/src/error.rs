//! The typed failures of the crate.
use vstd::prelude::*;

verus! {

/// A typed failure. Every malformed, missing or conflicting input ends in one of these: nothing is
/// absorbed into an empty value.
#[allow(inconsistent_fields)]
#[derive(Clone, PartialEq, Eq, Debug)]
pub enum Error {
    /// A value or a byte string that is not what it has to be.
    Invalid { what: String, detail: String },
    /// A declared action input that is missing at a read boundary.
    InputMissing { what: String, detail: String },
    /// A thing that is known to be absent.
    NotFound { what: String, detail: String },
    /// Two declarations that exclude each other.
    Conflict { what: String, detail: String },
    /// A form that is reserved or not supported.
    Unsupported { what: &'static str, detail: String },
}

/// What an [`Error`] says: its kind and its two texts.
pub enum ErrorView {
    Invalid { what: Seq<char>, detail: Seq<char> },
    InputMissing { what: Seq<char>, detail: Seq<char> },
    NotFound { what: Seq<char>, detail: Seq<char> },
    Conflict { what: Seq<char>, detail: Seq<char> },
    Unsupported { what: Seq<char>, detail: Seq<char> },
}

impl View for Error {
    type V = ErrorView;

    open spec fn view(&self) -> ErrorView {
        match *self {
            Error::Invalid { what, detail } => ErrorView::Invalid { what: what@, detail: detail@ },
            Error::InputMissing { what, detail } => ErrorView::InputMissing {
                what: what@,
                detail: detail@,
            },
            Error::NotFound { what, detail } => ErrorView::NotFound {
                what: what@,
                detail: detail@,
            },
            Error::Conflict { what, detail } => ErrorView::Conflict {
                what: what@,
                detail: detail@,
            },
            Error::Unsupported { what, detail } => ErrorView::Unsupported {
                what: what@,
                detail: detail@,
            },
        }
    }
}

/// The view of a result: that of its value or that of its error.
pub open spec fn result_view<T: View, E: View>(r: Result<T, E>) -> Result<T::V, E::V> {
    match r {
        Ok(v) => Ok(v@),
        Err(e) => Err(e@),
    }
}

/// `Error::Invalid` with the given texts.
pub fn invalid(what: &str, detail: &str) -> (e: Error)
    ensures
        e@ == (ErrorView::Invalid { what: what@, detail: detail@ }),
{
    Error::Invalid { what: what.to_owned(), detail: detail.to_owned() }
}

/// An error is seen as what it is: its kind and its two texts.
pub proof fn law_error_keeps_kind_and_texts(e: Error)
    ensures
        match e {
            Error::Invalid { what, detail } => e@ == (ErrorView::Invalid {
                what: what@,
                detail: detail@,
            }),
            Error::InputMissing { what, detail } => e@ == (ErrorView::InputMissing {
                what: what@,
                detail: detail@,
            }),
            Error::NotFound { what, detail } => e@ == (ErrorView::NotFound {
                what: what@,
                detail: detail@,
            }),
            Error::Conflict { what, detail } => e@ == (ErrorView::Conflict {
                what: what@,
                detail: detail@,
            }),
            Error::Unsupported { what, detail } => e@ == (ErrorView::Unsupported {
                what: what@,
                detail: detail@,
            }),
        },
{
}

/// The view of a result keeps success apart from failure, and each its content.
pub proof fn law_result_view_keeps_the_outcome<T: View, E: View>(v: T, e: E)
    ensures
        result_view(Ok::<T, E>(v)) == Ok::<T::V, E::V>(v@),
        result_view(Err::<T, E>(e)) == Err::<T::V, E::V>(e@),
{
}

} // verus!
