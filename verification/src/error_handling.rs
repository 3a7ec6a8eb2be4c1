//! Source locations and located errors.
//!
//! A [`Location`] names the grammar file and the 1-based line a rule was
//! declared on; line 0 stands for the file as a whole. An [`Error`] pairs
//! a location with an error value, so that diagnostics can point at the
//! offending line.

use vstd::prelude::*;

verus! {

/// Marker for the error enums that can be carried by [`Error`].
pub trait ErrorType: PartialEq {

}

/// Where in a grammar file something was declared or went wrong:
/// a file name and a 1-based line number, with line 0 meaning the
/// file as a whole rather than any one line.
#[derive(Debug, PartialEq)]
pub struct Location {
    /// The grammar file's name.
    pub file: String,
    /// 1-based line number; 0 means the whole file.
    pub line: usize,
}

/// The mathematical value of a [`Location`].
pub struct LocationModel {
    /// The file name's characters.
    pub file: Seq<char>,
    /// 1-based line number; 0 means the whole file.
    pub line: nat,
}

impl DeepView for Location {
    type V = LocationModel;

    open spec fn deep_view(&self) -> LocationModel {
        LocationModel { file: self.file@, line: self.line as nat }
    }
}

impl Clone for Location {
    fn clone(&self) -> (r: Location)
        ensures
            r == *self,
    {
        Location { file: self.file.clone(), line: self.line }
    }
}

/// An error value together with the location it arose at.
#[derive(Debug, PartialEq)]
pub struct Error<T: ErrorType> {
    /// Where the error arose.
    pub location: Location,
    /// What went wrong.
    pub error: T,
}

/// The mathematical value of an [`Error`]: a located error value.
pub struct ErrorModel<E> {
    /// Where the error arose.
    pub location: LocationModel,
    /// What went wrong.
    pub error: E,
}

impl<T: ErrorType + DeepView> DeepView for Error<T> {
    type V = ErrorModel<T::V>;

    open spec fn deep_view(&self) -> ErrorModel<T::V> {
        ErrorModel { location: self.location.deep_view(), error: self.error.deep_view() }
    }
}

/// A list of located errors.
pub type Errors<T> = Vec<Error<T>>;

} // verus!
