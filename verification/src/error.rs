//! The errors that reading a document can give. All of them are values: none
//! stops a reader.

use crate::text::same_text;
use crate::tile::{TileInfo, TileInfoView};
use vstd::prelude::*;

verus! {

/// Why a value, a record or a header could not be read.
#[derive(Debug)]
pub enum DeserError {
    /// A pattern could not be used; it is held as it was written.
    RegexMatchFailed(String),
    /// A text was not read.
    ContentsNotParsed(String),
    /// A value is not of the kind that was asked for; the text says which.
    DataConvertFailed(String),
    /// The property `key` of a tile record holds a value of another kind
    /// than `expected`; `got` shows the value.
    TypeMismatch { key: String, expected: String, got: String },
    /// A number or a name stands for nothing; it is held as it was written.
    InvalidValue(String),
    /// A tile has no category to go to.
    NoCategory(TileInfo),
    /// A document could not be read from where it is kept.
    IOError,
    /// A document is not there.
    MissingFile,
    /// A value is not there.
    MissingValue,
    /// A line has no form that is read.
    Todo,
}

/// A `DeserError` as a mathematical value.
pub enum DeserErrorView {
    RegexMatchFailed(Seq<char>),
    ContentsNotParsed(Seq<char>),
    DataConvertFailed(Seq<char>),
    TypeMismatch { key: Seq<char>, expected: Seq<char>, got: Seq<char> },
    InvalidValue(Seq<char>),
    NoCategory(TileInfoView),
    IOError,
    MissingFile,
    MissingValue,
    Todo,
}

/// std's `std::io::Error`, carried as it is: nothing is read from it here.
#[verifier::external_type_specification]
#[verifier::external_body]
pub struct ExIoError(std::io::Error);

/// Why the program around the readers failed.
#[derive(Debug)]
pub enum AppError {
    /// A document could not be read from where it is kept.
    IOError(std::io::Error),
    /// Anything else.
    Todo,
}

/// The lines of a document that could not be read, each with its error.
pub type DeserErrorReports = Vec<(String, DeserError)>;

impl View for DeserError {
    type V = DeserErrorView;

    open spec fn view(&self) -> DeserErrorView {
        match self {
            DeserError::RegexMatchFailed(s) => DeserErrorView::RegexMatchFailed(s@),
            DeserError::ContentsNotParsed(s) => DeserErrorView::ContentsNotParsed(s@),
            DeserError::DataConvertFailed(s) => DeserErrorView::DataConvertFailed(s@),
            DeserError::TypeMismatch { key, expected, got } => DeserErrorView::TypeMismatch {
                key: key@,
                expected: expected@,
                got: got@,
            },
            DeserError::InvalidValue(s) => DeserErrorView::InvalidValue(s@),
            DeserError::NoCategory(tile) => DeserErrorView::NoCategory(tile@),
            DeserError::IOError => DeserErrorView::IOError,
            DeserError::MissingFile => DeserErrorView::MissingFile,
            DeserError::MissingValue => DeserErrorView::MissingValue,
            DeserError::Todo => DeserErrorView::Todo,
        }
    }
}

impl DeepView for DeserError {
    type V = DeserErrorView;

    open spec fn deep_view(&self) -> DeserErrorView {
        self@
    }
}

impl Clone for DeserError {
    /// A copy of the same variant with equal contents.
    fn clone(&self) -> (r: Self)
        ensures
            r@ == self@,
    {
        match self {
            DeserError::RegexMatchFailed(s) => DeserError::RegexMatchFailed(s.clone()),
            DeserError::ContentsNotParsed(s) => DeserError::ContentsNotParsed(s.clone()),
            DeserError::DataConvertFailed(s) => DeserError::DataConvertFailed(s.clone()),
            DeserError::TypeMismatch { key, expected, got } => DeserError::TypeMismatch {
                key: key.clone(),
                expected: expected.clone(),
                got: got.clone(),
            },
            DeserError::InvalidValue(s) => DeserError::InvalidValue(s.clone()),
            DeserError::NoCategory(tile) => DeserError::NoCategory(tile.clone()),
            DeserError::IOError => DeserError::IOError,
            DeserError::MissingFile => DeserError::MissingFile,
            DeserError::MissingValue => DeserError::MissingValue,
            DeserError::Todo => DeserError::Todo,
        }
    }
}

impl PartialEq for DeserError {
    /// Two errors are equal where they are of the same variant and hold
    /// equal contents.
    fn eq(&self, other: &Self) -> (r: bool) {
        match self {
            DeserError::RegexMatchFailed(a) => match other {
                DeserError::RegexMatchFailed(b) => same_text(a.as_str(), b.as_str()),
                _ => false,
            },
            DeserError::ContentsNotParsed(a) => match other {
                DeserError::ContentsNotParsed(b) => same_text(a.as_str(), b.as_str()),
                _ => false,
            },
            DeserError::DataConvertFailed(a) => match other {
                DeserError::DataConvertFailed(b) => same_text(a.as_str(), b.as_str()),
                _ => false,
            },
            DeserError::TypeMismatch { key, expected, got } => match other {
                DeserError::TypeMismatch { key: key2, expected: expected2, got: got2 } => {
                    same_text(key.as_str(), key2.as_str()) && same_text(
                        expected.as_str(),
                        expected2.as_str(),
                    ) && same_text(got.as_str(), got2.as_str())
                },
                _ => false,
            },
            DeserError::InvalidValue(a) => match other {
                DeserError::InvalidValue(b) => same_text(a.as_str(), b.as_str()),
                _ => false,
            },
            DeserError::NoCategory(a) => match other {
                DeserError::NoCategory(b) => a.eq(b),
                _ => false,
            },
            DeserError::IOError => match other {
                DeserError::IOError => true,
                _ => false,
            },
            DeserError::MissingFile => match other {
                DeserError::MissingFile => true,
                _ => false,
            },
            DeserError::MissingValue => match other {
                DeserError::MissingValue => true,
                _ => false,
            },
            DeserError::Todo => match other {
                DeserError::Todo => true,
                _ => false,
            },
        }
    }
}

impl vstd::std_specs::cmp::PartialEqSpecImpl for DeserError {
    open spec fn obeys_eq_spec() -> bool {
        true
    }

    open spec fn eq_spec(&self, other: &Self) -> bool {
        self@ == other@
    }
}

} // verus!
