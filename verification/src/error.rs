//! Why a range message could not be loaded.

use vstd::prelude::*;

verus! {

/// The error type of `std::io`, opaque to the verifier.
#[verifier::external_type_specification]
#[verifier::external_body]
pub struct ExIoError(std::io::Error);

/// Why a range message could not be loaded.
#[derive(Debug)]
pub enum IsbnRangeError {
    /// The document ends before an `ISBNRangeMessage` element starts.
    NoIsbnRangeMessageTag,
    /// Another element stands where `EAN.UCCPrefixes` should.
    NoEanUccPrefixes,
    /// Another element stands where `EAN.UCC` should.
    NoEanUccPrefix,
    /// Another element stands where `RegistrationGroups` should.
    NoRegistrationGroups,
    /// Another element stands where `Group` should.
    NoGroup,
    /// The message has no date.
    NoMessageDate,
    /// A prefix has more places than its element allows.
    PrefixTooLong,
    /// A prefix holds a character that is no digit.
    InvalidPrefixChar,
    /// A length is not a single digit.
    BadLengthString,
    /// A length is more than seven.
    LengthTooLarge,
    /// A bound of a range is not a number.
    BadRange,
    /// A range has no dash between its bounds.
    NoDashInRange,
    /// The document is not XML.
    Xml(quick_xml::Error),
    /// Another element starts than the one expected.
    WrongXmlStart,
    /// No element starts where one should.
    MissingXmlStart,
    /// An element holds something other than text.
    WrongXmlBody,
    /// Another element ends than the one expected.
    WrongXmlEnd,
    /// No element ends where one should.
    MissingXmlEnd,
    /// The file could not be read.
    FileError(std::io::Error),
}

impl From<quick_xml::Error> for IsbnRangeError {
    fn from(e: quick_xml::Error) -> (error: Self) {
        Self::Xml(e)
    }
}

impl vstd::std_specs::convert::FromSpecImpl<quick_xml::Error> for IsbnRangeError {
    open spec fn obeys_from_spec() -> bool {
        true
    }

    open spec fn from_spec(e: quick_xml::Error) -> Self {
        IsbnRangeError::Xml(e)
    }
}

impl From<std::io::Error> for IsbnRangeError {
    fn from(e: std::io::Error) -> (error: Self) {
        Self::FileError(e)
    }
}

impl vstd::std_specs::convert::FromSpecImpl<std::io::Error> for IsbnRangeError {
    open spec fn obeys_from_spec() -> bool {
        true
    }

    open spec fn from_spec(e: std::io::Error) -> Self {
        IsbnRangeError::FileError(e)
    }
}

} // verus!
