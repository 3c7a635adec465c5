//! Hyphenation of ISBNs, and the names of their registration groups, by the ranges of the
//! International ISBN Agency's `RangeMessage.xml`.

pub mod document;
pub mod error;
pub mod framing;
pub mod hyphenated;
pub mod isbn;
pub mod laws;
pub mod loading;
pub mod lookup;
pub mod message;
pub mod numerals;
pub mod places;
pub mod range;
pub mod reading;
pub mod segment;
pub mod spelling;
pub mod tables;
pub mod xml;

pub use error::IsbnRangeError;
pub use isbn::{Group, Isbn, Isbn10, Isbn13, IsbnError, IsbnObject};
pub use range::IsbnRange;
pub use segment::Segment;
