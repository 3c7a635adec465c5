use std::str::FromStr;

use isbn2::{Isbn, Isbn10, Isbn13, IsbnError};

#[test]
fn isbn10_digits_are_checked() {
    assert!(Isbn10::new([8, 9, 6, 6, 2, 6, 1, 2, 6, 4]).is_ok());
    assert!(Isbn10::new([0, 9, 7, 5, 2, 2, 9, 8, 0, 10]).is_ok());
    assert_eq!(
        Isbn10::new([8, 9, 6, 6, 2, 6, 1, 2, 6, 5]),
        Err(IsbnError::InvalidChecksum)
    );
    assert_eq!(
        Isbn10::new([8, 9, 6, 6, 2, 6, 1, 2, 10, 4]),
        Err(IsbnError::DigitTooLarge)
    );
    assert_eq!(
        Isbn10::new([8, 9, 6, 6, 2, 6, 1, 2, 6, 11]),
        Err(IsbnError::DigitTooLarge)
    );
}

#[test]
fn isbn13_digits_are_checked() {
    assert!(Isbn13::new([9, 7, 8, 1, 4, 9, 2, 0, 6, 7, 6, 6, 5]).is_ok());
    assert_eq!(
        Isbn13::new([9, 7, 8, 1, 4, 9, 2, 0, 6, 7, 6, 6, 6]),
        Err(IsbnError::InvalidChecksum)
    );
    assert_eq!(
        Isbn13::new([9, 7, 8, 1, 4, 9, 2, 0, 6, 7, 6, 6, 10]),
        Err(IsbnError::DigitTooLarge)
    );
}

#[test]
fn texts_are_read() {
    let isbn_10 = Isbn10::new([0, 9, 7, 5, 2, 2, 9, 8, 0, 10]).unwrap();
    let isbn_13 = Isbn13::new([9, 7, 8, 3, 1, 6, 1, 4, 8, 4, 1, 0, 0]).unwrap();
    assert_eq!(Isbn::from_str("0-9752298-0-X"), Ok(Isbn::_10(isbn_10)));
    assert_eq!(Isbn::parse("097522980X"), Ok(Isbn::_10(isbn_10)));
    assert_eq!(Isbn::from_str("978-3-16-148410-0"), Ok(Isbn::_13(isbn_13)));
    assert_eq!(Isbn::parse("9783161484100"), Ok(Isbn::_13(isbn_13)));
}

#[test]
fn texts_are_refused() {
    assert_eq!(Isbn::parse(""), Err(IsbnError::InvalidLength));
    assert_eq!(Isbn::parse("978316148410"), Err(IsbnError::InvalidLength));
    assert_eq!(Isbn::parse("97831614841000"), Err(IsbnError::InvalidLength));
    assert_eq!(Isbn::parse("978 3161484100"), Err(IsbnError::InvalidDigit));
    assert_eq!(Isbn::parse("X975229800"), Err(IsbnError::InvalidDigit));
    assert_eq!(Isbn::parse("097522980X1"), Err(IsbnError::InvalidDigit));
    assert_eq!(Isbn::parse("0975229801"), Err(IsbnError::InvalidChecksum));
    assert_eq!(Isbn::parse("9783161484101"), Err(IsbnError::InvalidChecksum));
}
