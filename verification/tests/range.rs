use std::str::FromStr;

use isbn2::{Isbn, Isbn10, Isbn13, IsbnError, IsbnObject, IsbnRange, IsbnRangeError};

fn rule(range: &str, length: &str) -> String {
    format!(
        "<Rule>\n  <Range>{}</Range>\n  <Length>{}</Length>\n</Rule>\n",
        range, length
    )
}

fn rules(rules: &[(&str, &str)]) -> String {
    let mut text = String::from("<Rules>\n");
    for (range, length) in rules {
        text.push_str(&rule(range, length));
    }
    text.push_str("</Rules>\n");
    text
}

fn agency(element: &str, prefix: &str, name: &str, ranges: &[(&str, &str)]) -> String {
    format!(
        "<{}>\n<Prefix>{}</Prefix>\n<Agency>{}</Agency>\n{}</{}>\n",
        element,
        prefix,
        name,
        rules(ranges),
        element
    )
}

fn message(prefixes: &str, groups: &str) -> String {
    format!(
        "<?xml version=\"1.0\" encoding=\"utf-8\"?>\n<!DOCTYPE ISBNRangeMessage>\n\
         <ISBNRangeMessage>\n\
         <MessageSource>International ISBN Agency</MessageSource>\n\
         <MessageSerialNumber>1a2b3c</MessageSerialNumber>\n\
         <MessageDate>Thu, 14 May 2020 10:17:23 CEST</MessageDate>\n\
         <EAN.UCCPrefixes>\n{}</EAN.UCCPrefixes>\n\
         <RegistrationGroups>\n{}</RegistrationGroups>\n\
         </ISBNRangeMessage>\n",
        prefixes, groups
    )
}

fn prefixes() -> String {
    let mut text = agency(
        "EAN.UCC",
        "978",
        "International ISBN Agency",
        &[
            ("0000000-5999999", "1"),
            ("6000000-6499999", "3"),
            ("6500000-6599999", "2"),
            ("6600000-6999999", "0"),
            ("7000000-7999999", "1"),
            ("8000000-9499999", "2"),
            ("9500000-9899999", "3"),
            ("9900000-9989999", "4"),
            ("9990000-9999999", "5"),
        ],
    );
    text.push_str(&agency(
        "EAN.UCC",
        "979",
        "International ISBN Agency",
        &[
            ("0000000-0999999", "0"),
            ("1000000-1299999", "2"),
            ("1300000-7999999", "0"),
            ("8000000-8999999", "1"),
            ("9000000-9999999", "0"),
        ],
    ));
    text
}

fn groups() -> String {
    let mut text = agency(
        "Group",
        "978-0",
        "English language",
        &[
            ("0000000-1999999", "2"),
            ("2000000-2279999", "3"),
            ("7000000-8499999", "4"),
            ("8500000-8999999", "5"),
            ("9000000-9499999", "6"),
            ("9500000-9999999", "7"),
        ],
    );
    text.push_str(&agency(
        "Group",
        "978-1",
        "English language",
        &[("0000000-0099999", "3"), ("4000000-5499999", "4")],
    ));
    text.push_str(&agency(
        "Group",
        "978-3",
        "German language",
        &[("0400000-1999999", "2"), ("2000000-6999999", "3")],
    ));
    text.push_str(&agency(
        "Group",
        "978-89",
        "Korea, Republic",
        &[
            ("0000000-2499999", "2"),
            ("2500000-5499999", "3"),
            ("5500000-8499999", "4"),
        ],
    ));
    text.push_str(&agency(
        "Group",
        "978-99901",
        "Bahrain &amp; neighbours",
        &[("0000000-4999999", "2"), ("8000000-9999999", "7")],
    ));
    text.push_str(&agency(
        "Group",
        "979-10",
        "France",
        &[("0000000-1999999", "2")],
    ));
    text
}

fn load() -> IsbnRange {
    IsbnRange::from_file(message(&prefixes(), &groups()).as_bytes()).unwrap()
}

fn load_error(text: &str) -> IsbnRangeError {
    match IsbnRange::from_file(text.as_bytes()) {
        Ok(_) => panic!("the message was loaded"),
        Err(e) => e,
    }
}

fn hyphenate(range: &IsbnRange, text: &str) -> Result<String, IsbnError> {
    range
        .hyphenate_isbn(&Isbn::from_str(text).unwrap())
        .map(|hyphenated| hyphenated.as_str().to_string())
}

#[test]
fn test_isbn_range_opens() {
    assert!(IsbnRange::from_file(message(&prefixes(), &groups()).as_bytes()).is_ok());
}

#[test]
fn test_hyphenation() {
    let range = load();
    assert!(range
        .hyphenate_isbn(&Isbn::from_str("0-9752298-0-X").unwrap())
        .is_ok());
    assert!(range
        .hyphenate_isbn(&Isbn::from_str("978-3-16-148410-0").unwrap())
        .is_ok());
}

#[test]
fn documented_hyphenation() {
    let isbn_ranges = load();
    let isbn_10 = Isbn10::new([8, 9, 6, 6, 2, 6, 1, 2, 6, 4]).unwrap();
    let isbn_13 = Isbn13::new([9, 7, 8, 1, 4, 9, 2, 0, 6, 7, 6, 6, 5]).unwrap();
    assert_eq!(
        isbn_ranges.hyphenate_isbn(&Isbn::_10(isbn_10)).unwrap().as_str(),
        "89-6626-126-4"
    );
    assert_eq!(
        isbn_ranges.hyphenate_isbn(&Isbn::_13(isbn_13)).unwrap().as_str(),
        "978-1-4920-6766-5"
    );
    assert_eq!(isbn_ranges.hyphenate_isbn10(&isbn_10).unwrap().as_str(), "89-6626-126-4");
    assert_eq!(isbn_ranges.hyphenate_isbn13(&isbn_13).unwrap().as_str(), "978-1-4920-6766-5");
}

#[test]
fn documented_registration_groups() {
    let isbn_ranges = load();
    let isbn_10 = Isbn10::new([8, 9, 6, 6, 2, 6, 1, 2, 6, 4]).unwrap();
    let isbn_13 = Isbn13::new([9, 7, 8, 1, 4, 9, 2, 0, 6, 7, 6, 6, 5]).unwrap();
    assert_eq!(
        isbn_ranges.get_registration_group_isbn(&Isbn::_10(isbn_10)),
        Ok("Korea, Republic")
    );
    assert_eq!(
        isbn_ranges.get_registration_group_isbn(&Isbn::_13(isbn_13)),
        Ok("English language")
    );
    assert_eq!(isbn_ranges.get_registration_group_isbn10(&isbn_10), Ok("Korea, Republic"));
    assert_eq!(isbn_ranges.get_registration_group_isbn13(&isbn_13), Ok("English language"));
}

#[test]
fn hyphenated_text_is_exact() {
    let range = load();
    assert_eq!(hyphenate(&range, "097522980X"), Ok("0-9752298-0-X".to_string()));
    assert_eq!(hyphenate(&range, "9783161484100"), Ok("978-3-16-148410-0".to_string()));
}

#[test]
fn isbn10_is_hyphenated_like_its_isbn13() {
    let range = load();
    assert_eq!(hyphenate(&range, "316148410X"), Ok("3-16-148410-X".to_string()));
    assert_eq!(hyphenate(&range, "9783161484100"), Ok("978-3-16-148410-0".to_string()));
    assert_eq!(
        range.get_registration_group_isbn(&Isbn::from_str("316148410X").unwrap()),
        range.get_registration_group_isbn(&Isbn::from_str("9783161484100").unwrap())
    );
}

#[test]
fn hyphenation_reads_back_as_the_same_isbn() {
    let range = load();
    for text in ["097522980X", "9783161484100", "8966261264", "9781492067665"] {
        let isbn = Isbn::from_str(text).unwrap();
        let hyphenated = range.hyphenate_isbn(&isbn).unwrap();
        assert_eq!(Isbn::from_str(hyphenated.as_str()), Ok(isbn));
        let digits: String = hyphenated.as_str().chars().filter(|c| *c != '-').collect();
        assert_eq!(digits, text);
    }
}

#[test]
fn text_is_unescaped_and_trimmed() {
    let range = load();
    let isbn = Isbn::from_str("99901-04-19-0").unwrap();
    assert_eq!(range.get_registration_group_isbn(&isbn), Ok("Bahrain & neighbours"));
    assert_eq!(hyphenate(&range, "9990104190"), Ok("99901-04-19-0".to_string()));
    let spaced = message(
        &agency("EAN.UCC", " 978\n", "A", &[("  0000000-9999999 ", "\t1 ")]),
        &agency("Group", "978-3 ", "\n  German language  \n", &[("0-9999999", "2")]),
    );
    let range = IsbnRange::from_file(spaced.as_bytes()).unwrap();
    assert_eq!(
        range.get_registration_group_isbn(&Isbn::from_str("316148410X").unwrap()),
        Ok("German language")
    );
}

#[test]
fn no_hyphen_before_an_empty_publication() {
    let range = load();
    let isbn = Isbn::from_str("9990190003").unwrap();
    assert_eq!(range.hyphenate_isbn(&isbn).unwrap().as_str(), "99901-9000-3");
}

#[test]
fn unknown_prefix_is_an_invalid_group() {
    let range = load();
    let isbn = Isbn13::new([9, 7, 7, 0, 0, 0, 0, 0, 0, 0, 0, 0, 3]).unwrap();
    assert_eq!(range.hyphenate_isbn13(&isbn).map(|_| ()), Err(IsbnError::InvalidGroup));
    assert_eq!(range.get_registration_group_isbn13(&isbn), Err(IsbnError::InvalidGroup));
}

#[test]
fn unknown_registration_group_is_an_invalid_group() {
    let range = load();
    let isbn = Isbn::from_str("9782070000005").unwrap();
    assert_eq!(hyphenate(&range, "9782070000005"), Err(IsbnError::InvalidGroup));
    assert_eq!(range.get_registration_group_isbn(&isbn), Err(IsbnError::InvalidGroup));
}

#[test]
fn number_between_ranges_is_an_invalid_group() {
    let range = load();
    let isbn = Isbn::from_str("9780300000009").unwrap();
    assert_eq!(range.hyphenate_isbn(&isbn).map(|_| ()), Err(IsbnError::InvalidGroup));
    assert_eq!(range.get_registration_group_isbn(&isbn), Err(IsbnError::InvalidGroup));
}

#[test]
fn unused_range_is_undefined() {
    let range = load();
    let isbn = Isbn::from_str("9786600000008").unwrap();
    assert_eq!(range.hyphenate_isbn(&isbn).map(|_| ()), Err(IsbnError::UndefinedRange));
    assert_eq!(range.get_registration_group_isbn(&isbn), Err(IsbnError::UndefinedRange));
}

#[test]
fn stop_of_a_range_is_outside() {
    let text = message(
        &agency("EAN.UCC", "978", "A", &[("0000000-9999999", "1")]),
        &agency("Group", "978-0", "English language", &[("0000000-1000000", "2")]),
    );
    let range = IsbnRange::from_file(text.as_bytes()).unwrap();
    assert_eq!(hyphenate(&range, "9780100000001"), Err(IsbnError::InvalidGroup));
    assert_eq!(hyphenate(&range, "9780099999997"), Ok("978-0-09-999999-7".to_string()));
}

#[test]
fn first_range_decides() {
    let text = message(
        &agency("EAN.UCC", "978", "A", &[("0-5999999", "1"), ("0-9999999", "2")]),
        &agency("Group", "978-3", "German language", &[("0-9999999", "2"), ("0-9999999", "3")]),
    );
    let range = IsbnRange::from_file(text.as_bytes()).unwrap();
    assert_eq!(hyphenate(&range, "9783161484100"), Ok("978-3-16-148410-0".to_string()));
}

#[test]
fn later_agency_takes_the_place_of_an_earlier() {
    let mut prefixes = agency("EAN.UCC", "978", "A", &[("0-9999999", "2")]);
    prefixes.push_str(&agency("EAN.UCC", "978", "B", &[("0-9999999", "1")]));
    let mut groups = agency("Group", "978-3", "First", &[("0-9999999", "4")]);
    groups.push_str(&agency("Group", "978-3", "Second", &[("0-9999999", "2")]));
    let range = IsbnRange::from_file(message(&prefixes, &groups).as_bytes()).unwrap();
    assert_eq!(hyphenate(&range, "9783161484100"), Ok("978-3-16-148410-0".to_string()));
    assert_eq!(
        range.get_registration_group_isbn(&Isbn::from_str("9783161484100").unwrap()),
        Ok("Second")
    );
}

#[test]
fn plus_sign_before_a_bound_is_read() {
    let text = message(
        &agency("EAN.UCC", "978", "A", &[("+0-+9999999", "1")]),
        &agency("Group", "978-3", "German language", &[("0-4294967295", "2")]),
    );
    let range = IsbnRange::from_file(text.as_bytes()).unwrap();
    assert_eq!(hyphenate(&range, "9783161484100"), Ok("978-3-16-148410-0".to_string()));
}

#[test]
fn source_and_serial_number_need_not_be_readable() {
    let text = message(&prefixes(), &groups())
        .replace("<MessageSource>International ISBN Agency</MessageSource>\n", "<MessageSource/>")
        .replace("<MessageSerialNumber>1a2b3c</MessageSerialNumber>\n", "<!-- none -->");
    let range = IsbnRange::from_file(text.as_bytes()).unwrap();
    assert_eq!(hyphenate(&range, "9783161484100"), Ok("978-3-16-148410-0".to_string()));
}

#[test]
fn text_behind_the_groups_is_not_read() {
    let mut text = message(&prefixes(), &groups());
    text.push_str("<more></less>");
    assert!(IsbnRange::from_file(text.as_bytes()).is_ok());
}

#[test]
fn document_without_a_message() {
    assert!(matches!(load_error(""), IsbnRangeError::NoIsbnRangeMessageTag));
    assert!(matches!(
        load_error("<?xml version=\"1.0\"?><html><body>text</body></html>"),
        IsbnRangeError::NoIsbnRangeMessageTag
    ));
}

#[test]
fn document_that_is_not_xml() {
    assert!(matches!(load_error("<a></b>"), IsbnRangeError::Xml(_)));
    let text = message(&prefixes(), &groups()).replace("Korea, Republic", "&unknown;");
    assert!(matches!(load_error(&text), IsbnRangeError::Xml(_)));
    let text = message(&prefixes(), &groups()).replace("</Rules>", "</Rule>");
    assert!(matches!(load_error(&text), IsbnRangeError::Xml(_)));
}

#[test]
fn lists_out_of_place() {
    let text = message(&prefixes(), &groups());
    let wrong = text.replace("EAN.UCCPrefixes>", "Prefixes>");
    assert!(matches!(load_error(&wrong), IsbnRangeError::NoEanUccPrefixes));
    let wrong = text.replace("RegistrationGroups>", "Registrations>");
    assert!(matches!(load_error(&wrong), IsbnRangeError::NoRegistrationGroups));
    let wrong = text.replace("EAN.UCC>", "EAN>");
    assert!(matches!(load_error(&wrong), IsbnRangeError::NoEanUccPrefix));
    let wrong = text.replace("Group>", "Grp>");
    assert!(matches!(load_error(&wrong), IsbnRangeError::NoGroup));
}

#[test]
fn prefixes_that_cannot_be_read() {
    let rules = [("0-9999999", "1")];
    let long = message(&agency("EAN.UCC", "9780", "A", &rules), "");
    assert!(matches!(load_error(&long), IsbnRangeError::PrefixTooLong));
    let letter = message(&agency("EAN.UCC", "97x0", "A", &rules), "");
    assert!(matches!(load_error(&letter), IsbnRangeError::InvalidPrefixChar));
    let long = message(&prefixes(), &agency("Group", "97803", "A", &rules));
    assert!(matches!(load_error(&long), IsbnRangeError::PrefixTooLong));
    let letter = message(&prefixes(), &agency("Group", "9a8-3", "A", &rules));
    assert!(matches!(load_error(&letter), IsbnRangeError::InvalidPrefixChar));
    let letter = message(&prefixes(), &agency("Group", "978-3-1", "A", &rules));
    assert!(matches!(load_error(&letter), IsbnRangeError::InvalidPrefixChar));
}

#[test]
fn rules_that_cannot_be_read() {
    let with = |range: &str, length: &str| -> String {
        message(&agency("EAN.UCC", "978", "A", &[(range, length)]), "")
    };
    assert!(matches!(load_error(&with("0", "1")), IsbnRangeError::NoDashInRange));
    assert!(matches!(load_error(&with("0-", "1")), IsbnRangeError::BadRange));
    assert!(matches!(load_error(&with("-1", "1")), IsbnRangeError::BadRange));
    assert!(matches!(load_error(&with("0-1-2", "1")), IsbnRangeError::BadRange));
    assert!(matches!(load_error(&with("0-+", "1")), IsbnRangeError::BadRange));
    assert!(matches!(load_error(&with("0-4294967296", "1")), IsbnRangeError::BadRange));
    assert!(matches!(load_error(&with("0-1", "12")), IsbnRangeError::BadLengthString));
    assert!(matches!(load_error(&with("0-1", "x")), IsbnRangeError::BadLengthString));
    assert!(matches!(load_error(&with("0-1", "+")), IsbnRangeError::BadLengthString));
    assert!(matches!(load_error(&with("0-1", "\u{663}")), IsbnRangeError::BadLengthString));
    assert!(matches!(load_error(&with("0-1", "8")), IsbnRangeError::LengthTooLarge));
}

#[test]
fn elements_out_of_place() {
    let text = message(&prefixes(), &groups());
    let wrong = text.replace("MessageDate>", "Date>");
    assert!(matches!(load_error(&wrong), IsbnRangeError::WrongXmlStart));
    let wrong = text.replace("<MessageDate>", "<!-- date --><MessageDate>");
    assert!(matches!(load_error(&wrong), IsbnRangeError::MissingXmlStart));
    let wrong = text.replace("<MessageDate>", "<MessageDate><b/>");
    assert!(matches!(load_error(&wrong), IsbnRangeError::WrongXmlBody));
    let wrong = text.replace("</MessageDate>", "<b/></MessageDate>");
    assert!(matches!(load_error(&wrong), IsbnRangeError::MissingXmlEnd));
    let wrong = text.replace("</EAN.UCCPrefixes>", "<!-- end --></EAN.UCCPrefixes>");
    assert!(matches!(load_error(&wrong), IsbnRangeError::WrongXmlEnd));
}

#[test]
fn file_errors_are_carried() {
    let error = IsbnRangeError::from(std::io::Error::from(std::io::ErrorKind::NotFound));
    assert!(matches!(error, IsbnRangeError::FileError(_)));
    let error = IsbnRangeError::from(quick_xml::Error::TextNotFound);
    assert!(matches!(error, IsbnRangeError::Xml(quick_xml::Error::TextNotFound)));
}

#[test]
fn parts_of_an_isbn() {
    let isbn = Isbn13::new([9, 7, 8, 1, 4, 9, 2, 0, 6, 7, 6, 6, 5]).unwrap();
    assert_eq!(isbn.prefix_element(), 0x978);
    assert_eq!(isbn.segment(0), 1492067);
    assert_eq!(isbn.segment(5), 6766000);
    assert_eq!(isbn.segment(9), 0);
    assert_eq!(isbn.segment(usize::MAX), 0);
    assert_eq!(isbn.group_prefix(0), 0);
    assert_eq!(isbn.group_prefix(4), 0x1492);
    assert_eq!(isbn.group_prefix(9), 0x49206766);
    assert_eq!(isbn.hyphenate_with([1, 5]).as_str(), "978-1-4920-6766-5");
    let isbn = Isbn10::new([0, 9, 7, 5, 2, 2, 9, 8, 0, 10]).unwrap();
    assert_eq!(isbn.prefix_element(), 0x978);
    assert_eq!(isbn.segment(1), 9752298);
    assert_eq!(isbn.segment(3), 5229800);
    assert_eq!(isbn.group_prefix(3), 0x097);
    assert_eq!(isbn.hyphenate_with([1, 8]).as_str(), "0-9752298-0-X");
    assert_eq!(isbn.hyphenate_with([0, 9]).as_str(), "-097522980-X");
}

#[test]
fn entries_under_another_prefix_do_not_matter() {
    let here = agency("EAN.UCC", "978", "A", &[("0-5999999", "1")]);
    let there = agency("EAN.UCC", "979", "B", &[("0-9999999", "2")]);
    let mut groups = agency("Group", "978-3", "German language", &[("0-4999999", "2")]);
    let one = IsbnRange::from_file(message(&here, &groups).as_bytes()).unwrap();
    groups.push_str(&agency("Group", "979-3", "Elsewhere", &[("0-9999999", "5")]));
    let two = IsbnRange::from_file(message(&(there + &here), &groups).as_bytes()).unwrap();
    for (text, expected) in [
        ("9783161484100", Ok("978-3-16-148410-0".to_string())),
        ("9780306406157", Err(IsbnError::InvalidGroup)),
        ("9786161484101", Err(IsbnError::InvalidGroup)),
    ] {
        let isbn = Isbn::from_str(text).unwrap();
        assert_eq!(hyphenate(&one, text), expected);
        assert_eq!(hyphenate(&two, text), expected);
        assert_eq!(
            one.get_registration_group_isbn(&isbn),
            two.get_registration_group_isbn(&isbn)
        );
    }
}

#[test]
fn isbn_is_hyphenated_where_its_group_is_named() {
    let range = load();
    for (text, named) in [
        ("9783161484100", Ok("German language")),
        ("9786600000008", Err(IsbnError::UndefinedRange)),
    ] {
        let isbn = match Isbn::from_str(text).unwrap() {
            Isbn::_13(isbn) => isbn,
            Isbn::_10(_) => panic!("read as an ISBN-10"),
        };
        assert_eq!(range.get_registration_group_isbn_object(&isbn), named);
        match (range.hyphenate_isbn_object(&isbn), named) {
            (Ok(hyphenated), Ok(_)) => assert_eq!(hyphenated.as_str(), "978-3-16-148410-0"),
            (Err(unhyphenated), Err(unnamed)) => assert_eq!(unhyphenated, unnamed),
            _ => panic!("one of the two is refused"),
        }
    }
}

#[test]
fn parts_of_seven_digits() {
    let text = message(
        &agency("EAN.UCC", "978", "A", &[("0-9999999", "7")]),
        &agency("Group", "978-1234567", "B", &[("0-9999999", "7")]),
    );
    let range = IsbnRange::from_file(text.as_bytes()).unwrap();
    assert_eq!(hyphenate(&range, "9781234567897"), Ok("978-1234567-89-7".to_string()));
}

#[test]
fn message_alone_decides() {
    let text = message(&prefixes(), &groups());
    let refused = text.replace("Group>", "Grp>");
    for text in [text, refused] {
        let start = text.find("<ISBNRangeMessage>").unwrap();
        let list_end = "</RegistrationGroups>";
        let stop = text.find(list_end).unwrap() + list_end.len();
        let bare = &text[start..stop];
        let source =
            bare.replace(">International ISBN Agency</MessageSource>", ">x</MessageSource>");
        assert_ne!(bare, source);
        let other = format!("<!-- c --><a>text</a>{}</ISBNRangeMessage></more>", source);
        let results = [bare, &other, &text].map(|text| IsbnRange::from_file(text.as_bytes()));
        for result in results {
            match result {
                Ok(range) => {
                    assert!(!text.contains("<Grp>"));
                    assert_eq!(
                        hyphenate(&range, "9783161484100"),
                        Ok("978-3-16-148410-0".to_string())
                    );
                }
                Err(e) => {
                    assert!(text.contains("<Grp>"));
                    assert!(matches!(e, IsbnRangeError::NoGroup));
                }
            }
        }
    }
}

#[test]
fn end_of_the_groups_in_the_place_of_the_prefixes_is_read_on() {
    let text = "<ISBNRangeMessage><RegistrationGroups>\
                <MessageSerialNumber>s</MessageSerialNumber><MessageDate>d</MessageDate>\
                </RegistrationGroups>";
    assert!(matches!(
        load_error(&format!("{}<X>", text)),
        IsbnRangeError::NoEanUccPrefix
    ));
    assert!(matches!(
        load_error(&format!("{}<!-- c -->", text)),
        IsbnRangeError::WrongXmlEnd
    ));
}
