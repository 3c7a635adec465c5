//! The ranges of a message, and what they say of an ISBN.

use crate::error::IsbnRangeError;
use crate::hyphenated;
use crate::isbn::{self, Isbn, Isbn10, Isbn13, IsbnError, IsbnObject};
use crate::message::{
    self, is_named, parse_ean_ucc_key, parse_group_key, read_next, read_xml_tag, Outcome,
};
use crate::numerals;
use crate::segment::{self, Segment};
use crate::tables::{
    self, get_ean_ucc, get_group, insert_ean_ucc, insert_group, new_ean_ucc_table, new_group_table,
    EanUccEntries, GroupEntries,
};
use crate::xml::{self, read_document, ReadModel, XmlEvent, XmlRead};
use arrayvec::ArrayString;
use indexmap::IndexMap;
use std::collections::VecDeque;
use vstd::prelude::*;
use vstd::utf8;

verus! {

/// The ranges of a message.
pub struct IsbnRange {
    serial_number: Option<String>,
    date: String,
    ean_ucc_group: IndexMap<u16, Segment>,
    registration_group: IndexMap<(u16, u32), Segment>,
}

/// What an [`IsbnRange`] holds.
pub struct RangeModel {
    /// The serial number of the message, where it could be read.
    pub serial_number: Option<Seq<char>>,
    /// The date of the message.
    pub date: Seq<char>,
    /// The agencies by GS1 prefix.
    pub ean_ucc_group: EanUccEntries,
    /// The agencies by GS1 prefix and registration group.
    pub registration_group: GroupEntries,
}

impl View for IsbnRange {
    type V = RangeModel;

    closed spec fn view(&self) -> RangeModel {
        RangeModel {
            serial_number: match self.serial_number {
                Some(text) => Some(text@),
                None => None,
            },
            date: self.date@,
            ean_ucc_group: tables::ean_ucc_entries(self.ean_ucc_group),
            registration_group: tables::group_entries(self.registration_group),
        }
    }
}

/// The start of the message: everything before its root element is passed over.
pub open spec fn root_start(reads: Seq<ReadModel>) -> Outcome<()>
    decreases reads.len(),
{
    let (event, rest) = message::next_event(reads);
    match event {
        Err(e) => (Err(e), rest),
        Ok(None) => (Err(IsbnRangeError::NoIsbnRangeMessageTag), rest),
        Ok(Some(XmlEvent::Start(name))) => if name == utf8::encode_utf8("ISBNRangeMessage"@) {
            (Ok(()), rest)
        } else {
            root_start(rest)
        },
        Ok(Some(_)) => root_start(rest),
    }
}

/// No start tag of another element than `name` comes next; whatever else does is passed over.
pub open spec fn no_other_start(
    reads: Seq<ReadModel>,
    name: Seq<char>,
    refusal: IsbnRangeError,
) -> Outcome<()> {
    let (event, rest) = message::next_event(reads);
    match event {
        Err(e) => (Err(e), rest),
        Ok(Some(XmlEvent::Start(found))) => if found == utf8::encode_utf8(name) {
            (Ok(()), rest)
        } else {
            (Err(refusal), rest)
        },
        Ok(_) => (Ok(()), rest),
    }
}

/// An agency comes next, or the end of the element `list`, which gives `None`.
pub open spec fn agency_start(
    reads: Seq<ReadModel>,
    list: Seq<char>,
    item: Seq<char>,
    refusal: IsbnRangeError,
) -> Outcome<Option<()>> {
    let (event, rest) = message::next_event(reads);
    match event {
        Err(e) => (Err(e), rest),
        Ok(Some(XmlEvent::Start(name))) => if name == utf8::encode_utf8(item) {
            (Ok(Some(())), rest)
        } else {
            (Err(refusal), rest)
        },
        Ok(Some(XmlEvent::End(name))) => if name == utf8::encode_utf8(list) {
            (Ok(None), rest)
        } else {
            (Err(IsbnRangeError::WrongXmlEnd), rest)
        },
        Ok(_) => (Err(IsbnRangeError::WrongXmlEnd), rest),
    }
}

/// What stands in the `EAN.UCCPrefixes` element, and its end, behind the agencies that have been
/// read.
pub open spec fn ean_ucc_body(reads: Seq<ReadModel>, done: EanUccEntries) -> Outcome<EanUccEntries>
    decreases reads.len(),
{
    let (start, inside) = agency_start(
        reads,
        "EAN.UCCPrefixes"@,
        "EAN.UCC"@,
        IsbnRangeError::NoEanUccPrefix,
    );
    let (prefix, after) = message::text_element(inside, "Prefix"@);
    let (agency, rest) = segment::segment_body(after);
    match start {
        Err(e) => (Err(e), inside),
        Ok(None) => (Ok(done), inside),
        Ok(Some(_)) => match prefix {
            Err(e) => (Err(e), after),
            Ok(prefix) => match message::ean_ucc_key(prefix) {
                Err(e) => (Err(e), after),
                Ok(key) => match agency {
                    Err(e) => (Err(e), rest),
                    Ok(agency) => {
                        proof {
                            message::lemma_text_element_rest(inside, "Prefix"@);
                            segment::lemma_segment_body_rest(after);
                        }
                        ean_ucc_body(rest, done.insert(key, agency))
                    },
                },
            },
        },
    }
}

/// What stands in the `RegistrationGroups` element, and its end, behind the agencies that have
/// been read.
pub open spec fn groups_body(reads: Seq<ReadModel>, done: GroupEntries) -> Outcome<GroupEntries>
    decreases reads.len(),
{
    let (start, inside) = agency_start(
        reads,
        "RegistrationGroups"@,
        "Group"@,
        IsbnRangeError::NoGroup,
    );
    let (prefix, after) = message::text_element(inside, "Prefix"@);
    let (agency, rest) = segment::segment_body(after);
    match start {
        Err(e) => (Err(e), inside),
        Ok(None) => (Ok(done), inside),
        Ok(Some(_)) => match prefix {
            Err(e) => (Err(e), after),
            Ok(prefix) => match message::group_key(prefix) {
                Err(e) => (Err(e), after),
                Ok(key) => match agency {
                    Err(e) => (Err(e), rest),
                    Ok(agency) => {
                        proof {
                            message::lemma_text_element_rest(inside, "Prefix"@);
                            segment::lemma_segment_body_rest(after);
                        }
                        groups_body(rest, done.insert(key, agency))
                    },
                },
            },
        },
    }
}

/// What stands behind the start of the message, up to the end of its last list. Of the source and
/// the serial number it does not matter whether they can be read.
pub open spec fn message_body(reads: Seq<ReadModel>) -> Outcome<RangeModel> {
    let (_, rest1) = message::text_element(reads, "MessageSource"@);
    let (serial_number, rest2) = message::text_element(rest1, "MessageSerialNumber"@);
    let (date, rest3) = message::text_element(rest2, "MessageDate"@);
    match date {
        Err(e) => (Err(e), rest3),
        Ok(date) => {
            let (tables, rest4) = tables_body(rest3);
            match tables {
                Err(e) => (Err(e), rest4),
                Ok((ean_ucc_group, registration_group)) => (
                    Ok(
                        RangeModel {
                            serial_number: match serial_number {
                                Ok(text) => Some(text),
                                Err(_) => None,
                            },
                            date,
                            ean_ucc_group,
                            registration_group,
                        },
                    ),
                    rest4,
                ),
            }
        },
    }
}

/// The two lists of agencies.
pub open spec fn tables_body(reads: Seq<ReadModel>) -> Outcome<(EanUccEntries, GroupEntries)> {
    let (prefixes, rest1) = no_other_start(
        reads,
        "EAN.UCCPrefixes"@,
        IsbnRangeError::NoEanUccPrefixes,
    );
    match prefixes {
        Err(e) => (Err(e), rest1),
        Ok(_) => {
            let (ean_ucc_group, rest2) = ean_ucc_body(rest1, Map::empty());
            match ean_ucc_group {
                Err(e) => (Err(e), rest2),
                Ok(ean_ucc_group) => {
                    let (groups, rest3) = no_other_start(
                        rest2,
                        "RegistrationGroups"@,
                        IsbnRangeError::NoRegistrationGroups,
                    );
                    match groups {
                        Err(e) => (Err(e), rest3),
                        Ok(_) => {
                            let (registration_group, rest4) = groups_body(rest3, Map::empty());
                            match registration_group {
                                Err(e) => (Err(e), rest4),
                                Ok(registration_group) => (
                                    Ok((ean_ucc_group, registration_group)),
                                    rest4,
                                ),
                            }
                        },
                    }
                },
            }
        },
    }
}

/// The message: its start, whatever stands before it, and what stands behind that.
pub open spec fn message_step(reads: Seq<ReadModel>) -> Outcome<RangeModel> {
    let (root, rest) = root_start(reads);
    match root {
        Err(e) => (Err(e), rest),
        Ok(_) => message_body(rest),
    }
}

/// The ranges that a message gives, by what is read from it.
pub open spec fn range_message(reads: Seq<ReadModel>) -> Result<RangeModel, IsbnRangeError> {
    message_step(reads).0
}

/// What the ranges say of an ISBN: the name of its registration group, and how many digits the
/// registration group and the registrant have.
pub struct Parts {
    /// The name of the registration group.
    pub name: Seq<char>,
    /// The number of digits of the registration group.
    pub group: int,
    /// The number of digits of the registrant.
    pub registrant: int,
}

/// The parts of an ISBN, by its GS1 prefix and its body.
pub open spec fn parts(range: RangeModel, gs1_prefix: Seq<u8>, body: Seq<u8>) -> Result<
    Parts,
    IsbnError,
> {
    let prefix = numerals::bcd(gs1_prefix) as u16;
    match tables::entry(range.ean_ucc_group, prefix) {
        None => Err(IsbnError::InvalidGroup),
        Some(agency) => match segment::length_in(
            agency.ranges,
            isbn::segment_number(body, 0) as int,
        ) {
            Err(e) => Err(e),
            Ok(group) => match tables::entry(
                range.registration_group,
                (prefix, numerals::bcd32(body.take(group as int))),
            ) {
                None => Err(IsbnError::InvalidGroup),
                Some(agency) => match segment::length_in(
                    agency.ranges,
                    isbn::segment_number(body, group as int) as int,
                ) {
                    Err(e) => Err(e),
                    Ok(registrant) => Ok(
                        Parts {
                            name: agency.name,
                            group: group as int,
                            registrant: registrant as int,
                        },
                    ),
                },
            },
        },
    }
}

/// The hyphenated form of an ISBN, by the ranges.
pub open spec fn hyphenation<T: IsbnObject>(range: RangeModel, isbn: T) -> Result<
    Seq<char>,
    IsbnError,
> {
    match parts(range, isbn.gs1_prefix(), isbn.body()) {
        Err(e) => Err(e),
        Ok(parts) => Ok(isbn.hyphenated(parts.group, parts.group + parts.registrant)),
    }
}

/// The name of the registration group of an ISBN, by the ranges.
pub open spec fn group_name<T: IsbnObject>(range: RangeModel, isbn: T) -> Result<
    Seq<char>,
    IsbnError,
> {
    match parts(range, isbn.gs1_prefix(), isbn.body()) {
        Err(e) => Err(e),
        Ok(parts) => Ok(parts.name),
    }
}

/// The ranges give an ISBN a registration group and a registrant of one to seven digits each, or
/// refuse it.
pub open spec fn split_within_limits<T: IsbnObject>(range: RangeModel, isbn: T) -> bool {
    parts(range, isbn.gs1_prefix(), isbn.body()) matches Ok(parts) ==> 1 <= parts.group <= 7 && 1
        <= parts.registrant <= 7
}

/// What a hyphenated ISBN, or the refusal of one, holds.
pub open spec fn string_result(text: Result<ArrayString<17>, IsbnError>) -> Result<
    Seq<char>,
    IsbnError,
> {
    match text {
        Ok(text) => Ok(hyphenated::string_chars(text)),
        Err(e) => Err(e),
    }
}

/// What a name, or the refusal of one, holds.
pub open spec fn name_result(name: Result<&str, IsbnError>) -> Result<Seq<char>, IsbnError> {
    match name {
        Ok(name) => Ok(name@),
        Err(e) => Err(e),
    }
}

impl IsbnRange {
    /// Takes the agencies by GS1 prefix, and the end of their element, off the reads. Of two with
    /// the same prefix the later stays.
    fn read_ean_ucc_group(reads: &mut VecDeque<XmlRead>) -> (table: Result<
        IndexMap<u16, Segment>,
        IsbnRangeError,
    >)
        ensures
            match table {
                Ok(table) => ean_ucc_body(xml::reads_model(old(reads)@), Map::empty()) == (
                    Ok::<EanUccEntries, IsbnRangeError>(tables::ean_ucc_entries(table)),
                    xml::reads_model(final(reads)@),
                ),
                Err(e) => ean_ucc_body(xml::reads_model(old(reads)@), Map::empty()) == (
                    Err::<EanUccEntries, IsbnRangeError>(e),
                    xml::reads_model(final(reads)@),
                ),
            },
    {
        let mut table = new_ean_ucc_table();
        loop
            invariant
                ean_ucc_body(xml::reads_model(old(reads)@), Map::empty()) == ean_ucc_body(
                    xml::reads_model(reads@),
                    tables::ean_ucc_entries(table),
                ),
            decreases reads@.len(),
        {
            match read_agency_start(
                reads,
                "EAN.UCCPrefixes",
                "EAN.UCC",
                IsbnRangeError::NoEanUccPrefix,
            ) {
                Err(e) => {
                    return Err(e);
                },
                Ok(None) => {
                    return Ok(table);
                },
                Ok(Some(_)) => {},
            }
            let prefix = match read_xml_tag(reads, "Prefix") {
                Err(e) => {
                    return Err(e);
                },
                Ok(prefix) => prefix,
            };
            let key = match parse_ean_ucc_key(prefix.as_str()) {
                Err(e) => {
                    return Err(e);
                },
                Ok(key) => key,
            };
            match Segment::from_reader(reads) {
                Err(e) => {
                    return Err(e);
                },
                Ok(agency) => {
                    insert_ean_ucc(&mut table, key, agency);
                },
            }
        }
    }

    /// Takes the agencies by registration group, and the end of their element, off the reads. Of
    /// two with the same prefix the later stays.
    fn read_registration_group(reads: &mut VecDeque<XmlRead>) -> (table: Result<
        IndexMap<(u16, u32), Segment>,
        IsbnRangeError,
    >)
        ensures
            match table {
                Ok(table) => groups_body(xml::reads_model(old(reads)@), Map::empty()) == (
                    Ok::<GroupEntries, IsbnRangeError>(tables::group_entries(table)),
                    xml::reads_model(final(reads)@),
                ),
                Err(e) => groups_body(xml::reads_model(old(reads)@), Map::empty()) == (
                    Err::<GroupEntries, IsbnRangeError>(e),
                    xml::reads_model(final(reads)@),
                ),
            },
    {
        let mut table = new_group_table();
        loop
            invariant
                groups_body(xml::reads_model(old(reads)@), Map::empty()) == groups_body(
                    xml::reads_model(reads@),
                    tables::group_entries(table),
                ),
            decreases reads@.len(),
        {
            match read_agency_start(reads, "RegistrationGroups", "Group", IsbnRangeError::NoGroup) {
                Err(e) => {
                    return Err(e);
                },
                Ok(None) => {
                    return Ok(table);
                },
                Ok(Some(_)) => {},
            }
            let prefix = match read_xml_tag(reads, "Prefix") {
                Err(e) => {
                    return Err(e);
                },
                Ok(prefix) => prefix,
            };
            let key = match parse_group_key(prefix.as_str()) {
                Err(e) => {
                    return Err(e);
                },
                Ok(key) => key,
            };
            match Segment::from_reader(reads) {
                Err(e) => {
                    return Err(e);
                },
                Ok(agency) => {
                    insert_group(&mut table, key, agency);
                },
            }
        }
    }

    /// Loads the ranges from the bytes of a `RangeMessage.xml` file.
    ///
    /// # Errors
    /// If the message is in an unexpected format, an error will be returned.
    pub fn from_file(file: &[u8]) -> (range: Result<Self, IsbnRangeError>)
        ensures
            range_result(range) == range_message(xml::message_reads(file@)),
            ({
                let raw = xml::document_reads(file@, true);
                let reads = Seq::new(
                    raw.len(),
                    |i: int|
                        match raw[i] {
                            Ok(XmlEvent::Start(name)) => Ok(XmlEvent::Start(name)),
                            Ok(XmlEvent::End(name)) => Ok(XmlEvent::End(name)),
                            Ok(XmlEvent::Text(text)) => Ok(
                                XmlEvent::Text(xml::unescaped_text(text)),
                            ),
                            Ok(XmlEvent::Other) => Ok(XmlEvent::Other),
                            Err(e) => Err(e),
                        },
                );
                match range {
                    Ok(range) => range_message(reads) == Ok::<RangeModel, IsbnRangeError>(range@),
                    Err(e) => range_message(reads) == Err::<RangeModel, IsbnRangeError>(e),
                }
            }),
    {
        let reads = read_document(file);
        proof {
            let raw = xml::document_reads(file@, true);
            assert(xml::reads_model(reads@) =~= Seq::new(
                raw.len(),
                |i: int|
                    match raw[i] {
                        Ok(XmlEvent::Start(name)) => Ok(XmlEvent::Start(name)),
                        Ok(XmlEvent::End(name)) => Ok(XmlEvent::End(name)),
                        Ok(XmlEvent::Text(text)) => Ok(XmlEvent::Text(xml::unescaped_text(text))),
                        Ok(XmlEvent::Other) => Ok(XmlEvent::Other),
                        Err(e) => Err(e),
                    },
            ));
        }
        Self::from_reads(reads)
    }

    /// Loads the ranges from what has been read of a message.
    ///
    /// # Errors
    /// If the message is in an unexpected format, an error will be returned.
    pub fn from_reads(reads: VecDeque<XmlRead>) -> (range: Result<Self, IsbnRangeError>)
        ensures
            range_result(range) == range_message(xml::reads_model(reads@)),
            match range {
                Ok(range) => range_message(xml::reads_model(reads@)) == Ok::<
                    RangeModel,
                    IsbnRangeError,
                >(range@),
                Err(e) => range_message(xml::reads_model(reads@)) == Err::<
                    RangeModel,
                    IsbnRangeError,
                >(e),
            },
    {
        let mut reads = reads;
        match read_root_start(&mut reads) {
            Err(e) => {
                return Err(e);
            },
            Ok(_) => {},
        }
        let _ = read_xml_tag(&mut reads, "MessageSource");
        let serial_number = match read_xml_tag(&mut reads, "MessageSerialNumber") {
            Ok(text) => Some(text),
            Err(_) => None,
        };
        let date = match read_xml_tag(&mut reads, "MessageDate") {
            Err(e) => {
                return Err(e);
            },
            Ok(date) => date,
        };
        match read_no_other_start(
            &mut reads,
            "EAN.UCCPrefixes",
            IsbnRangeError::NoEanUccPrefixes,
        ) {
            Err(e) => {
                return Err(e);
            },
            Ok(_) => {},
        }
        let ean_ucc_group = match Self::read_ean_ucc_group(&mut reads) {
            Err(e) => {
                return Err(e);
            },
            Ok(table) => table,
        };
        match read_no_other_start(
            &mut reads,
            "RegistrationGroups",
            IsbnRangeError::NoRegistrationGroups,
        ) {
            Err(e) => {
                return Err(e);
            },
            Ok(_) => {},
        }
        let registration_group = match Self::read_registration_group(&mut reads) {
            Err(e) => {
                return Err(e);
            },
            Ok(table) => table,
        };
        Ok(IsbnRange { serial_number, date, ean_ucc_group, registration_group })
    }

    /// Hyphenate an ISBN into its parts:
    ///
    /// * GS1 Prefix (ISBN-13 only)
    /// * Registration group
    /// * Registrant
    /// * Publication
    /// * Check digit
    ///
    /// # Errors
    /// If the ISBN is not valid, as determined by the current ISBN rules, an error will be
    /// returned.
    pub fn hyphenate_isbn(&self, isbn: &Isbn) -> (text: Result<ArrayString<17>, IsbnError>)
        ensures
            string_result(text) == (match *isbn {
                Isbn::_10(isbn) => hyphenation(self@, isbn),
                Isbn::_13(isbn) => hyphenation(self@, isbn),
            }),
            match (text, *isbn) {
                (Ok(text), Isbn::_10(isbn)) => hyphenation(self@, isbn) == Ok::<
                    Seq<char>,
                    IsbnError,
                >(hyphenated::string_chars(text)),
                (Ok(text), Isbn::_13(isbn)) => hyphenation(self@, isbn) == Ok::<
                    Seq<char>,
                    IsbnError,
                >(hyphenated::string_chars(text)),
                (Err(e), Isbn::_10(isbn)) => hyphenation(self@, isbn) == Err::<
                    Seq<char>,
                    IsbnError,
                >(e),
                (Err(e), Isbn::_13(isbn)) => hyphenation(self@, isbn) == Err::<
                    Seq<char>,
                    IsbnError,
                >(e),
            },
            match *isbn {
                Isbn::_10(isbn) => split_within_limits(self@, isbn),
                Isbn::_13(isbn) => split_within_limits(self@, isbn),
            },
    {
        match isbn {
            Isbn::_10(isbn) => self.hyphenate_isbn_object(isbn),
            Isbn::_13(isbn) => self.hyphenate_isbn_object(isbn),
        }
    }

    /// Hyphenate an ISBN-10 into its parts:
    ///
    /// * Registration group
    /// * Registrant
    /// * Publication
    /// * Check digit
    ///
    /// # Errors
    /// If the ISBN is not valid, as determined by the current ISBN rules, an error will be
    /// returned.
    pub fn hyphenate_isbn10(&self, isbn: &Isbn10) -> (text: Result<ArrayString<17>, IsbnError>)
        ensures
            string_result(text) == hyphenation(self@, *isbn),
            match text {
                Ok(text) => hyphenation(self@, *isbn) == Ok::<Seq<char>, IsbnError>(
                    hyphenated::string_chars(text),
                ),
                Err(e) => hyphenation(self@, *isbn) == Err::<Seq<char>, IsbnError>(e),
            },
            split_within_limits(self@, *isbn),
    {
        self.hyphenate_isbn_object(isbn)
    }

    /// Hyphenate an ISBN-13 into its parts:
    ///
    /// * GS1 Prefix
    /// * Registration group
    /// * Registrant
    /// * Publication
    /// * Check digit
    ///
    /// # Errors
    /// If the ISBN is not valid, as determined by the current ISBN rules, an error will be
    /// returned.
    pub fn hyphenate_isbn13(&self, isbn: &Isbn13) -> (text: Result<ArrayString<17>, IsbnError>)
        ensures
            string_result(text) == hyphenation(self@, *isbn),
            match text {
                Ok(text) => hyphenation(self@, *isbn) == Ok::<Seq<char>, IsbnError>(
                    hyphenated::string_chars(text),
                ),
                Err(e) => hyphenation(self@, *isbn) == Err::<Seq<char>, IsbnError>(e),
            },
            split_within_limits(self@, *isbn),
    {
        self.hyphenate_isbn_object(isbn)
    }

    /// Hyphenate an ISBN of either kind into its parts.
    ///
    /// # Errors
    /// If the ISBN is not valid, as determined by `self`, an error will be returned.
    pub fn hyphenate_isbn_object<T: IsbnObject>(&self, isbn: &T) -> (text: Result<
        ArrayString<17>,
        IsbnError,
    >)
        ensures
            string_result(text) == hyphenation(self@, *isbn),
            match text {
                Ok(text) => hyphenation(self@, *isbn) == Ok::<Seq<char>, IsbnError>(
                    hyphenated::string_chars(text),
                ),
                Err(e) => hyphenation(self@, *isbn) == Err::<Seq<char>, IsbnError>(e),
            },
            split_within_limits(self@, *isbn),
    {
        let segment = match get_ean_ucc(&self.ean_ucc_group, isbn.prefix_element()) {
            None => {
                return Err(IsbnError::InvalidGroup);
            },
            Some(segment) => segment,
        };
        let registration_group_segment_length = match segment.group(isbn.segment(0)) {
            Err(e) => {
                return Err(e);
            },
            Ok(group) => group.segment_length,
        };
        let segment = match get_group(
            &self.registration_group,
            (isbn.prefix_element(), isbn.group_prefix(registration_group_segment_length)),
        ) {
            None => {
                return Err(IsbnError::InvalidGroup);
            },
            Some(segment) => segment,
        };
        let registrant_segment_length = match segment.group(
            isbn.segment(registration_group_segment_length),
        ) {
            Err(e) => {
                return Err(e);
            },
            Ok(group) => group.segment_length,
        };
        let hyphen_at: [usize; 2] = [
            registration_group_segment_length,
            registration_group_segment_length + registrant_segment_length,
        ];
        Ok(isbn.hyphenate_with(hyphen_at))
    }

    /// Retrieve the name of the registration group.
    ///
    /// # Errors
    /// If the ISBN is not valid, as determined by `self`, an error will be
    /// returned.
    pub fn get_registration_group_isbn(&self, isbn: &Isbn) -> (name: Result<&str, IsbnError>)
        ensures
            name_result(name) == (match *isbn {
                Isbn::_10(isbn) => group_name(self@, isbn),
                Isbn::_13(isbn) => group_name(self@, isbn),
            }),
            match (name, *isbn) {
                (Ok(name), Isbn::_10(isbn)) => group_name(self@, isbn) == Ok::<
                    Seq<char>,
                    IsbnError,
                >(name@),
                (Ok(name), Isbn::_13(isbn)) => group_name(self@, isbn) == Ok::<
                    Seq<char>,
                    IsbnError,
                >(name@),
                (Err(e), Isbn::_10(isbn)) => group_name(self@, isbn) == Err::<Seq<char>, IsbnError>(
                    e,
                ),
                (Err(e), Isbn::_13(isbn)) => group_name(self@, isbn) == Err::<Seq<char>, IsbnError>(
                    e,
                ),
            },
    {
        match isbn {
            Isbn::_10(isbn) => self.get_registration_group_isbn_object(isbn),
            Isbn::_13(isbn) => self.get_registration_group_isbn_object(isbn),
        }
    }

    /// Retrieve the name of the registration group.
    ///
    /// # Errors
    /// If the ISBN is not valid, as determined by the current ISBN rules, an error will be
    /// returned.
    pub fn get_registration_group_isbn10(&self, isbn: &Isbn10) -> (name: Result<&str, IsbnError>)
        ensures
            name_result(name) == group_name(self@, *isbn),
            match name {
                Ok(name) => group_name(self@, *isbn) == Ok::<Seq<char>, IsbnError>(name@),
                Err(e) => group_name(self@, *isbn) == Err::<Seq<char>, IsbnError>(e),
            },
    {
        self.get_registration_group_isbn_object(isbn)
    }

    /// Retrieve the name of the registration group.
    ///
    /// # Errors
    /// If the ISBN is not valid, as determined by the current ISBN rules, an error will be
    /// returned.
    pub fn get_registration_group_isbn13(&self, isbn: &Isbn13) -> (name: Result<&str, IsbnError>)
        ensures
            name_result(name) == group_name(self@, *isbn),
            match name {
                Ok(name) => group_name(self@, *isbn) == Ok::<Seq<char>, IsbnError>(name@),
                Err(e) => group_name(self@, *isbn) == Err::<Seq<char>, IsbnError>(e),
            },
    {
        self.get_registration_group_isbn_object(isbn)
    }

    /// Retrieve the name of the registration group of an ISBN of either kind.
    ///
    /// # Errors
    /// If the ISBN is not valid, as determined by `self`, an error will be returned.
    pub fn get_registration_group_isbn_object<T: IsbnObject>(&self, isbn: &T) -> (name: Result<
        &str,
        IsbnError,
    >)
        ensures
            name_result(name) == group_name(self@, *isbn),
            match name {
                Ok(name) => group_name(self@, *isbn) == Ok::<Seq<char>, IsbnError>(name@),
                Err(e) => group_name(self@, *isbn) == Err::<Seq<char>, IsbnError>(e),
            },
    {
        let segment = match get_ean_ucc(&self.ean_ucc_group, isbn.prefix_element()) {
            None => {
                return Err(IsbnError::InvalidGroup);
            },
            Some(segment) => segment,
        };
        let registration_group_segment_length = match segment.group(isbn.segment(0)) {
            Err(e) => {
                return Err(e);
            },
            Ok(group) => group.segment_length,
        };
        let segment = match get_group(
            &self.registration_group,
            (isbn.prefix_element(), isbn.group_prefix(registration_group_segment_length)),
        ) {
            None => {
                return Err(IsbnError::InvalidGroup);
            },
            Some(segment) => segment,
        };
        match segment.group(isbn.segment(registration_group_segment_length)) {
            Err(e) => Err(e),
            Ok(group) => Ok(group.name),
        }
    }
}

/// What a set of ranges, or the refusal to load one, holds.
pub open spec fn range_result(range: Result<IsbnRange, IsbnRangeError>) -> Result<
    RangeModel,
    IsbnRangeError,
> {
    match range {
        Ok(range) => Ok(range@),
        Err(e) => Err(e),
    }
}

/// Takes the reads up to the start tag of the root element off.
fn read_root_start(reads: &mut VecDeque<XmlRead>) -> (read: Result<(), IsbnRangeError>)
    ensures
        (read, xml::reads_model(final(reads)@)) == root_start(xml::reads_model(old(reads)@)),
{
    loop
        invariant
            root_start(xml::reads_model(old(reads)@)) == root_start(xml::reads_model(reads@)),
        decreases reads@.len(),
    {
        match read_next(reads) {
            Err(e) => {
                return Err(e);
            },
            Ok(None) => {
                return Err(IsbnRangeError::NoIsbnRangeMessageTag);
            },
            Ok(Some(XmlEvent::Start(name))) => if is_named(&name, "ISBNRangeMessage") {
                return Ok(());
            },
            Ok(Some(_)) => {},
        }
    }
}

/// Takes one read off, which is not the start tag of another element than `name`.
fn read_no_other_start(
    reads: &mut VecDeque<XmlRead>,
    name: &str,
    refusal: IsbnRangeError,
) -> (read: Result<(), IsbnRangeError>)
    ensures
        (read, xml::reads_model(final(reads)@)) == no_other_start(
            xml::reads_model(old(reads)@),
            name@,
            refusal,
        ),
{
    match read_next(reads) {
        Err(e) => Err(e),
        Ok(Some(XmlEvent::Start(found))) => if is_named(&found, name) {
            Ok(())
        } else {
            Err(refusal)
        },
        Ok(_) => Ok(()),
    }
}

/// Takes the start tag of an agency's element off the reads, or the end of the element `list`,
/// which gives `None`.
fn read_agency_start(
    reads: &mut VecDeque<XmlRead>,
    list: &str,
    item: &str,
    refusal: IsbnRangeError,
) -> (read: Result<Option<()>, IsbnRangeError>)
    ensures
        (read, xml::reads_model(final(reads)@)) == agency_start(
            xml::reads_model(old(reads)@),
            list@,
            item@,
            refusal,
        ),
        read matches Ok(_) ==> final(reads)@.len() < old(reads)@.len(),
{
    match read_next(reads) {
        Err(e) => Err(e),
        Ok(Some(XmlEvent::Start(name))) => if is_named(&name, item) {
            Ok(Some(()))
        } else {
            Err(refusal)
        },
        Ok(Some(XmlEvent::End(name))) => if is_named(&name, list) {
            Ok(None)
        } else {
            Err(IsbnRangeError::WrongXmlEnd)
        },
        Ok(_) => Err(IsbnRangeError::WrongXmlEnd),
    }
}

} // verus!
