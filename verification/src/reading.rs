//! What each element of a message is read as, read by read, and what it is refused as where it
//! departs from the expected format.

use crate::error::IsbnRangeError;
use crate::message::{self, Range};
use crate::range::{self, RangeModel};
use crate::segment::{self, SegmentModel};
use crate::tables::{EanUccEntries, GroupEntries};
use crate::xml::{self, RawRead, ReadModel, XmlEvent, XmlRead};
use vstd::prelude::*;
use vstd::utf8;

verus! {

/// The read at `i`, where the document has not ended before.
pub open spec fn at(reads: Seq<ReadModel>, i: int) -> Option<ReadModel> {
    if 0 <= i < reads.len() {
        Some(reads[i])
    } else {
        None
    }
}

/// The reads behind the first `i`.
pub open spec fn behind(reads: Seq<ReadModel>, i: int) -> Seq<ReadModel> {
    if i <= reads.len() {
        reads.skip(i)
    } else {
        seq![]
    }
}

/// The read is the start tag of the element `name`.
pub open spec fn starts(read: Option<ReadModel>, name: Seq<char>) -> bool {
    read == Some(Ok::<xml::EventModel, quick_xml::Error>(XmlEvent::Start(utf8::encode_utf8(name))))
}

/// The read is the end tag of the element `name`.
pub open spec fn ends(read: Option<ReadModel>, name: Seq<char>) -> bool {
    read == Some(Ok::<xml::EventModel, quick_xml::Error>(XmlEvent::End(utf8::encode_utf8(name))))
}

/// What a read is refused as in place of a start tag.
pub open spec fn no_start(read: Option<ReadModel>) -> IsbnRangeError {
    match read {
        Some(Err(e)) => IsbnRangeError::Xml(e),
        Some(Ok(XmlEvent::Start(_))) => IsbnRangeError::WrongXmlStart,
        _ => IsbnRangeError::MissingXmlStart,
    }
}

/// What a read is refused as in place of an end tag.
pub open spec fn no_end(read: Option<ReadModel>) -> IsbnRangeError {
    match read {
        Some(Err(e)) => IsbnRangeError::Xml(e),
        Some(Ok(XmlEvent::End(_))) => IsbnRangeError::WrongXmlEnd,
        _ => IsbnRangeError::MissingXmlEnd,
    }
}

/// What a read is refused as in place of a text.
pub open spec fn no_text(read: Option<ReadModel>) -> IsbnRangeError {
    match read {
        Some(Err(e)) => IsbnRangeError::Xml(e),
        Some(Ok(XmlEvent::Text(Err(e)))) => IsbnRangeError::Xml(e),
        _ => IsbnRangeError::WrongXmlBody,
    }
}

/// What a read holds is the name, the text or the error that it was made of.
pub proof fn law_reads_hold_what_was_read(reads: Seq<XmlRead>, raw: RawRead)
    ensures
        xml::reads_model(reads).len() == reads.len(),
        forall|i: int|
            0 <= i < reads.len() ==> #[trigger] xml::reads_model(reads)[i] == (match reads[i] {
                Ok(XmlEvent::Start(name)) => Ok(XmlEvent::Start(name@)),
                Ok(XmlEvent::End(name)) => Ok(XmlEvent::End(name@)),
                Ok(XmlEvent::Text(Ok(text))) => Ok(XmlEvent::Text(Ok(text@))),
                Ok(XmlEvent::Text(Err(e))) => Ok(XmlEvent::Text(Err(e))),
                Ok(XmlEvent::Other) => Ok(XmlEvent::Other),
                Err(e) => Err(e),
            }),
        xml::raw_model(raw) == (match raw {
            Ok(XmlEvent::Start(name)) => Ok::<XmlEvent<Seq<u8>, Seq<u8>>, quick_xml::Error>(
                XmlEvent::Start(name@),
            ),
            Ok(XmlEvent::End(name)) => Ok(XmlEvent::End(name@)),
            Ok(XmlEvent::Text(text)) => Ok(XmlEvent::Text(text@)),
            Ok(XmlEvent::Other) => Ok(XmlEvent::Other),
            Err(e) => Err(e),
        }),
{
}

/// What is loaded from a document is all that the XML reader gives, one for one to its end: as many
/// reads, each the one at the same place, with its text unescaped.
pub proof fn law_whole_document_is_read(document: Seq<u8>)
    ensures
        xml::message_reads(document).len() == xml::document_reads(document, true).len(),
        forall|i: int|
            0 <= i < xml::document_reads(document, true).len() ==> #[trigger] xml::message_reads(
                document,
            )[i] == (match xml::document_reads(document, true)[i] {
                Ok(XmlEvent::Start(name)) => Ok(XmlEvent::Start(name)),
                Ok(XmlEvent::End(name)) => Ok(XmlEvent::End(name)),
                Ok(XmlEvent::Text(text)) => Ok(XmlEvent::Text(xml::unescaped_text(text))),
                Ok(XmlEvent::Other) => Ok(XmlEvent::Other),
                Err(e) => Err(e),
            }),
{
}

/// An element is read as the text in it where its start tag, a text and its end tag come next, and
/// refused at the first of the three that does not come. The reads up to there are taken.
pub proof fn law_element_is_read(reads: Seq<ReadModel>, name: Seq<char>)
    ensures
        !starts(at(reads, 0), name) ==> message::text_element(reads, name) == (
            Err::<Seq<char>, IsbnRangeError>(no_start(at(reads, 0))),
            behind(reads, 1),
        ),
        starts(at(reads, 0), name) ==> match at(reads, 1) {
            Some(Ok(XmlEvent::Text(Ok(text)))) => if ends(at(reads, 2), name) {
                message::text_element(reads, name) == (
                    Ok::<Seq<char>, IsbnRangeError>(text),
                    behind(reads, 3),
                )
            } else {
                message::text_element(reads, name) == (
                    Err::<Seq<char>, IsbnRangeError>(no_end(at(reads, 2))),
                    behind(reads, 3),
                )
            },
            other => message::text_element(reads, name) == (
                Err::<Seq<char>, IsbnRangeError>(no_text(other)),
                behind(reads, 2),
            ),
        },
{
    reveal(message::text_element);
    let one = behind(reads, 1);
    let two = behind(reads, 2);
    assert(reads.len() == 0 ==> one =~= reads);
    assert(one.len() > 0 ==> one.skip(1) =~= two);
    assert(one.len() == 0 ==> one =~= two);
    assert(two.len() > 0 ==> two.skip(1) =~= behind(reads, 3));
    assert(two.len() == 0 ==> two =~= behind(reads, 3));
    assert(one.len() > 0 ==> at(reads, 1) == Some(one[0]));
    assert(two.len() > 0 ==> at(reads, 2) == Some(two[0]));
}

/// A rule is its range, its length and its end tag. It is refused at the first of these that is not
/// there; and where range and length are there, for the first that is not written as one.
pub proof fn law_rule_is_read(reads: Seq<ReadModel>)
    ensures
        ({
            let (range, rest1) = message::text_element(reads, "Range"@);
            let (length, rest2) = message::text_element(rest1, "Length"@);
            &&& range matches Err(e) ==> message::rule_body(reads) == (
                Err::<Range, IsbnRangeError>(e),
                rest1,
            )
            &&& range matches Ok(range) ==> {
                &&& length matches Err(e) ==> message::rule_body(reads) == (
                    Err::<Range, IsbnRangeError>(e),
                    rest2,
                )
                &&& length matches Ok(length) ==> match (
                    message::range_bounds(range),
                    message::part_length(length),
                ) {
                    (Err(e), _) => message::rule_body(reads) == (
                        Err::<Range, IsbnRangeError>(e),
                        rest2,
                    ),
                    (Ok(_), Err(e)) => message::rule_body(reads) == (
                        Err::<Range, IsbnRangeError>(e),
                        rest2,
                    ),
                    (Ok(bounds), Ok(length)) => message::rule_body(reads) == (
                        if ends(at(rest2, 0), "Rule"@) {
                            Ok((bounds, length))
                        } else {
                            Err(no_end(at(rest2, 0)))
                        },
                        behind(rest2, 1),
                    ),
                }
            }
        }),
{
    reveal(message::rule_body);
    let rest1 = message::text_element(reads, "Range"@).1;
    let rest2 = message::text_element(rest1, "Length"@).1;
    assert(rest2.len() == 0 ==> behind(rest2, 1) =~= rest2);
}

/// The rules of an agency end with the end tag of `Rules`. A rule begins with its start tag, or with
/// the end tag of anything else; it comes behind those that have been read, and its refusal is
/// theirs. Nothing else may come between.
pub proof fn law_rules_are_read(reads: Seq<ReadModel>, done: Seq<Range>)
    ensures
        ends(at(reads, 0), "Rules"@) ==> message::rules_body(reads, done) == (
            Ok::<Seq<Range>, IsbnRangeError>(done),
            behind(reads, 1),
        ),
        starts(at(reads, 0), "Rule"@) || (at(reads, 0) matches Some(Ok(XmlEvent::End(_)))
            && !ends(at(reads, 0), "Rules"@)) ==> match message::rule_body(behind(reads, 1)) {
            (Err(e), rest) => message::rules_body(reads, done) == (
                Err::<Seq<Range>, IsbnRangeError>(e),
                rest,
            ),
            (Ok(rule), rest) => message::rules_body(reads, done) == message::rules_body(
                rest,
                done.push(rule),
            ),
        },
        !starts(at(reads, 0), "Rule"@) && !(at(reads, 0) matches Some(Ok(XmlEvent::End(_))))
            ==> message::rules_body(reads, done) == (
            Err::<Seq<Range>, IsbnRangeError>(no_start(at(reads, 0))),
            behind(reads, 1),
        ),
{
    assert(reads.len() == 0 ==> behind(reads, 1) =~= reads);
}

/// An agency is its name, its rules between their tags, and the end tag of `EAN.UCC` or of `Group`.
/// It is refused at the first of these that is not there.
pub proof fn law_agency_is_read(reads: Seq<ReadModel>)
    ensures
        ({
            let (name, rest1) = message::text_element(reads, "Agency"@);
            let (rules, rest2) = message::rules_body(behind(rest1, 1), seq![]);
            &&& name matches Err(e) ==> segment::segment_body(reads) == (
                Err::<SegmentModel, IsbnRangeError>(e),
                rest1,
            )
            &&& name matches Ok(name) ==> {
                &&& !starts(at(rest1, 0), "Rules"@) ==> segment::segment_body(reads) == (
                    Err::<SegmentModel, IsbnRangeError>(no_start(at(rest1, 0))),
                    behind(rest1, 1),
                )
                &&& starts(at(rest1, 0), "Rules"@) ==> match rules {
                    Err(e) => segment::segment_body(reads) == (
                        Err::<SegmentModel, IsbnRangeError>(e),
                        rest2,
                    ),
                    Ok(rules) => segment::segment_body(reads) == (
                        if ends(at(rest2, 0), "EAN.UCC"@) || ends(at(rest2, 0), "Group"@) {
                            Ok(SegmentModel { name, ranges: rules })
                        } else {
                            Err(no_end(at(rest2, 0)))
                        },
                        behind(rest2, 1),
                    ),
                }
            }
        }),
{
    reveal(segment::segment_body);
    let rest1 = message::text_element(reads, "Agency"@).1;
    let rest2 = message::rules_body(behind(rest1, 1), seq![]).1;
    assert(rest1.len() == 0 ==> behind(rest1, 1) =~= rest1);
    assert(rest2.len() == 0 ==> behind(rest2, 1) =~= rest2);
}

/// What a read is refused as in a list in place of an agency or of the end of the list.
pub open spec fn no_agency(read: Option<ReadModel>, refusal: IsbnRangeError) -> IsbnRangeError {
    match read {
        Some(Err(e)) => IsbnRangeError::Xml(e),
        Some(Ok(XmlEvent::Start(_))) => refusal,
        _ => IsbnRangeError::WrongXmlEnd,
    }
}

/// The list of GS1 prefixes ends with its end tag. An agency begins with its start tag and its
/// prefix, and takes the place of one that had the same key. It is refused at the first part that is
/// not there.
pub proof fn law_prefixes_are_read(reads: Seq<ReadModel>, done: EanUccEntries)
    ensures
        ends(at(reads, 0), "EAN.UCCPrefixes"@) ==> range::ean_ucc_body(reads, done) == (
            Ok::<EanUccEntries, IsbnRangeError>(done),
            behind(reads, 1),
        ),
        !ends(at(reads, 0), "EAN.UCCPrefixes"@) && !starts(at(reads, 0), "EAN.UCC"@)
            ==> range::ean_ucc_body(reads, done) == (
            Err::<EanUccEntries, IsbnRangeError>(
                no_agency(at(reads, 0), IsbnRangeError::NoEanUccPrefix),
            ),
            behind(reads, 1),
        ),
        starts(at(reads, 0), "EAN.UCC"@) ==> {
            let (prefix, rest1) = message::text_element(behind(reads, 1), "Prefix"@);
            let (agency, rest2) = segment::segment_body(rest1);
            match prefix {
                Err(e) => range::ean_ucc_body(reads, done) == (
                    Err::<EanUccEntries, IsbnRangeError>(e),
                    rest1,
                ),
                Ok(prefix) => match (message::ean_ucc_key(prefix), agency) {
                    (Err(e), _) => range::ean_ucc_body(reads, done) == (
                        Err::<EanUccEntries, IsbnRangeError>(e),
                        rest1,
                    ),
                    (Ok(_), Err(e)) => range::ean_ucc_body(reads, done) == (
                        Err::<EanUccEntries, IsbnRangeError>(e),
                        rest2,
                    ),
                    (Ok(key), Ok(agency)) => range::ean_ucc_body(reads, done)
                        == range::ean_ucc_body(rest2, done.insert(key, agency)),
                },
            }
        },
{
    assert(reads.len() == 0 ==> behind(reads, 1) =~= reads);
}

/// The list of registration groups ends with its end tag. An agency begins with its start tag and
/// its prefix, and takes the place of one that had the same key. It is refused at the first part
/// that is not there.
pub proof fn law_groups_are_read(reads: Seq<ReadModel>, done: GroupEntries)
    ensures
        ends(at(reads, 0), "RegistrationGroups"@) ==> range::groups_body(reads, done) == (
            Ok::<GroupEntries, IsbnRangeError>(done),
            behind(reads, 1),
        ),
        !ends(at(reads, 0), "RegistrationGroups"@) && !starts(at(reads, 0), "Group"@)
            ==> range::groups_body(reads, done) == (
            Err::<GroupEntries, IsbnRangeError>(no_agency(at(reads, 0), IsbnRangeError::NoGroup)),
            behind(reads, 1),
        ),
        starts(at(reads, 0), "Group"@) ==> {
            let (prefix, rest1) = message::text_element(behind(reads, 1), "Prefix"@);
            let (agency, rest2) = segment::segment_body(rest1);
            match prefix {
                Err(e) => range::groups_body(reads, done) == (
                    Err::<GroupEntries, IsbnRangeError>(e),
                    rest1,
                ),
                Ok(prefix) => match (message::group_key(prefix), agency) {
                    (Err(e), _) => range::groups_body(reads, done) == (
                        Err::<GroupEntries, IsbnRangeError>(e),
                        rest1,
                    ),
                    (Ok(_), Err(e)) => range::groups_body(reads, done) == (
                        Err::<GroupEntries, IsbnRangeError>(e),
                        rest2,
                    ),
                    (Ok(key), Ok(agency)) => range::groups_body(reads, done) == range::groups_body(
                        rest2,
                        done.insert(key, agency),
                    ),
                },
            }
        },
{
    assert(reads.len() == 0 ==> behind(reads, 1) =~= reads);
}

/// The message starts with the first start tag of `ISBNRangeMessage`: whatever events come before
/// are passed over, and an error of the XML reader or the end of the document before it are what
/// the document is refused for.
pub proof fn law_start_is_found(before: Seq<ReadModel>, reads: Seq<ReadModel>)
    requires
        forall|i: int|
            0 <= i < before.len() ==> (#[trigger] before[i]) is Ok && !starts(
                Some(before[i]),
                "ISBNRangeMessage"@,
            ),
    ensures
        starts(at(reads, 0), "ISBNRangeMessage"@) ==> range::message_step(before + reads)
            == range::message_body(behind(reads, 1)),
        at(reads, 0) matches Some(Err(e)) ==> range::message_step(before + reads) == (
            Err::<RangeModel, IsbnRangeError>(IsbnRangeError::Xml(e)),
            behind(reads, 1),
        ),
        at(reads, 0) is None ==> range::message_step(before + reads) == (
            Err::<RangeModel, IsbnRangeError>(IsbnRangeError::NoIsbnRangeMessageTag),
            Seq::<ReadModel>::empty(),
        ),
    decreases before.len(),
{
    assert(at(reads, 0) is None ==> reads =~= seq![]);
    if before.len() == 0 {
        assert(before + reads =~= reads);
    } else {
        let others = before.skip(1);
        assert(before[0] is Ok && !starts(Some(before[0]), "ISBNRangeMessage"@));
        assert forall|i: int| 0 <= i < others.len() implies (#[trigger] others[i]) is Ok && !starts(
            Some(others[i]),
            "ISBNRangeMessage"@,
        ) by {
            assert(others[i] == before[i + 1]);
        }
        law_start_is_found(others, reads);
        assert((before + reads)[0] == before[0]);
        assert((before + reads).skip(1) =~= others + reads);
    }
}

/// The read is refused in place of the start tag of a list. Only the start tag of another element
/// and an error of the XML reader are; anything else passes.
pub open spec fn no_list(
    read: Option<ReadModel>,
    name: Seq<char>,
    refusal: IsbnRangeError,
) -> Option<IsbnRangeError> {
    match read {
        Some(Err(e)) => Some(IsbnRangeError::Xml(e)),
        Some(Ok(XmlEvent::Start(_))) => if starts(read, name) {
            None
        } else {
            Some(refusal)
        },
        _ => None,
    }
}

/// Behind its start a message has a source, a serial number, a date and two lists. Whether source
/// and serial number can be read does not matter; the serial number is kept where it can. The
/// message is refused at the first of the others that is not there.
pub proof fn law_message_is_read(reads: Seq<ReadModel>)
    ensures
        ({
            let (_, rest1) = message::text_element(reads, "MessageSource"@);
            let (serial_number, rest2) = message::text_element(rest1, "MessageSerialNumber"@);
            let (date, rest3) = message::text_element(rest2, "MessageDate"@);
            let no_prefixes = no_list(
                at(rest3, 0),
                "EAN.UCCPrefixes"@,
                IsbnRangeError::NoEanUccPrefixes,
            );
            let (prefixes, rest4) = range::ean_ucc_body(behind(rest3, 1), Map::empty());
            let no_groups = no_list(
                at(rest4, 0),
                "RegistrationGroups"@,
                IsbnRangeError::NoRegistrationGroups,
            );
            let (groups, rest5) = range::groups_body(behind(rest4, 1), Map::empty());
            match (date, no_prefixes, prefixes, no_groups, groups) {
                (Err(e), _, _, _, _) => range::message_body(reads) == (
                    Err::<RangeModel, IsbnRangeError>(e),
                    rest3,
                ),
                (Ok(_), Some(e), _, _, _) => range::message_body(reads) == (
                    Err::<RangeModel, IsbnRangeError>(e),
                    behind(rest3, 1),
                ),
                (Ok(_), None, Err(e), _, _) => range::message_body(reads) == (
                    Err::<RangeModel, IsbnRangeError>(e),
                    rest4,
                ),
                (Ok(_), None, Ok(_), Some(e), _) => range::message_body(reads) == (
                    Err::<RangeModel, IsbnRangeError>(e),
                    behind(rest4, 1),
                ),
                (Ok(_), None, Ok(_), None, Err(e)) => range::message_body(reads) == (
                    Err::<RangeModel, IsbnRangeError>(e),
                    rest5,
                ),
                (Ok(date), None, Ok(prefixes), None, Ok(groups)) => {
                    &&& range::message_body(reads).1 == rest5
                    &&& range::message_body(reads).0 matches Ok(range) && range.date == date
                        && range.ean_ucc_group == prefixes && range.registration_group == groups
                        && range.serial_number == (match serial_number {
                        Ok(text) => Some(text),
                        Err(_) => None,
                    })
                },
            }
        }),
{
    let rest1 = message::text_element(reads, "MessageSource"@).1;
    let rest2 = message::text_element(rest1, "MessageSerialNumber"@).1;
    let rest3 = message::text_element(rest2, "MessageDate"@).1;
    let rest4 = range::ean_ucc_body(behind(rest3, 1), Map::empty()).1;
    assert(rest3.len() == 0 ==> behind(rest3, 1) =~= rest3);
    assert(rest4.len() == 0 ==> behind(rest4, 1) =~= rest4);
}

/// What a message gives is what has been read of it where reading stops.
pub proof fn law_result_is_what_was_read(reads: Seq<ReadModel>)
    ensures
        range::range_message(reads) == range::message_step(reads).0,
{
}

} // verus!
