//! The range message: the texts it holds, and the elements that hold them.

use crate::error::IsbnRangeError;
use crate::numerals::{self, bcd_push, chars_of, parse_number, to_digit};
use crate::xml::{self, EventModel, ReadModel, XmlEvent, XmlRead};
use std::collections::VecDeque;
use vstd::prelude::*;
use vstd::utf8;

verus! {

/// What a reading step gives, and the reads that it leaves.
pub type Outcome<T> = (Result<T, IsbnRangeError>, Seq<ReadModel>);

/// A range of seven-digit numbers from its start up to its stop, and the length of the part that
/// it gives, where the range is in use.
pub type Range = ((u32, u32), Option<usize>);

/// The bounds that the text of a `Range` element gives: two numbers with a dash between.
pub open spec fn range_bounds(text: Seq<char>) -> Result<(u32, u32), IsbnRangeError> {
    if !text.contains('-') {
        Err(IsbnRangeError::NoDashInRange)
    } else {
        let dash = text.index_of_first('-').unwrap();
        match (numerals::number(text.take(dash)), numerals::number(text.skip(dash + 1))) {
            (Some(start), Some(stop)) => Ok((start, stop)),
            _ => Err(IsbnRangeError::BadRange),
        }
    }
}

/// The length that the text of a `Length` element gives: a digit up to seven, where zero stands
/// for a range that is not in use.
pub open spec fn part_length(text: Seq<char>) -> Result<Option<usize>, IsbnRangeError> {
    if text.len() != 1 || !numerals::is_digit(text[0]) {
        Err(IsbnRangeError::BadLengthString)
    } else if text[0] > '7' {
        Err(IsbnRangeError::LengthTooLarge)
    } else if text[0] == '0' {
        Ok(None)
    } else {
        Ok(Some((text[0] as u32 - 48) as usize))
    }
}

/// The key that the `Prefix` of an `EAN.UCC` element gives: up to three digits as a binary-coded
/// decimal.
pub open spec fn ean_ucc_key(prefix: Seq<char>) -> Result<u16, IsbnRangeError> {
    if !numerals::all_digits(first(prefix, 3)) {
        Err(IsbnRangeError::InvalidPrefixChar)
    } else if prefix.len() > 3 {
        Err(IsbnRangeError::PrefixTooLong)
    } else {
        Ok(numerals::bcd(numerals::digits_of(prefix)) as u16)
    }
}

/// The key that the `Prefix` of a `Group` element gives: up to three digits and, behind a dash,
/// any number of them, both as binary-coded decimals, the second cut to thirty-two bits.
pub open spec fn group_key(prefix: Seq<char>) -> Result<(u16, u32), IsbnRangeError> {
    let head = first(prefix, 3);
    let tail = prefix.skip(first(prefix, 4).len() as int);
    if !numerals::all_digits(head) {
        Err(IsbnRangeError::InvalidPrefixChar)
    } else if prefix.len() > 3 && prefix[3] != '-' {
        Err(IsbnRangeError::PrefixTooLong)
    } else if !numerals::all_digits(tail) {
        Err(IsbnRangeError::InvalidPrefixChar)
    } else {
        Ok(
            (
                numerals::bcd(numerals::digits_of(head)) as u16,
                numerals::bcd32(numerals::digits_of(tail)),
            ),
        )
    }
}

/// The first `n` characters, or all where there are fewer.
pub open spec fn first(text: Seq<char>, n: int) -> Seq<char> {
    if text.len() < n {
        text
    } else {
        text.take(n)
    }
}

/// The next event, `None` at the end of the document.
pub open spec fn next_event(reads: Seq<ReadModel>) -> Outcome<Option<EventModel>> {
    if reads.len() == 0 {
        (Ok(None), reads)
    } else {
        match reads[0] {
            Ok(event) => (Ok(Some(event)), reads.skip(1)),
            Err(e) => (Err(IsbnRangeError::Xml(e)), reads.skip(1)),
        }
    }
}

/// The start tag of the element `name` comes next.
pub open spec fn start_tag(reads: Seq<ReadModel>, name: Seq<char>) -> Outcome<()> {
    let (event, rest) = next_event(reads);
    match event {
        Err(e) => (Err(e), rest),
        Ok(Some(XmlEvent::Start(found))) => if found == utf8::encode_utf8(name) {
            (Ok(()), rest)
        } else {
            (Err(IsbnRangeError::WrongXmlStart), rest)
        },
        Ok(_) => (Err(IsbnRangeError::MissingXmlStart), rest),
    }
}

/// The end tag of the element `name`, or of `other`, comes next.
pub open spec fn end_tag(reads: Seq<ReadModel>, name: Seq<char>, other: Seq<char>) -> Outcome<()> {
    let (event, rest) = next_event(reads);
    match event {
        Err(e) => (Err(e), rest),
        Ok(Some(XmlEvent::End(found))) => if found == utf8::encode_utf8(name) || found
            == utf8::encode_utf8(other) {
            (Ok(()), rest)
        } else {
            (Err(IsbnRangeError::WrongXmlEnd), rest)
        },
        Ok(_) => (Err(IsbnRangeError::MissingXmlEnd), rest),
    }
}

/// A text comes next.
pub open spec fn text_body(reads: Seq<ReadModel>) -> Outcome<Seq<char>> {
    let (event, rest) = next_event(reads);
    match event {
        Err(e) => (Err(e), rest),
        Ok(Some(XmlEvent::Text(Ok(text)))) => (Ok(text), rest),
        Ok(Some(XmlEvent::Text(Err(e)))) => (Err(IsbnRangeError::Xml(e)), rest),
        Ok(_) => (Err(IsbnRangeError::WrongXmlBody), rest),
    }
}

/// The element `name` comes next and holds a text.
#[verifier::opaque]
pub open spec fn text_element(reads: Seq<ReadModel>, name: Seq<char>) -> Outcome<Seq<char>> {
    let (start, inside) = start_tag(reads, name);
    match start {
        Err(e) => (Err(e), inside),
        Ok(_) => {
            let (body, after) = text_body(inside);
            match body {
                Err(e) => (Err(e), after),
                Ok(text) => {
                    let (end, rest) = end_tag(after, name, name);
                    match end {
                        Err(e) => (Err(e), rest),
                        Ok(_) => (Ok(text), rest),
                    }
                },
            }
        },
    }
}

/// What stands in a `Rule` element, and its end.
#[verifier::opaque]
pub open spec fn rule_body(reads: Seq<ReadModel>) -> Outcome<Range> {
    let (range, rest1) = text_element(reads, "Range"@);
    let (length, rest2) = text_element(rest1, "Length"@);
    match (range, length) {
        (Err(e), _) => (Err(e), rest1),
        (Ok(_), Err(e)) => (Err(e), rest2),
        (Ok(range), Ok(length)) => match (range_bounds(range), part_length(length)) {
            (Err(e), _) => (Err(e), rest2),
            (Ok(_), Err(e)) => (Err(e), rest2),
            (Ok(bounds), Ok(length)) => {
                let (end, rest3) = end_tag(rest2, "Rule"@, "Rule"@);
                match end {
                    Err(e) => (Err(e), rest3),
                    Ok(_) => (Ok((bounds, length)), rest3),
                }
            },
        },
    }
}

/// A step forward leaves no more reads than there were.
pub proof fn lemma_text_element_rest(reads: Seq<ReadModel>, name: Seq<char>)
    ensures
        text_element(reads, name).1.len() <= reads.len(),
{
    reveal(text_element);
}

/// A step forward leaves no more reads than there were.
pub proof fn lemma_rule_body_rest(reads: Seq<ReadModel>)
    ensures
        rule_body(reads).1.len() <= reads.len(),
{
    reveal(rule_body);
    lemma_text_element_rest(reads, "Range"@);
    lemma_text_element_rest(text_element(reads, "Range"@).1, "Length"@);
}

/// What stands in a `Rules` element, and its end, behind the ranges that have been read. An end
/// tag of another element passes for the start of a `Rule`.
pub open spec fn rules_body(reads: Seq<ReadModel>, done: Seq<Range>) -> Outcome<Seq<Range>>
    decreases reads.len(),
{
    let (event, inside) = next_event(reads);
    let (rule, rest) = rule_body(inside);
    let step = match event {
        Err(e) => Some(Err(e)),
        Ok(Some(XmlEvent::Start(name))) => if name == utf8::encode_utf8("Rule"@) {
            None
        } else {
            Some(Err(IsbnRangeError::WrongXmlStart))
        },
        Ok(Some(XmlEvent::End(name))) => if name == utf8::encode_utf8("Rules"@) {
            Some(Ok(done))
        } else {
            None
        },
        Ok(_) => Some(Err(IsbnRangeError::MissingXmlStart)),
    };
    match step {
        Some(result) => (result, inside),
        None => match rule {
            Err(e) => (Err(e), rest),
            Ok(range) => {
                proof {
                    lemma_rule_body_rest(inside);
                }
                rules_body(rest, done.push(range))
            },
        },
    }
}

/// A step forward leaves no more reads than there were.
pub proof fn lemma_rules_body_rest(reads: Seq<ReadModel>, done: Seq<Range>)
    ensures
        rules_body(reads, done).1.len() <= reads.len(),
    decreases reads.len(),
{
    let (event, inside) = next_event(reads);
    let (rule, rest) = rule_body(inside);
    lemma_rule_body_rest(inside);
    if reads.len() > 0 {
        if let Ok(range) = rule {
            lemma_rules_body_rest(rest, done.push(range));
        }
    }
}

/// Reads the bounds of a range.
pub(crate) fn parse_bounds(text: &str) -> (bounds: Result<(u32, u32), IsbnRangeError>)
    ensures
        bounds == range_bounds(text@),
{
    let chars: Vec<char> = chars_of(text);
    let mut dash: usize = 0;
    while dash < chars.len() && chars[dash] != '-'
        invariant
            dash <= chars.len(),
            chars@ == text@,
            forall|i: int| 0 <= i < dash ==> #[trigger] text@[i] != '-',
        decreases chars.len() - dash,
    {
        dash += 1;
    }
    if dash == chars.len() {
        assert(!text@.contains('-'));
        return Err(IsbnRangeError::NoDashInRange);
    }
    proof {
        assert(text@[dash as int] == '-');
        text@.index_of_first_ensures('-');
        assert(text@.index_of_first('-').unwrap() == dash);
        assert(text@.take(dash as int) =~= chars@.subrange(0, dash as int));
        assert(text@.skip(dash + 1) =~= chars@.subrange(dash + 1, chars@.len() as int));
    }
    match parse_number(&chars, 0, dash) {
        None => Err(IsbnRangeError::BadRange),
        Some(start) => match parse_number(&chars, dash + 1, chars.len()) {
            None => Err(IsbnRangeError::BadRange),
            Some(stop) => Ok((start, stop)),
        },
    }
}

/// Reads the length of a part.
pub(crate) fn parse_length(text: &str) -> (length: Result<Option<usize>, IsbnRangeError>)
    ensures
        length == part_length(text@),
        length matches Ok(Some(n)) ==> 1 <= n <= 7,
{
    let chars: Vec<char> = chars_of(text);
    if chars.len() != 1 {
        return Err(IsbnRangeError::BadLengthString);
    }
    match to_digit(chars[0]) {
        None => Err(IsbnRangeError::BadLengthString),
        Some(digit) => if digit > 7 {
            Err(IsbnRangeError::LengthTooLarge)
        } else if digit == 0 {
            Ok(None)
        } else {
            Ok(Some(digit as usize))
        },
    }
}

/// Reads the key of an `EAN.UCC` element.
pub(crate) fn parse_ean_ucc_key(prefix: &str) -> (key: Result<u16, IsbnRangeError>)
    ensures
        key == ean_ucc_key(prefix@),
{
    let chars: Vec<char> = chars_of(prefix);
    match parse_head(&chars) {
        Err(e) => Err(e),
        Ok(key) => if chars.len() > 3 {
            Err(IsbnRangeError::PrefixTooLong)
        } else {
            assert(first(prefix@, 3) =~= prefix@);
            Ok(key)
        },
    }
}

/// Reads the key of a `Group` element.
pub(crate) fn parse_group_key(prefix: &str) -> (key: Result<(u16, u32), IsbnRangeError>)
    ensures
        key == group_key(prefix@),
{
    let chars: Vec<char> = chars_of(prefix);
    let head = match parse_head(&chars) {
        Err(e) => {
            return Err(e);
        },
        Ok(head) => head,
    };
    if chars.len() > 3 && chars[3] != '-' {
        return Err(IsbnRangeError::PrefixTooLong);
    }
    let from: usize = if chars.len() < 4 {
        chars.len()
    } else {
        4
    };
    let ghost tail = prefix@.skip(from as int);
    let mut element: u32 = 0;
    let mut i: usize = from;
    while i < chars.len()
        invariant
            from <= i <= chars.len(),
            chars@ == prefix@,
            tail == prefix@.skip(from as int),
            from == first(prefix@, 4).len(),
            numerals::all_digits(first(prefix@, 3)),
            prefix@.len() > 3 ==> prefix@[3] == '-',
            numerals::all_digits(tail.take(i - from)),
            element == numerals::bcd32(numerals::digits_of(tail.take(i - from))),
        decreases chars.len() - i,
    {
        assert(tail[i - from] == prefix@[i as int]);
        match to_digit(chars[i]) {
            None => {
                return Err(IsbnRangeError::InvalidPrefixChar);
            },
            Some(digit) => {
                let ghost before = numerals::digits_of(tail.take(i - from));
                element = bcd_push(element, digit, Ghost(before));
                assert(before.push(digit) =~= numerals::digits_of(tail.take(i - from + 1)));
            },
        }
        i += 1;
    }
    assert(tail.take(chars.len() - from) =~= tail);
    Ok((head, element))
}

/// Reads the first three characters of a prefix, or all where there are fewer.
fn parse_head(prefix: &Vec<char>) -> (key: Result<u16, IsbnRangeError>)
    ensures
        match key {
            Ok(key) => numerals::all_digits(first(prefix@, 3)) && key == numerals::bcd(
                numerals::digits_of(first(prefix@, 3)),
            ),
            Err(IsbnRangeError::InvalidPrefixChar) => !numerals::all_digits(first(prefix@, 3)),
            Err(_) => false,
        },
{
    let ghost head = first(prefix@, 3);
    let mut key: u32 = 0;
    let mut i: usize = 0;
    proof {
        reveal_with_fuel(numerals::bcd, 4);
    }
    while i < prefix.len() && i < 3
        invariant
            i <= prefix.len(),
            i <= 3,
            head == first(prefix@, 3),
            numerals::all_digits(head.take(i as int)),
            key == numerals::bcd32(numerals::digits_of(head.take(i as int))),
        decreases 3 - i,
    {
        assert(head[i as int] == prefix@[i as int]);
        match to_digit(prefix[i]) {
            None => {
                return Err(IsbnRangeError::InvalidPrefixChar);
            },
            Some(digit) => {
                let ghost before = numerals::digits_of(head.take(i as int));
                key = bcd_push(key, digit, Ghost(before));
                assert(before.push(digit) =~= numerals::digits_of(head.take(i + 1)));
            },
        }
        i += 1;
    }
    proof {
        assert(head.take(i as int) =~= head);
        lemma_head_bound(head);
    }
    Ok(key as u16)
}

/// Three digits fit in sixteen bits.
proof fn lemma_head_bound(head: Seq<char>)
    requires
        head.len() <= 3,
        numerals::all_digits(head),
    ensures
        numerals::bcd(numerals::digits_of(head)) <= 0x999,
{
    reveal_with_fuel(numerals::bcd, 4);
    let digits = numerals::digits_of(head);
    assert forall|i: int| 0 <= i < digits.len() implies #[trigger] digits[i] <= 9 by {
        assert(numerals::is_digit(head[i]));
    }
}

/// What a text, or the refusal to read one, holds.
pub open spec fn text_result(text: Result<String, IsbnRangeError>) -> Result<
    Seq<char>,
    IsbnRangeError,
> {
    match text {
        Ok(text) => Ok(text@),
        Err(e) => Err(e),
    }
}

/// Whether the bytes are the UTF-8 form of the name.
pub(crate) fn is_named(bytes: &Vec<u8>, name: &str) -> (same: bool)
    ensures
        same == (bytes@ == utf8::encode_utf8(name@)),
{
    let expected = name.as_bytes();
    if bytes.len() != expected.len() {
        return false;
    }
    let mut i: usize = 0;
    while i < bytes.len()
        invariant
            i <= bytes.len(),
            bytes.len() == expected.len(),
            expected@ == utf8::encode_utf8(name@),
            forall|k: int| 0 <= k < i ==> bytes@[k] == expected@[k],
        decreases bytes.len() - i,
    {
        if bytes[i] != expected[i] {
            return false;
        }
        i += 1;
    }
    assert(bytes@ =~= expected@);
    true
}

/// Takes the next event off the reads.
pub(crate) fn read_next(reads: &mut VecDeque<XmlRead>) -> (event: Result<
    Option<XmlEvent<Vec<u8>, Result<String, quick_xml::Error>>>,
    IsbnRangeError,
>)
    ensures
        match event {
            Ok(Some(event)) => next_event(xml::reads_model(old(reads)@)) == (
                Ok::<Option<EventModel>, IsbnRangeError>(Some(xml::event_model(event))),
                xml::reads_model(final(reads)@),
            ),
            Ok(None) => next_event(xml::reads_model(old(reads)@)) == (
                Ok::<Option<EventModel>, IsbnRangeError>(None),
                xml::reads_model(final(reads)@),
            ),
            Err(e) => next_event(xml::reads_model(old(reads)@)) == (
                Err::<Option<EventModel>, IsbnRangeError>(e),
                xml::reads_model(final(reads)@),
            ),
        },
        old(reads)@.len() > 0 ==> final(reads)@.len() < old(reads)@.len(),
        event matches Ok(Some(_)) ==> old(reads)@.len() > 0,
{
    let read = reads.pop_front();
    assert(old(reads)@.len() > 0 ==> xml::reads_model(reads@) =~= xml::reads_model(
        old(reads)@,
    ).skip(1));
    match read {
        None => Ok(None),
        Some(Ok(event)) => Ok(Some(event)),
        Some(Err(e)) => Err(IsbnRangeError::from(e)),
    }
}

/// Takes the start tag of the element `name` off the reads.
pub(crate) fn read_start_tag(reads: &mut VecDeque<XmlRead>, name: &str) -> (read: Result<
    (),
    IsbnRangeError,
>)
    ensures
        (read, xml::reads_model(final(reads)@)) == start_tag(
            xml::reads_model(old(reads)@),
            name@,
        ),
        final(reads)@.len() <= old(reads)@.len(),
{
    match read_next(reads) {
        Err(e) => Err(e),
        Ok(Some(XmlEvent::Start(found))) => if is_named(&found, name) {
            Ok(())
        } else {
            Err(IsbnRangeError::WrongXmlStart)
        },
        Ok(_) => Err(IsbnRangeError::MissingXmlStart),
    }
}

/// Takes the end tag of the element `name`, or of `other`, off the reads.
pub(crate) fn read_end_tag(reads: &mut VecDeque<XmlRead>, name: &str, other: &str) -> (read: Result<
    (),
    IsbnRangeError,
>)
    ensures
        (read, xml::reads_model(final(reads)@)) == end_tag(
            xml::reads_model(old(reads)@),
            name@,
            other@,
        ),
        final(reads)@.len() <= old(reads)@.len(),
{
    match read_next(reads) {
        Err(e) => Err(e),
        Ok(Some(XmlEvent::End(found))) => if is_named(&found, name) || is_named(&found, other) {
            Ok(())
        } else {
            Err(IsbnRangeError::WrongXmlEnd)
        },
        Ok(_) => Err(IsbnRangeError::MissingXmlEnd),
    }
}

/// Takes a text off the reads.
fn read_text(reads: &mut VecDeque<XmlRead>) -> (read: Result<String, IsbnRangeError>)
    ensures
        (text_result(read), xml::reads_model(final(reads)@)) == text_body(
            xml::reads_model(old(reads)@),
        ),
        final(reads)@.len() <= old(reads)@.len(),
{
    match read_next(reads) {
        Err(e) => Err(e),
        Ok(Some(XmlEvent::Text(Ok(text)))) => Ok(text),
        Ok(Some(XmlEvent::Text(Err(e)))) => Err(IsbnRangeError::from(e)),
        Ok(_) => Err(IsbnRangeError::WrongXmlBody),
    }
}

/// Takes the element `name` off the reads and gives the text that it holds.
///
/// # Errors
/// If another element starts or ends, if none does, if the element holds no text, or if the
/// document is not XML there. The reads up to the one that failed are taken off.
pub fn read_xml_tag(reads: &mut VecDeque<XmlRead>, name: &str) -> (read: Result<
    String,
    IsbnRangeError,
>)
    ensures
        (text_result(read), xml::reads_model(final(reads)@)) == text_element(
            xml::reads_model(old(reads)@),
            name@,
        ),
        match read {
            Ok(text) => text_element(xml::reads_model(old(reads)@), name@) == (
                Ok::<Seq<char>, IsbnRangeError>(text@),
                xml::reads_model(final(reads)@),
            ),
            Err(e) => text_element(xml::reads_model(old(reads)@), name@) == (
                Err::<Seq<char>, IsbnRangeError>(e),
                xml::reads_model(final(reads)@),
            ),
        },
        final(reads)@.len() <= old(reads)@.len(),
{
    proof {
        reveal(text_element);
    }
    match read_start_tag(reads, name) {
        Err(e) => {
            return Err(e);
        },
        Ok(_) => {},
    }
    let text = match read_text(reads) {
        Err(e) => {
            return Err(e);
        },
        Ok(text) => text,
    };
    match read_end_tag(reads, name, name) {
        Err(e) => Err(e),
        Ok(_) => Ok(text),
    }
}

/// Takes what stands in a `Rule` element, and its end, off the reads.
fn read_rule(reads: &mut VecDeque<XmlRead>) -> (rule: Result<Range, IsbnRangeError>)
    ensures
        (rule, xml::reads_model(final(reads)@)) == rule_body(xml::reads_model(old(reads)@)),
        final(reads)@.len() <= old(reads)@.len(),
        rule matches Ok((_, Some(n))) ==> 1 <= n <= 7,
{
    proof {
        reveal(rule_body);
    }
    let range = match read_xml_tag(reads, "Range") {
        Err(e) => {
            return Err(e);
        },
        Ok(range) => range,
    };
    let length = match read_xml_tag(reads, "Length") {
        Err(e) => {
            return Err(e);
        },
        Ok(length) => length,
    };
    let bounds = match parse_bounds(range.as_str()) {
        Err(e) => {
            return Err(e);
        },
        Ok(bounds) => bounds,
    };
    let length = match parse_length(length.as_str()) {
        Err(e) => {
            return Err(e);
        },
        Ok(length) => length,
    };
    match read_end_tag(reads, "Rule", "Rule") {
        Err(e) => Err(e),
        Ok(_) => Ok((bounds, length)),
    }
}

/// Takes what stands in a `Rules` element, and its end, off the reads.
pub(crate) fn read_rules(reads: &mut VecDeque<XmlRead>) -> (rules: Result<
    Vec<Range>,
    IsbnRangeError,
>)
    ensures
        match rules {
            Ok(rules) => rules_body(xml::reads_model(old(reads)@), seq![]) == (
                Ok::<Seq<Range>, IsbnRangeError>(rules@),
                xml::reads_model(final(reads)@),
            ) && usable(rules@),
            Err(e) => rules_body(xml::reads_model(old(reads)@), seq![]) == (
                Err::<Seq<Range>, IsbnRangeError>(e),
                xml::reads_model(final(reads)@),
            ),
        },
        final(reads)@.len() <= old(reads)@.len(),
{
    let mut rules: Vec<Range> = Vec::new();
    loop
        invariant
            rules_body(xml::reads_model(old(reads)@), seq![]) == rules_body(
                xml::reads_model(reads@),
                rules@,
            ),
            reads@.len() <= old(reads)@.len(),
            usable(rules@),
        decreases reads@.len(),
    {
        match read_next(reads) {
            Err(e) => {
                return Err(e);
            },
            Ok(Some(XmlEvent::Start(name))) => if !is_named(&name, "Rule") {
                return Err(IsbnRangeError::WrongXmlStart);
            },
            Ok(Some(XmlEvent::End(name))) => if is_named(&name, "Rules") {
                return Ok(rules);
            },
            Ok(_) => {
                return Err(IsbnRangeError::MissingXmlStart);
            },
        }
        match read_rule(reads) {
            Err(e) => {
                return Err(e);
            },
            Ok(rule) => {
                rules.push(rule);
            },
        }
    }
}

/// Every range that is in use gives a length from one to seven.
pub open spec fn usable(ranges: Seq<Range>) -> bool {
    forall|i: int|
        0 <= i < ranges.len() ==> ((#[trigger] ranges[i]).1 matches Some(n) ==> 1 <= n <= 7)
}

} // verus!
