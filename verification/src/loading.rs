//! What a message says of an ISBN, in terms of the texts of the message and the digits of the ISBN.

use crate::document::{self, AgencyText, MessageText, RuleText};
use crate::isbn::{Isbn10, Isbn13, IsbnError};
use crate::lookup;
use crate::message::{self, Range};
use crate::places;
use crate::range;
use crate::segment::SegmentModel;
use crate::tables::{EanUccEntries, GroupEntries};
use crate::xml::ReadModel;
use vstd::prelude::*;

verus! {

/// The rule writes the range: its start, a dash and its stop, and one figure for its length, zero
/// where it is not in use.
pub open spec fn rule_says(rule: RuleText, range: Range) -> bool {
    &&& exists|d: int|
        0 <= d < rule.range.len() && #[trigger] rule.range[d] == '-' && places::writes(
            rule.range.take(d),
            range.0.0 as int,
        ) && places::writes(rule.range.skip(d + 1), range.0.1 as int)
    &&& rule.length.len() == 1
    &&& match range.1 {
        None => rule.length[0] as int == 48,
        Some(length) => 1 <= length <= 7 && rule.length[0] as int == 48 + length,
    }
}

/// The rules write the ranges, one for one.
pub open spec fn rules_say(rules: Seq<RuleText>, ranges: Seq<Range>) -> bool {
    &&& ranges.len() == rules.len()
    &&& forall|m: int| 0 <= m < rules.len() ==> rule_says(#[trigger] rules[m], ranges[m])
}

/// The text is up to three figures.
pub open spec fn prefix_text(text: Seq<char>) -> bool {
    &&& text.len() <= 3
    &&& forall|k: int| 0 <= k < text.len() ==> places::figure(#[trigger] text[k])
}

/// The text is three figures, a dash, and figures.
pub open spec fn group_text(text: Seq<char>) -> bool {
    &&& text.len() > 3
    &&& text[3] == '-'
    &&& forall|k: int| 0 <= k < text.len() && k != 3 ==> places::figure(#[trigger] text[k])
}

/// Each rule writes some range.
pub open spec fn rules_written(rules: Seq<RuleText>) -> bool {
    forall|m: int|
        0 <= m < rules.len() ==> exists|range: Range| rule_says(#[trigger] rules[m], range)
}

/// All prefixes and rules of the message are written as such.
pub open spec fn well_written(message: MessageText) -> bool {
    &&& forall|k: int|
        0 <= k < message.prefixes.len() ==> prefix_text((#[trigger] message.prefixes[k]).prefix)
            && rules_written(message.prefixes[k].rules)
    &&& forall|k: int|
        0 <= k < message.groups.len() ==> group_text((#[trigger] message.groups[k]).prefix)
            && rules_written(message.groups[k].rules)
}

/// The agency at `at` is the last whose prefix has the code.
pub open spec fn last_prefix(agencies: Seq<AgencyText>, at: int, code: int) -> bool {
    &&& 0 <= at < agencies.len()
    &&& places::code(agencies[at].prefix) == code
    &&& forall|k: int|
        at < k < agencies.len() ==> places::code((#[trigger] agencies[k]).prefix) != code
}

/// The agency at `at` is the last whose prefix has the two codes, before the dash and behind it.
pub open spec fn last_group(agencies: Seq<AgencyText>, at: int, code: int, group: int) -> bool {
    &&& 0 <= at < agencies.len()
    &&& places::code(agencies[at].prefix.take(3)) == code
    &&& places::code(agencies[at].prefix.skip(4)) == group
    &&& forall|k: int|
        at < k < agencies.len() ==> places::code((#[trigger] agencies[k]).prefix.take(3)) != code
            || places::code(agencies[k].prefix.skip(4)) != group
}

proof fn lemma_rule_read(rule: RuleText, range: Range)
    requires
        rule_says(rule, range),
    ensures
        document::readable_rule(rule),
        document::rule_range(rule) == range,
{
    places::law_range_is_written(rule.range, range.0.0, range.0.1);
    places::law_length_is_written(rule.length);
}

proof fn lemma_rules_read(rules: Seq<RuleText>)
    requires
        rules_written(rules),
    ensures
        document::readable_rules(rules),
{
    assert forall|m: int| 0 <= m < rules.len() implies document::readable_rule(
        #[trigger] rules[m],
    ) by {
        let range = choose|range: Range| rule_says(rules[m], range);
        lemma_rule_read(rules[m], range);
    }
}

proof fn lemma_agency_read(agency: AgencyText, ranges: Seq<Range>)
    requires
        rules_say(agency.rules, ranges),
    ensures
        document::agency_model(agency) == (SegmentModel { name: agency.agency, ranges }),
{
    assert forall|m: int| 0 <= m < ranges.len() implies document::rule_range(agency.rules[m])
        == #[trigger] ranges[m] by {
        assert(rule_says(agency.rules[m], ranges[m]));
        lemma_rule_read(agency.rules[m], ranges[m]);
    }
    assert(document::agency_model(agency).ranges =~= ranges);
}

proof fn lemma_group_text(text: Seq<char>)
    requires
        group_text(text),
    ensures
        message::group_key(text) matches Ok(key) && key.0 as int == places::code(text.take(3))
            && key.1 as int == places::code(text.skip(4)),
{
    places::law_group_prefix_is_written(text);
}

proof fn lemma_prefix_text(text: Seq<char>)
    requires
        prefix_text(text),
    ensures
        message::ean_ucc_key(text) matches Ok(key) && key as int == places::code(text),
{
    places::law_ean_ucc_prefix_is_written(text);
    assert(places::char_place(text, 3) == 0);
    assert(places::char_place(text, 4) == 0);
    assert(places::char_place(text, 5) == 0);
    assert(places::char_place(text, 6) == 0);
    assert(places::char_place(text, 7) == 0);
}

proof fn lemma_readable(message: MessageText)
    requires
        well_written(message),
    ensures
        document::readable(message),
{
    assert forall|k: int| 0 <= k < message.prefixes.len() implies document::readable_rules(
        (#[trigger] message.prefixes[k]).rules,
    ) && message::ean_ucc_key(message.prefixes[k].prefix) is Ok by {
        lemma_rules_read(message.prefixes[k].rules);
        lemma_prefix_text(message.prefixes[k].prefix);
    }
    assert forall|k: int| 0 <= k < message.groups.len() implies document::readable_rules(
        (#[trigger] message.groups[k]).rules,
    ) && message::group_key(message.groups[k].prefix) is Ok by {
        lemma_rules_read(message.groups[k].rules);
        lemma_group_text(message.groups[k].prefix);
    }
}

proof fn lemma_prefix_entries(agencies: Seq<AgencyText>, done: EanUccEntries, at: int, key: u16)
    requires
        forall|k: int|
            0 <= k < agencies.len() ==> prefix_text((#[trigger] agencies[k]).prefix),
    ensures
        ({
            let table = document::ean_ucc_table(agencies, done);
            &&& last_prefix(agencies, at, key as int) ==> table.contains_key(key) && table[key]
                == document::agency_model(agencies[at])
            &&& (forall|k: int|
                0 <= k < agencies.len() ==> places::code((#[trigger] agencies[k]).prefix)
                    != key as int) ==> table.contains_key(key) == done.contains_key(key)
                && table[key] == done[key]
        }),
    decreases agencies.len(),
{
    if agencies.len() > 0 {
        let others = agencies.skip(1);
        let first = message::ean_ucc_key(agencies[0].prefix)->Ok_0;
        lemma_prefix_text(agencies[0].prefix);
        assert forall|k: int| 0 <= k < others.len() implies #[trigger] others[k] == agencies[k
            + 1] by {}
        assert forall|k: int| 0 <= k < others.len() implies prefix_text(
            (#[trigger] others[k]).prefix,
        ) by {
            assert(others[k] == agencies[k + 1]);
        }
        lemma_prefix_entries(
            others,
            done.insert(first, document::agency_model(agencies[0])),
            at - 1,
            key,
        );
        if last_prefix(agencies, at, key as int) {
            if at > 0 {
                assert forall|k: int| at - 1 < k < others.len() implies places::code(
                    (#[trigger] others[k]).prefix,
                ) != key as int by {
                    assert(others[k] == agencies[k + 1]);
                }
                assert(last_prefix(others, at - 1, key as int));
            } else {
                assert forall|k: int| 0 <= k < others.len() implies places::code(
                    (#[trigger] others[k]).prefix,
                ) != key as int by {
                    assert(others[k] == agencies[k + 1]);
                }
            }
        }
        if forall|k: int|
            0 <= k < agencies.len() ==> places::code((#[trigger] agencies[k]).prefix)
                != key as int {
            assert forall|k: int| 0 <= k < others.len() implies places::code(
                (#[trigger] others[k]).prefix,
            ) != key as int by {
                assert(others[k] == agencies[k + 1]);
            }
            assert(places::code(agencies[0].prefix) != key as int);
        }
    }
}

proof fn lemma_group_entries(
    agencies: Seq<AgencyText>,
    done: GroupEntries,
    at: int,
    key: (u16, u32),
)
    requires
        forall|k: int|
            0 <= k < agencies.len() ==> group_text((#[trigger] agencies[k]).prefix),
    ensures
        ({
            let table = document::group_table(agencies, done);
            &&& last_group(agencies, at, key.0 as int, key.1 as int) ==> table.contains_key(key)
                && table[key] == document::agency_model(agencies[at])
            &&& (forall|k: int|
                0 <= k < agencies.len() ==> places::code((#[trigger] agencies[k]).prefix.take(3))
                    != key.0 as int || places::code(agencies[k].prefix.skip(4)) != key.1 as int)
                ==> table.contains_key(key) == done.contains_key(key) && table[key] == done[key]
        }),
    decreases agencies.len(),
{
    if agencies.len() > 0 {
        let others = agencies.skip(1);
        let first = message::group_key(agencies[0].prefix)->Ok_0;
        lemma_group_text(agencies[0].prefix);
        assert forall|k: int| 0 <= k < others.len() implies group_text(
            (#[trigger] others[k]).prefix,
        ) by {
            assert(others[k] == agencies[k + 1]);
        }
        lemma_group_entries(
            others,
            done.insert(first, document::agency_model(agencies[0])),
            at - 1,
            key,
        );
        if last_group(agencies, at, key.0 as int, key.1 as int) {
            assert forall|k: int| at - 1 < k < others.len() && 0 <= k implies places::code(
                (#[trigger] others[k]).prefix.take(3),
            ) != key.0 as int || places::code(others[k].prefix.skip(4)) != key.1 as int by {
                assert(others[k] == agencies[k + 1]);
            }
            if at > 0 {
                assert(others[at - 1] == agencies[at]);
                assert(last_group(others, at - 1, key.0 as int, key.1 as int));
            }
        }
        if forall|k: int|
            0 <= k < agencies.len() ==> places::code((#[trigger] agencies[k]).prefix.take(3))
                != key.0 as int || places::code(agencies[k].prefix.skip(4)) != key.1 as int {
            assert forall|k: int| 0 <= k < others.len() implies places::code(
                (#[trigger] others[k]).prefix.take(3),
            ) != key.0 as int || places::code(others[k].prefix.skip(4)) != key.1 as int by {
                assert(others[k] == agencies[k + 1]);
            }
            assert(places::code(agencies[0].prefix.take(3)) != key.0 as int || places::code(
                agencies[0].prefix.skip(4),
            ) != key.1 as int);
        }
    }
}

/// A message whose prefixes and rules are written as such loads, however many there are, whatever
/// events come before it and behind it. It has the date and the serial number that are written. The
/// entry of a GS1 prefix or of a registration group is that of the last element that writes it, with
/// its name and with its rules one for one; and there are no other entries.
pub proof fn law_message_loads_as_written(
    preamble: Seq<ReadModel>,
    message: MessageText,
    following: Seq<ReadModel>,
    prefix_at: int,
    prefix: u16,
    prefix_ranges: Seq<Range>,
    group_at: int,
    group: (u16, u32),
    group_ranges: Seq<Range>,
)
    requires
        document::before_root(preamble),
        well_written(message),
    ensures
        range::range_message(preamble + document::message_reads(message, following)) matches Ok(
            range,
        ) && {
            &&& range.serial_number == Some(message.serial_number)
            &&& range.date == message.date
            &&& last_prefix(message.prefixes, prefix_at, prefix as int) && rules_say(
                message.prefixes[prefix_at].rules,
                prefix_ranges,
            ) ==> {
                &&& range.ean_ucc_group.contains_key(prefix)
                &&& range.ean_ucc_group[prefix].name == message.prefixes[prefix_at].agency
                &&& range.ean_ucc_group[prefix].ranges == prefix_ranges
            }
            &&& (forall|k: int|
                0 <= k < message.prefixes.len() ==> places::code(
                    (#[trigger] message.prefixes[k]).prefix,
                ) != prefix as int) ==> !range.ean_ucc_group.contains_key(prefix)
            &&& last_group(message.groups, group_at, group.0 as int, group.1 as int) && rules_say(
                message.groups[group_at].rules,
                group_ranges,
            ) ==> {
                &&& range.registration_group.contains_key(group)
                &&& range.registration_group[group].name == message.groups[group_at].agency
                &&& range.registration_group[group].ranges == group_ranges
            }
            &&& (forall|k: int|
                0 <= k < message.groups.len() ==> places::code(
                    (#[trigger] message.groups[k]).prefix.take(3),
                ) != group.0 as int || places::code(message.groups[k].prefix.skip(4))
                    != group.1 as int) ==> !range.registration_group.contains_key(group)
        },
{
    lemma_readable(message);
    document::law_expected_format_loads(preamble, message, following);
    lemma_prefix_entries(message.prefixes, Map::empty(), prefix_at, prefix);
    lemma_group_entries(message.groups, Map::empty(), group_at, group);
    if last_prefix(message.prefixes, prefix_at, prefix as int) && rules_say(
        message.prefixes[prefix_at].rules,
        prefix_ranges,
    ) {
        lemma_agency_read(message.prefixes[prefix_at], prefix_ranges);
    }
    if last_group(message.groups, group_at, group.0 as int, group.1 as int) && rules_say(
        message.groups[group_at].rules,
        group_ranges,
    ) {
        lemma_agency_read(message.groups[group_at], group_ranges);
    }
}

/// The text is the figures of the digits.
pub open spec fn same_figures(text: Seq<char>, digits: Seq<u8>) -> bool {
    &&& text.len() == digits.len()
    &&& forall|k: int| 0 <= k < digits.len() ==> text[k] as int == 48 + (#[trigger] digits[k])
}

/// Of the message, the element at `prefix_at` is the last that writes the GS1 prefix, and its first
/// rule in which the body lies says that the registration group has `group` digits; the element at
/// `group_at` is the last that writes the GS1 prefix and those digits, and its first rule in which
/// the digits behind the registration group lie says that the registrant has `registrant` digits.
pub open spec fn message_splits(
    message: MessageText,
    gs1_prefix: Seq<u8>,
    body: Seq<u8>,
    prefix_at: int,
    prefix_ranges: Seq<Range>,
    i: int,
    group: int,
    group_at: int,
    group_ranges: Seq<Range>,
    j: int,
    registrant: int,
) -> bool {
    let prefix_text = message.prefixes[prefix_at].prefix;
    let group_text = message.groups[group_at].prefix;
    &&& 1 <= group <= 7
    &&& 1 <= registrant <= 7
    &&& last_prefix(message.prefixes, prefix_at, places::code(prefix_text))
    &&& same_figures(prefix_text, gs1_prefix)
    &&& rules_say(message.prefixes[prefix_at].rules, prefix_ranges)
    &&& lookup::first_rule(prefix_ranges, places::seven_from(body, 0), i)
    &&& prefix_ranges[i].1 == Some(group as usize)
    &&& last_group(
        message.groups,
        group_at,
        places::code(group_text.take(3)),
        places::code(group_text.skip(4)),
    )
    &&& same_figures(group_text.take(3), gs1_prefix)
    &&& same_figures(group_text.skip(4), body.take(group))
    &&& rules_say(message.groups[group_at].rules, group_ranges)
    &&& lookup::first_rule(group_ranges, places::seven_from(body, group), j)
    &&& group_ranges[j].1 == Some(registrant as usize)
}

proof fn lemma_same_code(text: Seq<char>, digits: Seq<u8>)
    requires
        same_figures(text, digits),
    ensures
        forall|i: int| #[trigger] places::char_place(text, i) == places::place(digits, i),
{
    assert forall|i: int| #[trigger] places::char_place(text, i) == places::place(digits, i) by {
        if 0 <= i < digits.len() {
            assert(text[digits.len() - 1 - i] as int == 48 + digits[digits.len() - 1 - i]);
        }
    }
}

proof fn lemma_split(
    preamble: Seq<ReadModel>,
    message: MessageText,
    following: Seq<ReadModel>,
    gs1_prefix: Seq<u8>,
    body: Seq<u8>,
    prefix_at: int,
    prefix_ranges: Seq<Range>,
    i: int,
    group: int,
    group_at: int,
    group_ranges: Seq<Range>,
    j: int,
    registrant: int,
)
    requires
        document::before_root(preamble),
        well_written(message),
        gs1_prefix.len() == 3,
        lookup::figures(gs1_prefix),
        body.len() == 9,
        lookup::figures(body),
        message_splits(
            message,
            gs1_prefix,
            body,
            prefix_at,
            prefix_ranges,
            i,
            group,
            group_at,
            group_ranges,
            j,
            registrant,
        ),
    ensures
        range::range_message(preamble + document::message_reads(message, following)) matches Ok(
            range,
        ) && lookup::split(range, gs1_prefix, body, group, registrant)
            && range.registration_group[(
            lookup::prefix_code(gs1_prefix),
            lookup::group_code(body, group),
        )].name == message.groups[group_at].agency,
{
    let prefix = lookup::prefix_code(gs1_prefix);
    let key = (prefix, lookup::group_code(body, group));
    let element = body.take(group);
    lemma_same_code(message.prefixes[prefix_at].prefix, gs1_prefix);
    lemma_same_code(message.groups[group_at].prefix.take(3), gs1_prefix);
    lemma_same_code(message.groups[group_at].prefix.skip(4), element);
    assert(gs1_prefix[0] <= 9 && gs1_prefix[1] <= 9 && gs1_prefix[2] <= 9);
    assert forall|k: int| 0 <= #[trigger] places::place(element, k) <= 9 by {
        if 0 <= k < element.len() {
            assert(body[element.len() - 1 - k] <= 9);
        }
    }
    assert(places::place(element, 7) == 0);
    assert(places::place(gs1_prefix, 0) == gs1_prefix[2]);
    assert(places::place(gs1_prefix, 1) == gs1_prefix[1]);
    assert(places::place(gs1_prefix, 2) == gs1_prefix[0]);
    assert(places::place(gs1_prefix, 3) == 0);
    assert(places::place(gs1_prefix, 4) == 0);
    assert(places::place(gs1_prefix, 5) == 0);
    assert(places::place(gs1_prefix, 6) == 0);
    assert(places::place(gs1_prefix, 7) == 0);
    assert(places::code(message.prefixes[prefix_at].prefix) == prefix);
    assert(places::code(message.groups[group_at].prefix.take(3)) == prefix);
    assert(places::code(message.groups[group_at].prefix.skip(4)) == key.1);
    law_message_loads_as_written(
        preamble,
        message,
        following,
        prefix_at,
        prefix,
        prefix_ranges,
        group_at,
        key,
        group_ranges,
    );
}

/// An ISBN-13 is given the name of the last `Group` element that writes its GS1 prefix and its
/// registration group, whatever other elements the message holds, and reads GS1 prefix, registration
/// group, registrant, publication and check digit with the lengths that the rules write.
pub proof fn law_isbn13_by_message(
    preamble: Seq<ReadModel>,
    message: MessageText,
    following: Seq<ReadModel>,
    isbn: Isbn13,
    prefix_at: int,
    prefix_ranges: Seq<Range>,
    i: int,
    group: int,
    group_at: int,
    group_ranges: Seq<Range>,
    j: int,
    registrant: int,
)
    requires
        document::before_root(preamble),
        well_written(message),
        isbn@.len() == 13,
        lookup::figures(isbn@),
        message_splits(
            message,
            isbn@.take(3),
            isbn@.subrange(3, 12),
            prefix_at,
            prefix_ranges,
            i,
            group,
            group_at,
            group_ranges,
            j,
            registrant,
        ),
    ensures
        range::range_message(preamble + document::message_reads(message, following)) matches Ok(
            range,
        ) && range::group_name(range, isbn) == Ok::<Seq<char>, IsbnError>(
            message.groups[group_at].agency,
        ) && (range::hyphenation(range, isbn) matches Ok(text) && lookup::reads_body(
            text,
            4,
            isbn@.subrange(3, 12),
            isbn@[12],
            group,
            group + registrant,
        ) && text[0] as int == 48 + isbn@[0] && text[1] as int == 48 + isbn@[1] && text[2] as int
            == 48 + isbn@[2] && text[3] == '-'),
{
    let gs1_prefix = isbn@.take(3);
    let body = isbn@.subrange(3, 12);
    assert forall|k: int| 0 <= k < 3 implies #[trigger] gs1_prefix[k] <= 9 by {
        assert(isbn@[k] <= 9);
    }
    assert forall|k: int| 0 <= k < 9 implies #[trigger] body[k] <= 9 by {
        assert(isbn@[k + 3] <= 9);
    }
    lemma_split(
        preamble,
        message,
        following,
        gs1_prefix,
        body,
        prefix_at,
        prefix_ranges,
        i,
        group,
        group_at,
        group_ranges,
        j,
        registrant,
    );
    let reads = preamble + document::message_reads(message, following);
    if let Ok(range) = range::range_message(reads) {
        lookup::law_isbn13_by_rules(range, isbn, group, registrant);
    }
}

/// An ISBN-10 is given the name of the last `Group` element that writes `978` and its registration
/// group, whatever other elements the message holds, and reads registration group, registrant,
/// publication and check digit with the lengths that the rules write.
pub proof fn law_isbn10_by_message(
    preamble: Seq<ReadModel>,
    message: MessageText,
    following: Seq<ReadModel>,
    isbn: Isbn10,
    prefix_at: int,
    prefix_ranges: Seq<Range>,
    i: int,
    group: int,
    group_at: int,
    group_ranges: Seq<Range>,
    j: int,
    registrant: int,
)
    requires
        document::before_root(preamble),
        well_written(message),
        isbn@.len() == 10,
        lookup::figures(isbn@.take(9)),
        isbn@[9] <= 10,
        message_splits(
            message,
            seq![9u8, 7, 8],
            isbn@.take(9),
            prefix_at,
            prefix_ranges,
            i,
            group,
            group_at,
            group_ranges,
            j,
            registrant,
        ),
    ensures
        range::range_message(preamble + document::message_reads(message, following)) matches Ok(
            range,
        ) && range::group_name(range, isbn) == Ok::<Seq<char>, IsbnError>(
            message.groups[group_at].agency,
        ) && (range::hyphenation(range, isbn) matches Ok(text) && lookup::reads_body(
            text,
            0,
            isbn@.take(9),
            isbn@[9],
            group,
            group + registrant,
        )),
{
    lemma_split(
        preamble,
        message,
        following,
        seq![9u8, 7, 8],
        isbn@.take(9),
        prefix_at,
        prefix_ranges,
        i,
        group,
        group_at,
        group_ranges,
        j,
        registrant,
    );
    let reads = preamble + document::message_reads(message, following);
    if let Ok(range) = range::range_message(reads) {
        lookup::law_isbn10_by_rules(range, isbn, group, registrant);
    }
}

} // verus!
