//! Which part of a document decides what it loads as.

use crate::document;
use crate::error::IsbnRangeError;
use crate::message::{self, Outcome, Range};
use crate::range::{self, RangeModel};
use crate::segment;
use crate::tables::{EanUccEntries, GroupEntries};
use crate::xml::{ReadModel, XmlEvent};
use vstd::prelude::*;

verus! {

/// The step left at least `following` unread, and was not stopped by the end of the document.
spec fn settled<T>(step: Outcome<T>, following: Seq<ReadModel>) -> bool {
    &&& step.1.len() >= following.len()
    &&& following.len() > 0 || step.0 is Ok || step.1.len() > 0
}

/// The two steps give the same and leave the same, but that `other` follows in place of
/// `following`.
spec fn same_step<T>(
    one: Outcome<T>,
    two: Outcome<T>,
    following: Seq<ReadModel>,
    other: Seq<ReadModel>,
) -> bool {
    let rest = left_of(one, following);
    one.1 == rest + following && two.0 == one.0 && two.1 == rest + other
}

/// What the step left of the reads before `following`.
spec fn left_of<T>(step: Outcome<T>, following: Seq<ReadModel>) -> Seq<ReadModel> {
    step.1.take(step.1.len() - following.len())
}

proof fn lemma_next(reads: Seq<ReadModel>, following: Seq<ReadModel>, other: Seq<ReadModel>)
    requires
        reads.len() > 0,
    ensures
        same_step(
            message::next_event(reads + following),
            message::next_event(reads + other),
            following,
            other,
        ),
        left_of(message::next_event(reads + following), following) == reads.skip(1),
{
    let rest = reads.skip(1);
    assert((reads + following).skip(1) =~= rest + following);
    assert((reads + other).skip(1) =~= rest + other);
    assert((rest + following).take(rest.len() as int) =~= rest);
}

proof fn lemma_start_tag(
    reads: Seq<ReadModel>,
    following: Seq<ReadModel>,
    other: Seq<ReadModel>,
    name: Seq<char>,
)
    requires
        settled(message::start_tag(reads + following, name), following),
    ensures
        same_step(
            message::start_tag(reads + following, name),
            message::start_tag(reads + other, name),
            following,
            other,
        ),
{
    if reads.len() == 0 {
        assert(reads + following =~= following);
    } else {
        lemma_next(reads, following, other);
    }
}

proof fn lemma_end_tag(
    reads: Seq<ReadModel>,
    following: Seq<ReadModel>,
    other: Seq<ReadModel>,
    name: Seq<char>,
    alternative: Seq<char>,
)
    requires
        settled(message::end_tag(reads + following, name, alternative), following),
    ensures
        same_step(
            message::end_tag(reads + following, name, alternative),
            message::end_tag(reads + other, name, alternative),
            following,
            other,
        ),
{
    if reads.len() == 0 {
        assert(reads + following =~= following);
    } else {
        lemma_next(reads, following, other);
    }
}

proof fn lemma_text_body(reads: Seq<ReadModel>, following: Seq<ReadModel>, other: Seq<ReadModel>)
    requires
        settled(message::text_body(reads + following), following),
    ensures
        same_step(
            message::text_body(reads + following),
            message::text_body(reads + other),
            following,
            other,
        ),
{
    if reads.len() == 0 {
        assert(reads + following =~= following);
    } else {
        lemma_next(reads, following, other);
    }
}

proof fn lemma_text_element(
    reads: Seq<ReadModel>,
    following: Seq<ReadModel>,
    other: Seq<ReadModel>,
    name: Seq<char>,
)
    requires
        settled(message::text_element(reads + following, name), following),
    ensures
        same_step(
            message::text_element(reads + following, name),
            message::text_element(reads + other, name),
            following,
            other,
        ),
{
    reveal(message::text_element);
    let first = message::start_tag(reads + following, name);
    lemma_start_tag(reads, following, other, name);
    if first.0 is Ok {
        let rest1 = left_of(first, following);
        let second = message::text_body(rest1 + following);
        lemma_text_body(rest1, following, other);
        if second.0 is Ok {
            lemma_end_tag(left_of(second, following), following, other, name, name);
        }
    }
}

proof fn lemma_rule_body(reads: Seq<ReadModel>, following: Seq<ReadModel>, other: Seq<ReadModel>)
    requires
        settled(message::rule_body(reads + following), following),
    ensures
        same_step(
            message::rule_body(reads + following),
            message::rule_body(reads + other),
            following,
            other,
        ),
{
    reveal(message::rule_body);
    let range = message::text_element(reads + following, "Range"@);
    let length = message::text_element(range.1, "Length"@);
    message::lemma_text_element_rest(range.1, "Length"@);
    lemma_text_element(reads, following, other, "Range"@);
    if let Ok(range_text) = range.0 {
        let rest1 = left_of(range, following);
        lemma_text_element(rest1, following, other, "Length"@);
        if let Ok(length_text) = length.0 {
            if message::range_bounds(range_text) is Ok && message::part_length(length_text) is Ok {
                lemma_end_tag(left_of(length, following), following, other, "Rule"@, "Rule"@);
            }
        }
    }
}

proof fn lemma_rules_body(
    reads: Seq<ReadModel>,
    following: Seq<ReadModel>,
    other: Seq<ReadModel>,
    done: Seq<Range>,
)
    requires
        settled(message::rules_body(reads + following, done), following),
    ensures
        same_step(
            message::rules_body(reads + following, done),
            message::rules_body(reads + other, done),
            following,
            other,
        ),
    decreases reads.len(),
{
    let next = message::next_event(reads + following);
    let rule = message::rule_body(next.1);
    message::lemma_rule_body_rest(next.1);
    if reads.len() == 0 {
        assert(reads + following =~= following);
        if following.len() > 0 {
            if let Ok(range) = rule.0 {
                message::lemma_rules_body_rest(rule.1, done.push(range));
            }
        }
    } else {
        let inside = reads.skip(1);
        lemma_next(reads, following, other);
        let goes_on = match next.0 {
            Ok(Some(XmlEvent::Start(name))) => name == vstd::utf8::encode_utf8("Rule"@),
            Ok(Some(XmlEvent::End(name))) => name != vstd::utf8::encode_utf8("Rules"@),
            _ => false,
        };
        if goes_on {
            if let Ok(range) = rule.0 {
                message::lemma_rules_body_rest(rule.1, done.push(range));
                lemma_rule_body(inside, following, other);
                lemma_rules_body(left_of(rule, following), following, other, done.push(range));
            } else {
                lemma_rule_body(inside, following, other);
            }
        }
    }
}

proof fn lemma_segment_body(reads: Seq<ReadModel>, following: Seq<ReadModel>, other: Seq<ReadModel>)
    requires
        settled(segment::segment_body(reads + following), following),
    ensures
        same_step(
            segment::segment_body(reads + following),
            segment::segment_body(reads + other),
            following,
            other,
        ),
{
    reveal(segment::segment_body);
    let name = message::text_element(reads + following, "Agency"@);
    let starts = message::start_tag(name.1, "Rules"@);
    let rules = message::rules_body(starts.1, seq![]);
    message::lemma_rules_body_rest(starts.1, seq![]);
    lemma_text_element(reads, following, other, "Agency"@);
    if name.0 is Ok {
        let rest1 = left_of(name, following);
        lemma_start_tag(rest1, following, other, "Rules"@);
        if starts.0 is Ok {
            let rest2 = left_of(starts, following);
            lemma_rules_body(rest2, following, other, seq![]);
            if rules.0 is Ok {
                lemma_end_tag(left_of(rules, following), following, other, "EAN.UCC"@, "Group"@);
            }
        }
    }
}

proof fn lemma_agency_start(
    reads: Seq<ReadModel>,
    following: Seq<ReadModel>,
    other: Seq<ReadModel>,
    list: Seq<char>,
    item: Seq<char>,
    refusal: IsbnRangeError,
)
    requires
        settled(range::agency_start(reads + following, list, item, refusal), following),
    ensures
        same_step(
            range::agency_start(reads + following, list, item, refusal),
            range::agency_start(reads + other, list, item, refusal),
            following,
            other,
        ),
        reads.len() > 0,
        left_of(range::agency_start(reads + following, list, item, refusal), following).len()
            < reads.len(),
{
    if reads.len() == 0 {
        assert(reads + following =~= following);
    } else {
        lemma_next(reads, following, other);
    }
}

proof fn lemma_ean_ucc_rest(reads: Seq<ReadModel>, done: EanUccEntries)
    ensures
        range::ean_ucc_body(reads, done).1.len() <= reads.len(),
    decreases reads.len(),
{
    let begin = range::agency_start(
        reads,
        "EAN.UCCPrefixes"@,
        "EAN.UCC"@,
        IsbnRangeError::NoEanUccPrefix,
    );
    let prefix = message::text_element(begin.1, "Prefix"@);
    let agency = segment::segment_body(prefix.1);
    message::lemma_text_element_rest(begin.1, "Prefix"@);
    segment::lemma_segment_body_rest(prefix.1);
    if reads.len() > 0 {
        if let (Ok(text), Ok(model)) = (prefix.0, agency.0) {
            if let Ok(key) = message::ean_ucc_key(text) {
                lemma_ean_ucc_rest(agency.1, done.insert(key, model));
            }
        }
    }
}

proof fn lemma_groups_rest(reads: Seq<ReadModel>, done: GroupEntries)
    ensures
        range::groups_body(reads, done).1.len() <= reads.len(),
    decreases reads.len(),
{
    let begin = range::agency_start(
        reads,
        "RegistrationGroups"@,
        "Group"@,
        IsbnRangeError::NoGroup,
    );
    let prefix = message::text_element(begin.1, "Prefix"@);
    let agency = segment::segment_body(prefix.1);
    message::lemma_text_element_rest(begin.1, "Prefix"@);
    segment::lemma_segment_body_rest(prefix.1);
    if reads.len() > 0 {
        if let (Ok(text), Ok(model)) = (prefix.0, agency.0) {
            if let Ok(key) = message::group_key(text) {
                lemma_groups_rest(agency.1, done.insert(key, model));
            }
        }
    }
}

#[verifier::rlimit(30)]
proof fn lemma_ean_ucc_body(
    reads: Seq<ReadModel>,
    following: Seq<ReadModel>,
    other: Seq<ReadModel>,
    done: EanUccEntries,
)
    requires
        settled(range::ean_ucc_body(reads + following, done), following),
    ensures
        same_step(
            range::ean_ucc_body(reads + following, done),
            range::ean_ucc_body(reads + other, done),
            following,
            other,
        ),
        reads.len() > 0,
    decreases reads.len(),
{
    let list = "EAN.UCCPrefixes"@;
    let item = "EAN.UCC"@;
    let refusal = IsbnRangeError::NoEanUccPrefix;
    let begin = range::agency_start(reads + following, list, item, refusal);
    let prefix = message::text_element(begin.1, "Prefix"@);
    let agency = segment::segment_body(prefix.1);
    message::lemma_text_element_rest(begin.1, "Prefix"@);
    segment::lemma_segment_body_rest(prefix.1);
    if let (Ok(text), Ok(model)) = (prefix.0, agency.0) {
        if let Ok(key) = message::ean_ucc_key(text) {
            lemma_ean_ucc_rest(agency.1, done.insert(key, model));
        }
    }
    lemma_agency_start(reads, following, other, list, item, refusal);
    if begin.0 matches Ok(Some(_)) {
        let rest1 = left_of(begin, following);
        lemma_text_element(rest1, following, other, "Prefix"@);
        if let Ok(text) = prefix.0 {
            if let Ok(key) = message::ean_ucc_key(text) {
                let rest2 = left_of(prefix, following);
                lemma_segment_body(rest2, following, other);
                if let Ok(model) = agency.0 {
                    lemma_ean_ucc_body(
                        left_of(agency, following),
                        following,
                        other,
                        done.insert(key, model),
                    );
                }
            }
        }
    }
}

#[verifier::rlimit(30)]
proof fn lemma_groups_body(
    reads: Seq<ReadModel>,
    following: Seq<ReadModel>,
    other: Seq<ReadModel>,
    done: GroupEntries,
)
    requires
        settled(range::groups_body(reads + following, done), following),
    ensures
        same_step(
            range::groups_body(reads + following, done),
            range::groups_body(reads + other, done),
            following,
            other,
        ),
        reads.len() > 0,
    decreases reads.len(),
{
    let list = "RegistrationGroups"@;
    let item = "Group"@;
    let refusal = IsbnRangeError::NoGroup;
    let begin = range::agency_start(reads + following, list, item, refusal);
    let prefix = message::text_element(begin.1, "Prefix"@);
    let agency = segment::segment_body(prefix.1);
    message::lemma_text_element_rest(begin.1, "Prefix"@);
    segment::lemma_segment_body_rest(prefix.1);
    if let (Ok(text), Ok(model)) = (prefix.0, agency.0) {
        if let Ok(key) = message::group_key(text) {
            lemma_groups_rest(agency.1, done.insert(key, model));
        }
    }
    lemma_agency_start(reads, following, other, list, item, refusal);
    if begin.0 matches Ok(Some(_)) {
        let rest1 = left_of(begin, following);
        lemma_text_element(rest1, following, other, "Prefix"@);
        if let Ok(text) = prefix.0 {
            if let Ok(key) = message::group_key(text) {
                let rest2 = left_of(prefix, following);
                lemma_segment_body(rest2, following, other);
                if let Ok(model) = agency.0 {
                    lemma_groups_body(
                        left_of(agency, following),
                        following,
                        other,
                        done.insert(key, model),
                    );
                }
            }
        }
    }
}

/// Unlike the other steps this one passes over the end of the document, so that success alone does
/// not show that the end was not met.
proof fn lemma_no_other_start(
    reads: Seq<ReadModel>,
    following: Seq<ReadModel>,
    other: Seq<ReadModel>,
    name: Seq<char>,
    refusal: IsbnRangeError,
)
    requires
        range::no_other_start(reads + following, name, refusal).1.len() >= following.len(),
        following.len() > 0 || range::no_other_start(
            reads + following,
            name,
            refusal,
        ).1.len() > 0 || range::no_other_start(reads + following, name, refusal).0 is Err,
    ensures
        same_step(
            range::no_other_start(reads + following, name, refusal),
            range::no_other_start(reads + other, name, refusal),
            following,
            other,
        ),
{
    if reads.len() == 0 {
        assert(reads + following =~= following);
    } else {
        lemma_next(reads, following, other);
    }
}

proof fn lemma_tables_body(reads: Seq<ReadModel>, following: Seq<ReadModel>, other: Seq<ReadModel>)
    requires
        settled(range::tables_body(reads + following), following),
    ensures
        same_step(
            range::tables_body(reads + following),
            range::tables_body(reads + other),
            following,
            other,
        ),
        reads.len() > 0,
{
    let prefixes = range::no_other_start(
        reads + following,
        "EAN.UCCPrefixes"@,
        IsbnRangeError::NoEanUccPrefixes,
    );
    let ean_ucc = range::ean_ucc_body(prefixes.1, Map::empty());
    let groups = range::no_other_start(
        ean_ucc.1,
        "RegistrationGroups"@,
        IsbnRangeError::NoRegistrationGroups,
    );
    let registration = range::groups_body(groups.1, Map::empty());
    lemma_ean_ucc_rest(prefixes.1, Map::empty());
    lemma_groups_rest(groups.1, Map::empty());
    assert(prefixes.1.len() > 0 || prefixes.0 is Err || following.len() > 0);
    lemma_no_other_start(
        reads,
        following,
        other,
        "EAN.UCCPrefixes"@,
        IsbnRangeError::NoEanUccPrefixes,
    );
    if prefixes.0 is Ok {
        let rest1 = left_of(prefixes, following);
        lemma_ean_ucc_body(rest1, following, other, Map::empty());
        if ean_ucc.0 is Ok {
            let rest2 = left_of(ean_ucc, following);
            lemma_no_other_start(
                rest2,
                following,
                other,
                "RegistrationGroups"@,
                IsbnRangeError::NoRegistrationGroups,
            );
            if groups.0 is Ok {
                lemma_groups_body(left_of(groups, following), following, other, Map::empty());
            }
        }
    }
}

proof fn lemma_element_needs_reads(reads: Seq<ReadModel>, name: Seq<char>)
    ensures
        message::text_element(reads, name).0 is Ok ==> reads.len() > 0,
{
    reveal(message::text_element);
}

proof fn lemma_tables_rest(reads: Seq<ReadModel>)
    ensures
        range::tables_body(reads).1.len() <= reads.len(),
{
    let prefixes = range::no_other_start(
        reads,
        "EAN.UCCPrefixes"@,
        IsbnRangeError::NoEanUccPrefixes,
    );
    let ean_ucc = range::ean_ucc_body(prefixes.1, Map::empty());
    let groups = range::no_other_start(
        ean_ucc.1,
        "RegistrationGroups"@,
        IsbnRangeError::NoRegistrationGroups,
    );
    lemma_ean_ucc_rest(prefixes.1, Map::empty());
    lemma_groups_rest(groups.1, Map::empty());
}

proof fn lemma_message_body(reads: Seq<ReadModel>, following: Seq<ReadModel>, other: Seq<ReadModel>)
    requires
        settled(range::message_body(reads + following), following),
    ensures
        same_step(
            range::message_body(reads + following),
            range::message_body(reads + other),
            following,
            other,
        ),
{
    let source = message::text_element(reads + following, "MessageSource"@);
    let serial_number = message::text_element(source.1, "MessageSerialNumber"@);
    let date = message::text_element(serial_number.1, "MessageDate"@);
    message::lemma_text_element_rest(source.1, "MessageSerialNumber"@);
    message::lemma_text_element_rest(serial_number.1, "MessageDate"@);
    lemma_element_needs_reads(serial_number.1, "MessageDate"@);
    lemma_tables_rest(date.1);
    lemma_text_element(reads, following, other, "MessageSource"@);
    let rest1 = left_of(source, following);
    lemma_text_element(rest1, following, other, "MessageSerialNumber"@);
    let rest2 = left_of(serial_number, following);
    lemma_text_element(rest2, following, other, "MessageDate"@);
    if date.0 is Ok {
        lemma_tables_body(left_of(date, following), following, other);
    }
}

proof fn lemma_message_rest(reads: Seq<ReadModel>)
    ensures
        range::message_body(reads).1.len() <= reads.len(),
{
    let source = message::text_element(reads, "MessageSource"@);
    let serial_number = message::text_element(source.1, "MessageSerialNumber"@);
    let date = message::text_element(serial_number.1, "MessageDate"@);
    message::lemma_text_element_rest(reads, "MessageSource"@);
    message::lemma_text_element_rest(source.1, "MessageSerialNumber"@);
    message::lemma_text_element_rest(serial_number.1, "MessageDate"@);
    lemma_tables_rest(date.1);
}

proof fn lemma_root_rest(reads: Seq<ReadModel>)
    ensures
        range::root_start(reads).1.len() <= reads.len(),
    decreases reads.len(),
{
    if reads.len() > 0 {
        lemma_root_rest(reads.skip(1));
    }
}

proof fn lemma_root_start(reads: Seq<ReadModel>, following: Seq<ReadModel>, other: Seq<ReadModel>)
    requires
        settled(range::root_start(reads + following), following),
    ensures
        same_step(
            range::root_start(reads + following),
            range::root_start(reads + other),
            following,
            other,
        ),
    decreases reads.len(),
{
    if reads.len() == 0 {
        assert(reads + following =~= following);
        if following.len() > 0 {
            lemma_root_rest(following.skip(1));
        }
    } else {
        lemma_next(reads, following, other);
        if (reads + following)[0] is Ok && (reads + following)[0] != document::start(
            "ISBNRangeMessage"@,
        ) {
            lemma_root_start(reads.skip(1), following, other);
        }
    }
}

proof fn lemma_message_step(reads: Seq<ReadModel>, following: Seq<ReadModel>, other: Seq<ReadModel>)
    requires
        settled(range::message_step(reads + following), following),
    ensures
        same_step(
            range::message_step(reads + following),
            range::message_step(reads + other),
            following,
            other,
        ),
{
    let root = range::root_start(reads + following);
    lemma_message_rest(root.1);
    lemma_root_start(reads, following, other);
    if root.0 is Ok {
        lemma_message_body(left_of(root, following), following, other);
    }
}

/// Loading stops within the reads, with a set of ranges or with an error: one more read behind them
/// is left unread.
pub open spec fn stops_within(reads: Seq<ReadModel>) -> bool {
    range::message_step(reads.push(Ok(XmlEvent::Other))).1.len() > 0
}

/// A message from its root element on, with a source, then what follows the source.
pub open spec fn message_with_source(source: Seq<char>, body: Seq<ReadModel>) -> Seq<ReadModel> {
    document::cons(
        document::start("ISBNRangeMessage"@),
        document::element("MessageSource"@, source, body),
    )
}

/// What comes before the root element does not matter, whether the message loads or not.
pub proof fn law_preamble_does_not_matter(preamble: Seq<ReadModel>, reads: Seq<ReadModel>)
    requires
        document::before_root(preamble),
    ensures
        range::range_message(preamble + reads) == range::range_message(reads),
{
    document::lemma_before_root(preamble, reads);
}

/// What the source of the message is does not matter, whatever follows it.
pub proof fn law_source_does_not_matter(
    source: Seq<char>,
    other_source: Seq<char>,
    body: Seq<ReadModel>,
)
    ensures
        range::range_message(message_with_source(source, body)) == range::range_message(
            message_with_source(other_source, body),
        ),
        stops_within(message_with_source(source, body)) == stops_within(
            message_with_source(other_source, body),
        ),
{
    lemma_source(source, body);
    lemma_source(other_source, body);
    let last = Ok(XmlEvent::Other);
    lemma_source(source, body.push(last));
    lemma_source(other_source, body.push(last));
    assert(message_with_source(source, body).push(last) =~= message_with_source(
        source,
        body.push(last),
    ));
    assert(message_with_source(other_source, body).push(last) =~= message_with_source(
        other_source,
        body.push(last),
    ));
}

/// What a message gives whose source is empty.
spec fn after_source(body: Seq<ReadModel>) -> Outcome<RangeModel> {
    range::message_step(message_with_source(seq![], body))
}

proof fn lemma_source(source: Seq<char>, body: Seq<ReadModel>)
    ensures
        range::message_step(message_with_source(source, body)) == after_source(body),
{
    let root = document::start("ISBNRangeMessage"@);
    let empty = Seq::<char>::empty();
    document::lemma_next(root, document::element("MessageSource"@, source, body));
    document::lemma_next(root, document::element("MessageSource"@, empty, body));
    document::lemma_element("MessageSource"@, source, body);
    document::lemma_element("MessageSource"@, empty, body);
}

/// What follows the reads within which loading stops does not matter, whether the message loads or
/// not.
pub proof fn law_following_does_not_matter(reads: Seq<ReadModel>, following: Seq<ReadModel>)
    requires
        stops_within(reads),
    ensures
        range::range_message(reads + following) == range::range_message(reads),
{
    let one_more = seq![Ok(XmlEvent::Other)];
    assert(reads.push(Ok(XmlEvent::Other)) =~= reads + one_more);
    lemma_message_step(reads, one_more, following);
    lemma_message_step(reads, one_more, seq![]);
    assert(reads + seq![] =~= reads);
}

/// A message that loads is read no further than its last list, and loads as the same ranges
/// whatever follows.
pub proof fn law_loaded_stops_within(reads: Seq<ReadModel>, following: Seq<ReadModel>)
    requires
        range::range_message(reads) is Ok,
    ensures
        stops_within(reads),
        range::range_message(reads + following) == range::range_message(reads),
{
    let one_more = seq![Ok(XmlEvent::Other)];
    assert(reads + seq![] =~= reads);
    assert(reads.push(Ok(XmlEvent::Other)) =~= reads + one_more);
    lemma_message_step(reads, seq![], one_more);
    law_following_does_not_matter(reads, following);
}

/// Where loading has left some of the reads unread, it stops within them.
pub proof fn law_unread_stops_within(reads: Seq<ReadModel>)
    requires
        range::message_step(reads).1.len() > 0,
    ensures
        stops_within(reads),
{
    let one_more = seq![Ok(XmlEvent::Other)];
    assert(reads + seq![] =~= reads);
    assert(reads.push(Ok(XmlEvent::Other)) =~= reads + one_more);
    lemma_message_step(reads, seq![], one_more);
}

/// Two documents with the same message, within which loading stops, give the same ranges or the
/// same error, whatever comes before its root element and whatever follows it.
pub proof fn law_message_alone_decides(
    preamble: Seq<ReadModel>,
    other_preamble: Seq<ReadModel>,
    message: Seq<ReadModel>,
    following: Seq<ReadModel>,
    other_following: Seq<ReadModel>,
)
    requires
        document::before_root(preamble),
        document::before_root(other_preamble),
        stops_within(message),
    ensures
        range::range_message(preamble + (message + following)) == range::range_message(
            other_preamble + (message + other_following),
        ),
{
    law_preamble_does_not_matter(preamble, message + following);
    law_preamble_does_not_matter(other_preamble, message + other_following);
    law_following_does_not_matter(message, following);
    law_following_does_not_matter(message, other_following);
}

/// The same of two documents whose messages differ in the text of their source.
pub proof fn law_message_but_source_decides(
    preamble: Seq<ReadModel>,
    other_preamble: Seq<ReadModel>,
    source: Seq<char>,
    other_source: Seq<char>,
    body: Seq<ReadModel>,
    following: Seq<ReadModel>,
    other_following: Seq<ReadModel>,
)
    requires
        document::before_root(preamble),
        document::before_root(other_preamble),
        stops_within(message_with_source(source, body)),
    ensures
        range::range_message(preamble + (message_with_source(source, body) + following))
            == range::range_message(
            other_preamble + (message_with_source(other_source, body) + other_following),
        ),
{
    let one = message_with_source(source, body);
    let two = message_with_source(other_source, body);
    law_source_does_not_matter(source, other_source, body);
    law_following_does_not_matter(one, following);
    law_preamble_does_not_matter(preamble, one + following);
    law_following_does_not_matter(two, other_following);
    law_preamble_does_not_matter(other_preamble, two + other_following);
}

} // verus!
