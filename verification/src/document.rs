//! Range messages as documents: what is read from one that is in the expected format, and what it
//! loads as.

use crate::error::IsbnRangeError;
use crate::message::{self, Range};
use crate::range::{self, RangeModel};
use crate::segment::{self, SegmentModel};
use crate::tables::{EanUccEntries, GroupEntries};
use crate::xml::{ReadModel, XmlEvent};
use vstd::prelude::*;
use vstd::utf8;

verus! {

/// The texts of a `Rule` element.
pub struct RuleText {
    /// The text of its `Range`.
    pub range: Seq<char>,
    /// The text of its `Length`.
    pub length: Seq<char>,
}

/// The texts of an `EAN.UCC` or a `Group` element.
pub struct AgencyText {
    /// The text of its `Prefix`.
    pub prefix: Seq<char>,
    /// The text of its `Agency`.
    pub agency: Seq<char>,
    /// Its rules, in order.
    pub rules: Seq<RuleText>,
}

/// The texts of a message.
pub struct MessageText {
    /// The text of `MessageSource`.
    pub source: Seq<char>,
    /// The text of `MessageSerialNumber`.
    pub serial_number: Seq<char>,
    /// The text of `MessageDate`.
    pub date: Seq<char>,
    /// The `EAN.UCC` elements, in order.
    pub prefixes: Seq<AgencyText>,
    /// The `Group` elements, in order.
    pub groups: Seq<AgencyText>,
}

/// One read, then those that follow.
pub open spec fn cons(read: ReadModel, following: Seq<ReadModel>) -> Seq<ReadModel> {
    seq![read] + following
}

/// The read of a start tag.
pub open spec fn start(name: Seq<char>) -> ReadModel {
    Ok(XmlEvent::Start(utf8::encode_utf8(name)))
}

/// The read of an end tag.
pub open spec fn end(name: Seq<char>) -> ReadModel {
    Ok(XmlEvent::End(utf8::encode_utf8(name)))
}

/// The reads of an element that holds a text, then those that follow.
pub open spec fn element(
    name: Seq<char>,
    text: Seq<char>,
    following: Seq<ReadModel>,
) -> Seq<ReadModel> {
    cons(start(name), cons(Ok(XmlEvent::Text(Ok(text))), cons(end(name), following)))
}

/// The reads of a `Rule` element, then those that follow.
pub open spec fn rule_reads(rule: RuleText, following: Seq<ReadModel>) -> Seq<ReadModel> {
    cons(
        start("Rule"@),
        element(
            "Range"@,
            rule.range,
            element("Length"@, rule.length, cons(end("Rule"@), following)),
        ),
    )
}

/// The reads of `Rule` elements, then those that follow.
pub open spec fn rules_reads(rules: Seq<RuleText>, following: Seq<ReadModel>) -> Seq<ReadModel>
    decreases rules.len(),
{
    if rules.len() == 0 {
        following
    } else {
        rule_reads(rules[0], rules_reads(rules.skip(1), following))
    }
}

/// The reads of an `EAN.UCC` or a `Group` element, then those that follow.
pub open spec fn agency_reads(
    name: Seq<char>,
    agency: AgencyText,
    following: Seq<ReadModel>,
) -> Seq<ReadModel> {
    cons(
        start(name),
        element(
            "Prefix"@,
            agency.prefix,
            element(
                "Agency"@,
                agency.agency,
                cons(
                    start("Rules"@),
                    rules_reads(agency.rules, cons(end("Rules"@), cons(end(name), following))),
                ),
            ),
        ),
    )
}

/// The reads of `EAN.UCC` or `Group` elements, then those that follow.
pub open spec fn agencies_reads(
    name: Seq<char>,
    agencies: Seq<AgencyText>,
    following: Seq<ReadModel>,
) -> Seq<ReadModel>
    decreases agencies.len(),
{
    if agencies.len() == 0 {
        following
    } else {
        agency_reads(name, agencies[0], agencies_reads(name, agencies.skip(1), following))
    }
}

/// The reads of a message from its root element on, then those that follow its last group.
pub open spec fn message_reads(message: MessageText, following: Seq<ReadModel>) -> Seq<ReadModel> {
    let groups = cons(
        start("RegistrationGroups"@),
        agencies_reads("Group"@, message.groups, cons(end("RegistrationGroups"@), following)),
    );
    let prefixes = cons(
        start("EAN.UCCPrefixes"@),
        agencies_reads("EAN.UCC"@, message.prefixes, cons(end("EAN.UCCPrefixes"@), groups)),
    );
    cons(
        start("ISBNRangeMessage"@),
        element(
            "MessageSource"@,
            message.source,
            element(
                "MessageSerialNumber"@,
                message.serial_number,
                element("MessageDate"@, message.date, prefixes),
            ),
        ),
    )
}

/// Both texts of the rule can be read.
pub open spec fn readable_rule(rule: RuleText) -> bool {
    message::range_bounds(rule.range) is Ok && message::part_length(rule.length) is Ok
}

/// All rules of the agency can be read.
pub open spec fn readable_rules(rules: Seq<RuleText>) -> bool {
    forall|i: int| 0 <= i < rules.len() ==> readable_rule(#[trigger] rules[i])
}

/// The rules and the prefixes of the message can be read.
pub open spec fn readable(message: MessageText) -> bool {
    &&& forall|i: int|
        0 <= i < message.prefixes.len() ==> readable_rules((#[trigger] message.prefixes[i]).rules)
            && message::ean_ucc_key(message.prefixes[i].prefix) is Ok
    &&& forall|i: int|
        0 <= i < message.groups.len() ==> readable_rules((#[trigger] message.groups[i]).rules)
            && message::group_key(message.groups[i].prefix) is Ok
}

/// The range that a rule gives.
pub open spec fn rule_range(rule: RuleText) -> Range {
    (message::range_bounds(rule.range)->Ok_0, message::part_length(rule.length)->Ok_0)
}

/// The agency that its texts give.
pub open spec fn agency_model(agency: AgencyText) -> SegmentModel {
    SegmentModel {
        name: agency.agency,
        ranges: Seq::new(agency.rules.len(), |i: int| rule_range(agency.rules[i])),
    }
}

/// The agencies by GS1 prefix, added to those that are there. Of two with the same prefix the
/// later stays.
pub open spec fn ean_ucc_table(agencies: Seq<AgencyText>, done: EanUccEntries) -> EanUccEntries
    decreases agencies.len(),
{
    if agencies.len() == 0 {
        done
    } else {
        ean_ucc_table(
            agencies.skip(1),
            done.insert(
                message::ean_ucc_key(agencies[0].prefix)->Ok_0,
                agency_model(agencies[0]),
            ),
        )
    }
}

/// The agencies by registration group, added to those that are there. Of two with the same prefix
/// the later stays.
pub open spec fn group_table(agencies: Seq<AgencyText>, done: GroupEntries) -> GroupEntries
    decreases agencies.len(),
{
    if agencies.len() == 0 {
        done
    } else {
        group_table(
            agencies.skip(1),
            done.insert(message::group_key(agencies[0].prefix)->Ok_0, agency_model(agencies[0])),
        )
    }
}

/// The first of the reads, and those that follow it.
pub proof fn lemma_next(read: ReadModel, following: Seq<ReadModel>)
    ensures
        cons(read, following)[0] == read,
        cons(read, following).skip(1) == following,
        cons(read, following).len() > 0,
{
    assert(cons(read, following).skip(1) =~= following);
}

/// An element that holds a text reads as that text.
pub proof fn lemma_element(name: Seq<char>, text: Seq<char>, following: Seq<ReadModel>)
    ensures
        message::text_element(element(name, text, following), name) == (
            Ok::<Seq<char>, IsbnRangeError>(text),
            following,
        ),
{
    reveal(message::text_element);
    let ends = cons(end(name), following);
    let texts = cons(Ok(XmlEvent::Text(Ok(text))), ends);
    lemma_next(end(name), following);
    lemma_next(Ok(XmlEvent::Text(Ok(text))), ends);
    lemma_next(start(name), texts);
}

proof fn lemma_rules(
    rules: Seq<RuleText>,
    done: Seq<Range>,
    following: Seq<ReadModel>,
)
    requires
        readable_rules(rules),
    ensures
        message::rules_body(rules_reads(rules, cons(end("Rules"@), following)), done) == (
            Ok::<Seq<Range>, IsbnRangeError>(
                done + Seq::new(rules.len(), |i: int| rule_range(rules[i])),
            ),
            following,
        ),
    decreases rules.len(),
{
    let last = cons(end("Rules"@), following);
    let all = Seq::new(rules.len(), |i: int| rule_range(rules[i]));
    if rules.len() == 0 {
        lemma_next(end("Rules"@), following);
        assert(done + all =~= done);
    } else {
        let rule = rules[0];
        let others = rules.skip(1);
        let rest = rules_reads(others, last);
        assert(readable_rule(rule));
        assert forall|i: int| 0 <= i < others.len() implies readable_rule(#[trigger] others[i]) by {
            assert(others[i] == rules[i + 1]);
        }
        let ends = cons(end("Rule"@), rest);
        let lengths = element("Length"@, rule.length, ends);
        let ranges = element("Range"@, rule.range, lengths);
        lemma_next(start("Rule"@), ranges);
        lemma_element("Range"@, rule.range, lengths);
        lemma_element("Length"@, rule.length, ends);
        lemma_next(end("Rule"@), rest);
        reveal(message::rule_body);
        assert(message::rule_body(ranges) == (Ok::<Range, IsbnRangeError>(rule_range(rule)), rest));
        lemma_rules(others, done.push(rule_range(rule)), following);
        assert(done.push(rule_range(rule)) + Seq::new(
            others.len(),
            |i: int| rule_range(others[i]),
        ) =~= done + all);
    }
}

proof fn lemma_agency(name: Seq<char>, agency: AgencyText, following: Seq<ReadModel>)
    requires
        name == "EAN.UCC"@ || name == "Group"@,
        readable_rules(agency.rules),
    ensures
        segment::segment_body(
            element(
                "Agency"@,
                agency.agency,
                cons(
                    start("Rules"@),
                    rules_reads(agency.rules, cons(end("Rules"@), cons(end(name), following))),
                ),
            ),
        ) == (Ok::<SegmentModel, IsbnRangeError>(agency_model(agency)), following),
{
    reveal(segment::segment_body);
    let ends = cons(end(name), following);
    let rules = rules_reads(agency.rules, cons(end("Rules"@), ends));
    let starts = cons(start("Rules"@), rules);
    lemma_element("Agency"@, agency.agency, starts);
    lemma_next(start("Rules"@), rules);
    lemma_rules(agency.rules, seq![], ends);
    lemma_next(end(name), following);
    assert(seq![] + agency_model(agency).ranges =~= agency_model(agency).ranges);
}

#[verifier::rlimit(30)]
proof fn lemma_prefixes(
    agencies: Seq<AgencyText>,
    done: EanUccEntries,
    following: Seq<ReadModel>,
)
    requires
        forall|i: int|
            0 <= i < agencies.len() ==> readable_rules((#[trigger] agencies[i]).rules)
                && message::ean_ucc_key(agencies[i].prefix) is Ok,
    ensures
        range::ean_ucc_body(
            agencies_reads("EAN.UCC"@, agencies, cons(end("EAN.UCCPrefixes"@), following)),
            done,
        ) == (Ok::<EanUccEntries, IsbnRangeError>(ean_ucc_table(agencies, done)), following),
    decreases agencies.len(),
{
    let last = cons(end("EAN.UCCPrefixes"@), following);
    if agencies.len() == 0 {
        lemma_next(end("EAN.UCCPrefixes"@), following);
    } else {
        let agency = agencies[0];
        let others = agencies.skip(1);
        assert forall|i: int| 0 <= i < others.len() implies readable_rules(
            (#[trigger] others[i]).rules,
        ) && message::ean_ucc_key(others[i].prefix) is Ok by {
            assert(others[i] == agencies[i + 1]);
        }
        let rest = agencies_reads("EAN.UCC"@, others, last);
        let body = element(
            "Agency"@,
            agency.agency,
            cons(
                start("Rules"@),
                rules_reads(agency.rules, cons(end("Rules"@), cons(end("EAN.UCC"@), rest))),
            ),
        );
        lemma_next(start("EAN.UCC"@), element("Prefix"@, agency.prefix, body));
        lemma_element("Prefix"@, agency.prefix, body);
        lemma_agency("EAN.UCC"@, agency, rest);
        let key = message::ean_ucc_key(agency.prefix)->Ok_0;
        lemma_prefixes(others, done.insert(key, agency_model(agency)), following);
    }
}

#[verifier::rlimit(30)]
proof fn lemma_groups(agencies: Seq<AgencyText>, done: GroupEntries, following: Seq<ReadModel>)
    requires
        forall|i: int|
            0 <= i < agencies.len() ==> readable_rules((#[trigger] agencies[i]).rules)
                && message::group_key(agencies[i].prefix) is Ok,
    ensures
        range::groups_body(
            agencies_reads("Group"@, agencies, cons(end("RegistrationGroups"@), following)),
            done,
        ) == (Ok::<GroupEntries, IsbnRangeError>(group_table(agencies, done)), following),
    decreases agencies.len(),
{
    let last = cons(end("RegistrationGroups"@), following);
    if agencies.len() == 0 {
        lemma_next(end("RegistrationGroups"@), following);
    } else {
        let agency = agencies[0];
        let others = agencies.skip(1);
        assert forall|i: int| 0 <= i < others.len() implies readable_rules(
            (#[trigger] others[i]).rules,
        ) && message::group_key(others[i].prefix) is Ok by {
            assert(others[i] == agencies[i + 1]);
        }
        let rest = agencies_reads("Group"@, others, last);
        let body = element(
            "Agency"@,
            agency.agency,
            cons(
                start("Rules"@),
                rules_reads(agency.rules, cons(end("Rules"@), cons(end("Group"@), rest))),
            ),
        );
        lemma_next(start("Group"@), element("Prefix"@, agency.prefix, body));
        lemma_element("Prefix"@, agency.prefix, body);
        lemma_agency("Group"@, agency, rest);
        let key = message::group_key(agency.prefix)->Ok_0;
        lemma_groups(others, done.insert(key, agency_model(agency)), following);
    }
}

/// Events, none of which is the start tag of the message's root element.
pub open spec fn before_root(reads: Seq<ReadModel>) -> bool {
    forall|i: int|
        0 <= i < reads.len() ==> (#[trigger] reads[i]) is Ok && reads[i] != start(
            "ISBNRangeMessage"@,
        )
}

/// Events before the root element are passed over.
pub proof fn lemma_before_root(preamble: Seq<ReadModel>, reads: Seq<ReadModel>)
    requires
        before_root(preamble),
    ensures
        range::root_start(preamble + reads) == range::root_start(reads),
    decreases preamble.len(),
{
    if preamble.len() == 0 {
        assert(preamble + reads =~= reads);
    } else {
        let others = preamble.skip(1);
        assert(preamble[0] is Ok);
        assert forall|i: int| 0 <= i < others.len() implies (#[trigger] others[i]) is Ok
            && others[i] != start("ISBNRangeMessage"@) by {
            assert(others[i] == preamble[i + 1]);
        }
        lemma_before_root(others, reads);
        assert((preamble + reads)[0] == preamble[0]);
        assert((preamble + reads).skip(1) =~= others + reads);
    }
}

/// A message in the expected format loads, whatever events come before its root element and behind
/// its last group, and what it loads as is what its texts say: each agency stands under the key that
/// its prefix gives, with its rules in order, and of two with the same key the later stays.
#[verifier::rlimit(30)]
pub proof fn law_expected_format_loads(
    preamble: Seq<ReadModel>,
    message: MessageText,
    following: Seq<ReadModel>,
)
    requires
        before_root(preamble),
        readable(message),
    ensures
        range::range_message(preamble + message_reads(message, following)) == Ok::<
            RangeModel,
            IsbnRangeError,
        >(
            RangeModel {
                serial_number: Some(message.serial_number),
                date: message.date,
                ean_ucc_group: ean_ucc_table(message.prefixes, Map::empty()),
                registration_group: group_table(message.groups, Map::empty()),
            },
        ),
{
    let group_list = agencies_reads(
        "Group"@,
        message.groups,
        cons(end("RegistrationGroups"@), following),
    );
    let groups = cons(start("RegistrationGroups"@), group_list);
    let prefix_list = agencies_reads(
        "EAN.UCC"@,
        message.prefixes,
        cons(end("EAN.UCCPrefixes"@), groups),
    );
    let prefixes = cons(start("EAN.UCCPrefixes"@), prefix_list);
    let date = element("MessageDate"@, message.date, prefixes);
    let serial_number = element("MessageSerialNumber"@, message.serial_number, date);
    let source = element("MessageSource"@, message.source, serial_number);
    lemma_before_root(preamble, message_reads(message, following));
    lemma_next(start("ISBNRangeMessage"@), source);
    lemma_element("MessageSource"@, message.source, serial_number);
    lemma_element("MessageSerialNumber"@, message.serial_number, date);
    lemma_element("MessageDate"@, message.date, prefixes);
    lemma_next(start("EAN.UCCPrefixes"@), prefix_list);
    lemma_prefixes(message.prefixes, Map::empty(), groups);
    lemma_next(start("RegistrationGroups"@), group_list);
    lemma_groups(message.groups, Map::empty(), following);
}

/// A document that ends without a message is refused as such, and one that stops being XML before
/// a message starts is refused for that.
pub proof fn law_no_message(preamble: Seq<ReadModel>, following: Seq<ReadModel>)
    requires
        before_root(preamble),
    ensures
        range::range_message(preamble) == Err::<RangeModel, IsbnRangeError>(
            IsbnRangeError::NoIsbnRangeMessageTag,
        ),
        following.len() > 0 ==> (following[0] matches Err(e) ==> range::range_message(
            preamble + following,
        ) == Err::<RangeModel, IsbnRangeError>(IsbnRangeError::Xml(e))),
{
    lemma_before_root(preamble, seq![]);
    assert(preamble + seq![] =~= preamble);
    lemma_before_root(preamble, following);
}

} // verus!
