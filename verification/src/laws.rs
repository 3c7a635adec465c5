//! What holds of the library as a whole.

use crate::error::IsbnRangeError;
use crate::hyphenated;
use crate::isbn::{self, Isbn10, Isbn13, IsbnError, IsbnObject};
use crate::message::{self, Range};
use crate::numerals;
use crate::range::{self, RangeModel};
use crate::segment;
use crate::tables::{self, EanUccEntries, GroupEntries};
use crate::xml::ReadModel;
use vstd::prelude::*;

verus! {

/// The text with its hyphens left out.
pub open spec fn without_hyphens(text: Seq<char>) -> Seq<char>
    decreases text.len(),
{
    if text.len() == 0 {
        seq![]
    } else if text.last() == '-' {
        without_hyphens(text.drop_last())
    } else {
        without_hyphens(text.drop_last()).push(text.last())
    }
}

proof fn lemma_without_hyphens_concat(left: Seq<char>, right: Seq<char>)
    ensures
        without_hyphens(left + right) == without_hyphens(left) + without_hyphens(right),
    decreases right.len(),
{
    if right.len() == 0 {
        assert(left + right =~= left);
        assert(without_hyphens(left) + without_hyphens(right) =~= without_hyphens(left));
    } else {
        lemma_without_hyphens_concat(left, right.drop_last());
        assert((left + right).drop_last() =~= left + right.drop_last());
        assert(without_hyphens(left + right) =~= without_hyphens(left) + without_hyphens(right));
    }
}

proof fn lemma_marked_digits(digits: Seq<u8>, first: int, second: int)
    ensures
        without_hyphens(hyphenated::marked(digits, first, second)) == hyphenated::digit_chars(
            digits,
        ),
    decreases digits.len(),
{
    let text = hyphenated::marked(digits, first, second);
    if digits.len() == 0 {
        assert(hyphenated::digit_chars(digits) =~= seq![]);
    } else {
        let c = hyphenated::digit_char(digits.last());
        let before = hyphenated::marked(digits.drop_last(), first, second);
        lemma_marked_digits(digits.drop_last(), first, second);
        assert(before.push('-').drop_last() =~= before);
        assert(before.push('-').last() == '-');
        assert(without_hyphens(before.push('-')) == without_hyphens(before));
        assert(text.drop_last() =~= before || text.drop_last() =~= before.push('-'));
        assert(text.last() == c);
        assert(hyphenated::digit_chars(digits) =~= hyphenated::digit_chars(
            digits.drop_last(),
        ).push(c));
    }
}

proof fn lemma_unmarked(digits: Seq<u8>)
    ensures
        hyphenated::marked(digits, -1, -1) == hyphenated::digit_chars(digits),
    decreases digits.len(),
{
    if digits.len() == 0 {
        assert(hyphenated::digit_chars(digits) =~= seq![]);
    } else {
        lemma_unmarked(digits.drop_last());
        assert(hyphenated::digit_chars(digits) =~= hyphenated::digit_chars(
            digits.drop_last(),
        ).push(hyphenated::digit_char(digits.last())));
    }
}

proof fn lemma_form_digits(head: Seq<u8>, body: Seq<u8>, check: u8, first: int, second: int)
    ensures
        without_hyphens(hyphenated::hyphenated_form(head, body, check, first, second))
            == hyphenated::digit_chars(head + body + seq![check]),
{
    let lead = if head.len() == 0 {
        seq![]
    } else {
        hyphenated::digit_chars(head).push('-')
    };
    let middle = hyphenated::marked(body, first, second);
    let tail = seq!['-', hyphenated::digit_char(check)];
    lemma_without_hyphens_concat(lead + middle, tail);
    lemma_without_hyphens_concat(lead, middle);
    lemma_marked_digits(body, first, second);
    lemma_marked_digits(head, -1, -1);
    lemma_unmarked(head);
    assert(hyphenated::digit_chars(head).push('-').drop_last() =~= hyphenated::digit_chars(head));
    assert(head.len() == 0 ==> hyphenated::digit_chars(head) =~= seq![]);
    assert(without_hyphens(lead) == hyphenated::digit_chars(head));
    assert(tail.drop_last() =~= seq!['-']);
    assert(without_hyphens(seq!['-']) == Seq::<char>::empty()) by {
        let hyphen = seq!['-'];
        assert(hyphen.last() == '-');
        assert(hyphen.drop_last() =~= seq![]);
        assert(without_hyphens(hyphen.drop_last()) == Seq::<char>::empty());
    }
    assert(without_hyphens(tail) =~= seq![hyphenated::digit_char(check)]);
    assert(hyphenated::digit_chars(head + body + seq![check]) =~= hyphenated::digit_chars(head)
        + hyphenated::digit_chars(body) + seq![hyphenated::digit_char(check)]);
}

/// Hyphenation puts hyphens between the digits of an ISBN-10 and changes nothing else.
pub proof fn law_isbn10_keeps_digits(range: RangeModel, isbn: Isbn10)
    requires
        isbn::is_isbn10(isbn@),
    ensures
        range::hyphenation(range, isbn) matches Ok(text) ==> without_hyphens(text)
            == hyphenated::digit_chars(isbn@),
{
    if let Ok(parts) = range::parts(range, isbn.gs1_prefix(), isbn.body()) {
        lemma_form_digits(
            seq![],
            isbn.body(),
            isbn@[9],
            parts.group,
            parts.group + parts.registrant,
        );
        assert(Seq::<u8>::empty() + isbn.body() + seq![isbn@[9]] =~= isbn@);
    }
}

/// Hyphenation puts hyphens between the digits of an ISBN-13 and changes nothing else.
pub proof fn law_isbn13_keeps_digits(range: RangeModel, isbn: Isbn13)
    requires
        isbn::is_isbn13(isbn@),
    ensures
        range::hyphenation(range, isbn) matches Ok(text) ==> without_hyphens(text)
            == hyphenated::digit_chars(isbn@),
{
    if let Ok(parts) = range::parts(range, isbn.gs1_prefix(), isbn.body()) {
        lemma_form_digits(
            isbn.gs1_prefix(),
            isbn.body(),
            isbn@[12],
            parts.group,
            parts.group + parts.registrant,
        );
        assert(isbn.gs1_prefix() + isbn.body() + seq![isbn@[12]] =~= isbn@);
    }
}

/// An ISBN is hyphenated where its registration group has a name, and refused for the same reason
/// where it has none.
pub proof fn law_hyphenated_where_named<T: IsbnObject>(range: RangeModel, isbn: T)
    ensures
        match (range::hyphenation(range, isbn), range::group_name(range, isbn)) {
            (Ok(_), Ok(_)) => true,
            (Err(unhyphenated), Err(unnamed)) => unhyphenated == unnamed,
            _ => false,
        },
{
}

/// What the ranges say of an ISBN depends on the agency of its GS1 prefix and on the registration
/// groups under that prefix, and on nothing else that the ranges hold.
pub proof fn law_own_prefix_decides<T: IsbnObject>(range: RangeModel, other: RangeModel, isbn: T)
    requires
        ({
            let prefix = numerals::bcd(isbn.gs1_prefix()) as u16;
            &&& tables::entry(range.ean_ucc_group, prefix) == tables::entry(
                other.ean_ucc_group,
                prefix,
            )
            &&& forall|group: u32| #[trigger]
                tables::entry(range.registration_group, (prefix, group)) == tables::entry(
                    other.registration_group,
                    (prefix, group),
                )
        }),
    ensures
        range::parts(range, isbn.gs1_prefix(), isbn.body()) == range::parts(
            other,
            isbn.gs1_prefix(),
            isbn.body(),
        ),
        range::hyphenation(range, isbn) == range::hyphenation(other, isbn),
        range::group_name(range, isbn) == range::group_name(other, isbn),
{
}

/// An ISBN-10 belongs to the same registration group as the ISBN-13 that has `978` before the same
/// nine digits, and both are hyphenated alike up to their check digits.
pub proof fn law_isbn10_is_978(range: RangeModel, short: Isbn10, long: Isbn13)
    requires
        isbn::is_isbn10(short@),
        isbn::is_isbn13(long@),
        long.gs1_prefix() == seq![9u8, 7, 8],
        long.body() == short.body(),
    ensures
        range::group_name(range, short) == range::group_name(range, long),
        match (range::hyphenation(range, short), range::hyphenation(range, long)) {
            (Ok(short), Ok(long)) => long.drop_last() == seq!['9', '7', '8', '-']
                + short.drop_last(),
            (Err(short), Err(long)) => short == long,
            _ => false,
        },
{
    if let Ok(parts) = range::parts(range, short.gs1_prefix(), short.body()) {
        let second = parts.group + parts.registrant;
        let middle = hyphenated::marked(short.body(), parts.group, second);
        assert(hyphenated::digit_chars(long.gs1_prefix()).push('-') =~= seq!['9', '7', '8', '-']);
        assert(short.hyphenated(parts.group, second).drop_last() =~= middle + seq!['-']);
        assert(long.hyphenated(parts.group, second).drop_last() =~= seq!['9', '7', '8', '-']
            + middle + seq!['-']);
        assert(seq!['9', '7', '8', '-'] + middle + seq!['-'] =~= seq!['9', '7', '8', '-'] + (middle
            + seq!['-']));
    }
}

proof fn lemma_marked_parts(digits: Seq<u8>, group: int, registrant: int)
    requires
        1 <= group,
        1 <= registrant,
    ensures
        digits.len() <= group ==> hyphenated::marked(digits, group, group + registrant)
            == hyphenated::digit_chars(digits),
        group < digits.len() <= group + registrant ==> hyphenated::marked(
            digits,
            group,
            group + registrant,
        ) == hyphenated::digit_chars(digits.take(group)) + seq!['-'] + hyphenated::digit_chars(
            digits.skip(group),
        ),
        group + registrant < digits.len() ==> hyphenated::marked(digits, group, group + registrant)
            == hyphenated::digit_chars(digits.take(group)) + seq!['-'] + hyphenated::digit_chars(
            digits.subrange(group, group + registrant),
        ) + seq!['-'] + hyphenated::digit_chars(digits.skip(group + registrant)),
    decreases digits.len(),
{
    let second = group + registrant;
    let text = hyphenated::marked(digits, group, second);
    if digits.len() == 0 {
        assert(text =~= hyphenated::digit_chars(digits));
    } else {
        let c = hyphenated::digit_char(digits.last());
        let shorter = digits.drop_last();
        lemma_marked_parts(shorter, group, registrant);
        if digits.len() <= group {
            assert(text =~= hyphenated::digit_chars(digits));
        } else if digits.len() <= second {
            assert(digits.take(group) =~= shorter.take(group));
            if shorter.len() == group {
                assert(shorter =~= digits.take(group));
            }
            assert(text =~= hyphenated::digit_chars(digits.take(group)) + seq!['-']
                + hyphenated::digit_chars(digits.skip(group)));
        } else {
            assert(digits.take(group) =~= shorter.take(group));
            assert(digits.subrange(group, second) =~= shorter.subrange(group, second));
            if shorter.len() == second {
                assert(shorter.skip(group) =~= shorter.subrange(group, second));
            }
            assert(text =~= hyphenated::digit_chars(digits.take(group)) + seq!['-']
                + hyphenated::digit_chars(digits.subrange(group, second)) + seq!['-']
                + hyphenated::digit_chars(digits.skip(second)));
        }
    }
}

/// Registration group, registrant and publication with hyphens between. Where the first two take up
/// the whole body there is no publication, and no hyphen before it.
pub open spec fn in_parts(body: Seq<u8>, group: int, registrant: int) -> Seq<char> {
    if group + registrant < body.len() {
        hyphenated::digit_chars(body.take(group)) + seq!['-'] + hyphenated::digit_chars(
            body.subrange(group, group + registrant),
        ) + seq!['-'] + hyphenated::digit_chars(body.skip(group + registrant))
    } else {
        hyphenated::digit_chars(body.take(group)) + seq!['-'] + hyphenated::digit_chars(
            body.skip(group),
        )
    }
}

/// A hyphenated ISBN-10 reads registration group, registrant, publication and check digit with
/// hyphens between, the first two with the number of digits that the ranges give them.
pub proof fn law_isbn10_in_parts(range: RangeModel, isbn: Isbn10)
    requires
        usable_ranges(range),
        isbn::is_isbn10(isbn@),
    ensures
        range::parts(range, isbn.gs1_prefix(), isbn.body()) matches Ok(parts)
            ==> range::hyphenation(range, isbn) == Ok::<Seq<char>, IsbnError>(
            in_parts(isbn.body(), parts.group, parts.registrant) + seq!['-']
                + hyphenated::digit_chars(isbn@.skip(9)),
        ),
{
    law_part_lengths(range, isbn.gs1_prefix(), isbn.body());
    if let Ok(parts) = range::parts(range, isbn.gs1_prefix(), isbn.body()) {
        lemma_marked_parts(isbn.body(), parts.group, parts.registrant);
        assert(isbn.hyphenated(parts.group, parts.group + parts.registrant) =~= in_parts(
            isbn.body(),
            parts.group,
            parts.registrant,
        ) + seq!['-'] + hyphenated::digit_chars(isbn@.skip(9)));
    }
}

/// A hyphenated ISBN-13 reads GS1 prefix, registration group, registrant, publication and check
/// digit with hyphens between, the second and the third with the number of digits that the ranges
/// give them.
pub proof fn law_isbn13_in_parts(range: RangeModel, isbn: Isbn13)
    requires
        usable_ranges(range),
        isbn::is_isbn13(isbn@),
    ensures
        range::parts(range, isbn.gs1_prefix(), isbn.body()) matches Ok(parts)
            ==> range::hyphenation(range, isbn) == Ok::<Seq<char>, IsbnError>(
            hyphenated::digit_chars(isbn.gs1_prefix()) + seq!['-'] + in_parts(
                isbn.body(),
                parts.group,
                parts.registrant,
            ) + seq!['-'] + hyphenated::digit_chars(isbn@.skip(12)),
        ),
{
    law_part_lengths(range, isbn.gs1_prefix(), isbn.body());
    if let Ok(parts) = range::parts(range, isbn.gs1_prefix(), isbn.body()) {
        lemma_marked_parts(isbn.body(), parts.group, parts.registrant);
        assert(isbn.hyphenated(parts.group, parts.group + parts.registrant) =~=
            hyphenated::digit_chars(isbn.gs1_prefix()) + seq!['-'] + in_parts(
            isbn.body(),
            parts.group,
            parts.registrant,
        ) + seq!['-'] + hyphenated::digit_chars(isbn@.skip(12)));
    }
}

proof fn lemma_reads_marked(
    digits: Seq<u8>,
    first: int,
    second: int,
    tail: Seq<char>,
    read: Seq<u8>,
)
    requires
        numerals::decimal_digits(digits),
        numerals::decimal_digits(read),
        read.len() + digits.len() <= 13,
    ensures
        isbn::digits_in(hyphenated::marked(digits, first, second) + tail, read) == isbn::digits_in(
            tail,
            read + digits,
        ),
    decreases digits.len(),
{
    let text = hyphenated::marked(digits, first, second);
    if digits.len() == 0 {
        assert(text + tail =~= tail);
        assert(read + digits =~= read);
    } else {
        let shorter = digits.drop_last();
        let at = digits.len() - 1;
        let c = hyphenated::digit_char(digits.last());
        let before = hyphenated::marked(shorter, first, second);
        let rest = seq![c] + tail;
        let longer = if at == first || at == second {
            seq!['-'] + rest
        } else {
            rest
        };
        assert(digits[at] <= 9);
        assert forall|i: int| 0 <= i < shorter.len() implies #[trigger] shorter[i] <= 9 by {
            assert(digits[i] <= 9);
        }
        assert(text + tail =~= before + longer);
        lemma_reads_marked(shorter, first, second, longer, read);
        let so_far = read + shorter;
        assert forall|i: int| 0 <= i < so_far.len() implies #[trigger] so_far[i] <= 9 by {
            if i < read.len() {
                assert(read[i] <= 9);
            } else {
                assert(digits[i - read.len()] <= 9);
            }
        }
        assert((seq!['-'] + rest).skip(1) =~= rest);
        assert(rest.skip(1) =~= tail);
        assert(so_far.push(digits.last()) =~= read + digits);
        assert(isbn::digits_in(rest, so_far) == isbn::digits_in(tail, read + digits));
    }
}

proof fn lemma_reads_check(check: u8, read: Seq<u8>)
    requires
        numerals::decimal_digits(read),
        read.len() <= 12,
        check <= 9 || (check == 10 && read.len() == 9),
    ensures
        isbn::digits_in(seq!['-', hyphenated::digit_char(check)], read) == Ok::<
            Seq<u8>,
            IsbnError,
        >(read.push(check)),
{
    let text = seq!['-', hyphenated::digit_char(check)];
    reveal_with_fuel(isbn::digits_in, 3);
    assert(text.skip(1) =~= seq![hyphenated::digit_char(check)]);
    assert(text.skip(1).skip(1) =~= seq![]);
}

/// The hyphenated form of an ISBN-10 reads as the same ISBN.
pub proof fn law_isbn10_reads_back(range: RangeModel, isbn: Isbn10)
    requires
        isbn::is_isbn10(isbn@),
    ensures
        range::hyphenation(range, isbn) matches Ok(text) ==> isbn::isbn_in(text) == Ok::<
            Seq<u8>,
            IsbnError,
        >(isbn@),
{
    if let Ok(parts) = range::parts(range, isbn.gs1_prefix(), isbn.body()) {
        let second = parts.group + parts.registrant;
        let text = isbn.hyphenated(parts.group, second);
        let tail = seq!['-', hyphenated::digit_char(isbn@[9])];
        let body = isbn.body();
        assert(isbn@.drop_last() =~= body);
        assert(text =~= hyphenated::marked(body, parts.group, second) + tail);
        lemma_reads_marked(body, parts.group, second, tail, seq![]);
        assert(Seq::<u8>::empty() + body =~= body);
        lemma_reads_check(isbn@[9], body);
        assert(body.push(isbn@[9]) =~= isbn@);
    }
}

/// The hyphenated form of an ISBN-13 reads as the same ISBN.
pub proof fn law_isbn13_reads_back(range: RangeModel, isbn: Isbn13)
    requires
        isbn::is_isbn13(isbn@),
    ensures
        range::hyphenation(range, isbn) matches Ok(text) ==> isbn::isbn_in(text) == Ok::<
            Seq<u8>,
            IsbnError,
        >(isbn@),
{
    if let Ok(parts) = range::parts(range, isbn.gs1_prefix(), isbn.body()) {
        let second = parts.group + parts.registrant;
        let text = isbn.hyphenated(parts.group, second);
        let tail = seq!['-', hyphenated::digit_char(isbn@[12])];
        let head = isbn.gs1_prefix();
        let body = isbn.body();
        let middle = hyphenated::marked(body, parts.group, second) + tail;
        assert forall|i: int| 0 <= i < body.len() implies #[trigger] body[i] <= 9 by {
            assert(isbn@[i + 3] <= 9);
        }
        assert forall|i: int| 0 <= i < head.len() implies #[trigger] head[i] <= 9 by {
            assert(isbn@[i] <= 9);
        }
        lemma_unmarked(head);
        assert(text =~= hyphenated::marked(head, -1, -1) + (seq!['-'] + middle));
        lemma_reads_marked(head, -1, -1, seq!['-'] + middle, seq![]);
        assert(Seq::<u8>::empty() + head =~= head);
        assert((seq!['-'] + middle).skip(1) =~= middle);
        lemma_reads_marked(body, parts.group, second, tail, head);
        assert(isbn@[12] <= 9);
        lemma_reads_check(isbn@[12], head + body);
        assert((head + body).push(isbn@[12]) =~= isbn@);
        assert(isbn::is_isbn13(isbn@));
    }
}

/// The length that ranges give a number is that of the first range that takes it in: a number is
/// refused as outside all ranges exactly where none does, and as undefined exactly where the first
/// is not in use.
pub proof fn law_first_range_decides(ranges: Seq<Range>, number: int)
    ensures
        match segment::length_in(ranges, number) {
            Err(IsbnError::InvalidGroup) => forall|i: int|
                0 <= i < ranges.len() ==> !segment::takes_in(#[trigger] ranges[i], number),
            Err(IsbnError::UndefinedRange) => exists|i: int|
                #[trigger] is_first(ranges, number, i) && ranges[i].1 is None,
            Ok(length) => exists|i: int|
                #[trigger] is_first(ranges, number, i) && ranges[i].1 == Some(length),
            Err(_) => false,
        },
    decreases ranges.len(),
{
    if ranges.len() > 0 {
        if segment::takes_in(ranges[0], number) {
            assert(is_first(ranges, number, 0));
        } else {
            let others = ranges.skip(1);
            law_first_range_decides(others, number);
            assert forall|i: int| #[trigger]
                is_first(others, number, i) implies is_first(ranges, number, i + 1) && ranges[i + 1]
                == others[i] by {
                assert forall|k: int| 0 <= k < i + 1 implies !segment::takes_in(
                    #[trigger] ranges[k],
                    number,
                ) by {
                    if k > 0 {
                        assert(others[k - 1] == ranges[k]);
                    }
                }
            }
            assert forall|i: int|
                0 <= i < ranges.len() && (forall|k: int|
                    0 <= k < others.len() ==> !segment::takes_in(
                        #[trigger] others[k],
                        number,
                    )) implies !segment::takes_in(#[trigger] ranges[i], number) by {
                if i > 0 {
                    assert(others[i - 1] == ranges[i]);
                }
            }
        }
    }
}

/// The range at `i` takes the number in, and none before it does.
pub open spec fn is_first(ranges: Seq<Range>, number: int, i: int) -> bool {
    &&& 0 <= i < ranges.len()
    &&& segment::takes_in(ranges[i], number)
    &&& forall|k: int| 0 <= k < i ==> !segment::takes_in(#[trigger] ranges[k], number)
}

/// The prefix that a message writes for a registration group gives the key under which the ISBNs
/// of that group look it up.
pub proof fn law_group_key_is_looked_up(gs1_prefix: Seq<u8>, group: Seq<u8>)
    requires
        gs1_prefix.len() == 3,
        numerals::decimal_digits(gs1_prefix),
        numerals::decimal_digits(group),
    ensures
        message::ean_ucc_key(hyphenated::digit_chars(gs1_prefix)) == Ok::<u16, IsbnRangeError>(
            numerals::bcd(gs1_prefix) as u16,
        ),
        message::group_key(
            hyphenated::digit_chars(gs1_prefix) + seq!['-'] + hyphenated::digit_chars(group),
        ) == Ok::<(u16, u32), IsbnRangeError>(
            (numerals::bcd(gs1_prefix) as u16, numerals::bcd32(group)),
        ),
{
    let head = hyphenated::digit_chars(gs1_prefix);
    let tail = hyphenated::digit_chars(group);
    let text = head + seq!['-'] + tail;
    lemma_digits_of_chars(gs1_prefix);
    lemma_digits_of_chars(group);
    assert(message::first(head, 3) =~= head);
    assert(message::first(text, 3) =~= head);
    assert(text.skip(4) =~= tail);
    assert(text[3] == '-');
}

proof fn lemma_digits_of_chars(digits: Seq<u8>)
    requires
        numerals::decimal_digits(digits),
    ensures
        numerals::all_digits(hyphenated::digit_chars(digits)),
        numerals::digits_of(hyphenated::digit_chars(digits)) == digits,
{
    let text = hyphenated::digit_chars(digits);
    assert forall|i: int| 0 <= i < text.len() implies numerals::is_digit(#[trigger] text[i]) by {
        assert(digits[i] <= 9);
    }
    assert forall|i: int| 0 <= i < digits.len() implies numerals::digits_of(text)[i]
        == #[trigger] digits[i] by {
        assert(digits[i] <= 9);
    }
    assert(numerals::digits_of(text) =~= digits);
}

/// Every length in the ranges of the agencies is from one to seven.
pub open spec fn usable_ranges(range: RangeModel) -> bool {
    &&& forall|key: u16| #[trigger]
        range.ean_ucc_group.contains_key(key) ==> message::usable(range.ean_ucc_group[key].ranges)
    &&& forall|key: (u16, u32)| #[trigger]
        range.registration_group.contains_key(key) ==> message::usable(
            range.registration_group[key].ranges,
        )
}

proof fn lemma_rules_usable(reads: Seq<ReadModel>, done: Seq<Range>)
    requires
        message::usable(done),
    ensures
        message::rules_body(reads, done).0 matches Ok(ranges) ==> message::usable(ranges),
    decreases reads.len(),
{
    let (event, inside) = message::next_event(reads);
    let (rule, rest) = message::rule_body(inside);
    message::lemma_rule_body_rest(inside);
    if reads.len() > 0 {
        if let Ok(range) = rule {
            assert(range.1 matches Some(n) ==> 1 <= n <= 7) by {
                reveal(message::rule_body);
            }
            lemma_rules_usable(rest, done.push(range));
        }
    }
}

proof fn lemma_segment_usable(reads: Seq<ReadModel>)
    ensures
        segment::segment_body(reads).0 matches Ok(agency) ==> message::usable(agency.ranges),
{
    reveal(segment::segment_body);
    let rest1 = message::text_element(reads, "Agency"@).1;
    let rest2 = message::start_tag(rest1, "Rules"@).1;
    lemma_rules_usable(rest2, seq![]);
}

proof fn lemma_prefixes_usable(reads: Seq<ReadModel>, done: EanUccEntries)
    requires
        forall|key: u16| #[trigger]
            done.contains_key(key) ==> message::usable(done[key].ranges),
    ensures
        range::ean_ucc_body(reads, done).0 matches Ok(table) ==> forall|key: u16| #[trigger]
            table.contains_key(key) ==> message::usable(table[key].ranges),
    decreases reads.len(),
{
    let inside = range::agency_start(
        reads,
        "EAN.UCCPrefixes"@,
        "EAN.UCC"@,
        IsbnRangeError::NoEanUccPrefix,
    ).1;
    let (prefix, after) = message::text_element(inside, "Prefix"@);
    let (agency, rest) = segment::segment_body(after);
    message::lemma_text_element_rest(inside, "Prefix"@);
    segment::lemma_segment_body_rest(after);
    lemma_segment_usable(after);
    if reads.len() > 0 {
        if let (Ok(prefix), Ok(agency)) = (prefix, agency) {
            if let Ok(key) = message::ean_ucc_key(prefix) {
                lemma_prefixes_usable(rest, done.insert(key, agency));
            }
        }
    }
}

proof fn lemma_groups_usable(reads: Seq<ReadModel>, done: GroupEntries)
    requires
        forall|key: (u16, u32)| #[trigger]
            done.contains_key(key) ==> message::usable(done[key].ranges),
    ensures
        range::groups_body(reads, done).0 matches Ok(table) ==> forall|key: (u16, u32)| #[trigger]
            table.contains_key(key) ==> message::usable(table[key].ranges),
    decreases reads.len(),
{
    let inside = range::agency_start(
        reads,
        "RegistrationGroups"@,
        "Group"@,
        IsbnRangeError::NoGroup,
    ).1;
    let (prefix, after) = message::text_element(inside, "Prefix"@);
    let (agency, rest) = segment::segment_body(after);
    message::lemma_text_element_rest(inside, "Prefix"@);
    segment::lemma_segment_body_rest(after);
    lemma_segment_usable(after);
    if reads.len() > 0 {
        if let (Ok(prefix), Ok(agency)) = (prefix, agency) {
            if let Ok(key) = message::group_key(prefix) {
                lemma_groups_usable(rest, done.insert(key, agency));
            }
        }
    }
}

/// Whatever message has been loaded, the parts that its ranges give are from one to seven digits
/// long.
pub proof fn law_loaded_lengths(reads: Seq<ReadModel>)
    ensures
        range::range_message(reads) matches Ok(range) ==> usable_ranges(range),
{
    let rest1 = range::root_start(reads).1;
    let rest2 = message::text_element(rest1, "MessageSource"@).1;
    let rest3 = message::text_element(rest2, "MessageSerialNumber"@).1;
    let rest4 = message::text_element(rest3, "MessageDate"@).1;
    let rest5 = range::no_other_start(
        rest4,
        "EAN.UCCPrefixes"@,
        IsbnRangeError::NoEanUccPrefixes,
    ).1;
    let rest6 = range::ean_ucc_body(rest5, Map::empty()).1;
    let rest7 = range::no_other_start(
        rest6,
        "RegistrationGroups"@,
        IsbnRangeError::NoRegistrationGroups,
    ).1;
    lemma_prefixes_usable(rest5, Map::empty());
    lemma_groups_usable(rest7, Map::empty());
}

proof fn lemma_length_usable(ranges: Seq<Range>, number: int)
    requires
        message::usable(ranges),
    ensures
        segment::length_in(ranges, number) matches Ok(length) ==> 1 <= length <= 7,
    decreases ranges.len(),
{
    if ranges.len() > 0 {
        let others = ranges.skip(1);
        assert forall|i: int| 0 <= i < others.len() implies ((#[trigger] others[i]).1 matches Some(
            n,
        ) ==> 1 <= n <= 7) by {
            assert(others[i] == ranges[i + 1]);
        }
        lemma_length_usable(others, number);
    }
}

/// The registration group and the registrant of an ISBN have from one to seven digits each, where
/// the ranges have been loaded from a message.
pub proof fn law_part_lengths(range: RangeModel, gs1_prefix: Seq<u8>, body: Seq<u8>)
    requires
        usable_ranges(range),
    ensures
        range::parts(range, gs1_prefix, body) matches Ok(parts) ==> 1 <= parts.group <= 7 && 1
            <= parts.registrant <= 7,
{
    let prefix = numerals::bcd(gs1_prefix) as u16;
    if range.ean_ucc_group.contains_key(prefix) {
        let ranges = range.ean_ucc_group[prefix].ranges;
        let number = isbn::segment_number(body, 0) as int;
        lemma_length_usable(ranges, number);
        if let Ok(group) = segment::length_in(ranges, number) {
            let key = (prefix, numerals::bcd32(body.take(group as int)));
            if range.registration_group.contains_key(key) {
                lemma_length_usable(
                    range.registration_group[key].ranges,
                    isbn::segment_number(body, group as int) as int,
                );
            }
        }
    }
}

/// Whatever message has been loaded, the first hyphen in the body of an ISBN comes behind one to
/// seven digits, and the second behind one to seven more.
pub proof fn law_loaded_part_lengths(reads: Seq<ReadModel>, gs1_prefix: Seq<u8>, body: Seq<u8>)
    ensures
        range::range_message(reads) matches Ok(range) ==> (range::parts(
            range,
            gs1_prefix,
            body,
        ) matches Ok(parts) ==> 1 <= parts.group <= 7 && parts.group < parts.group
            + parts.registrant <= parts.group + 7),
{
    law_loaded_lengths(reads);
    if let Ok(range) = range::range_message(reads) {
        law_part_lengths(range, gs1_prefix, body);
    }
}

} // verus!
