//! The ranges of one agency.

use crate::error::IsbnRangeError;
use crate::isbn::{Group, IsbnError};
use crate::message::{self, read_end_tag, read_rules, read_start_tag, read_xml_tag, Outcome, Range};
use crate::xml::{self, ReadModel, XmlRead};
use std::collections::VecDeque;
use vstd::prelude::*;

verus! {

/// An agency and its ranges, in the order of the message.
pub struct Segment {
    name: String,
    // (start, stop, ?length).
    ranges: Vec<Range>,
}

/// What a [`Segment`] holds.
pub struct SegmentModel {
    /// The name of the agency.
    pub name: Seq<char>,
    /// The ranges, in the order of the message.
    pub ranges: Seq<Range>,
}

impl View for Segment {
    type V = SegmentModel;

    closed spec fn view(&self) -> SegmentModel {
        SegmentModel { name: self.name@, ranges: self.ranges@ }
    }
}

/// The range takes the number in.
pub open spec fn takes_in(range: Range, number: int) -> bool {
    range.0.0 <= number < range.0.1
}

/// The length that the first of the ranges that takes the number in gives.
pub open spec fn length_in(ranges: Seq<Range>, number: int) -> Result<usize, IsbnError>
    decreases ranges.len(),
{
    if ranges.len() == 0 {
        Err(IsbnError::InvalidGroup)
    } else if takes_in(ranges[0], number) {
        match ranges[0].1 {
            None => Err(IsbnError::UndefinedRange),
            Some(length) => Ok(length),
        }
    } else {
        length_in(ranges.skip(1), number)
    }
}

/// The element of an agency, from its `Agency` element to its own end.
#[verifier::opaque]
pub open spec fn segment_body(reads: Seq<ReadModel>) -> Outcome<SegmentModel> {
    let (name, rest1) = message::text_element(reads, "Agency"@);
    match name {
        Err(e) => (Err(e), rest1),
        Ok(name) => {
            let (start, rest2) = message::start_tag(rest1, "Rules"@);
            match start {
                Err(e) => (Err(e), rest2),
                Ok(_) => {
                    let (ranges, rest3) = message::rules_body(rest2, seq![]);
                    match ranges {
                        Err(e) => (Err(e), rest3),
                        Ok(ranges) => {
                            let (end, rest4) = message::end_tag(rest3, "EAN.UCC"@, "Group"@);
                            match end {
                                Err(e) => (Err(e), rest4),
                                Ok(_) => (Ok(SegmentModel { name, ranges }), rest4),
                            }
                        },
                    }
                },
            }
        },
    }
}

/// A step forward leaves no more reads than there were.
pub proof fn lemma_segment_body_rest(reads: Seq<ReadModel>)
    ensures
        segment_body(reads).1.len() <= reads.len(),
{
    reveal(segment_body);
    message::lemma_text_element_rest(reads, "Agency"@);
    let rest1 = message::text_element(reads, "Agency"@).1;
    let rest2 = message::start_tag(rest1, "Rules"@).1;
    message::lemma_rules_body_rest(rest2, seq![]);
}

impl Segment {
    #[verifier::type_invariant]
    spec fn well_formed(self) -> bool {
        message::usable(self.ranges@)
    }

    /// Takes the agency's name and ranges, and the end of the element that holds them, off the
    /// reads.
    ///
    /// # Errors
    /// If the elements are not those expected, a range or a length cannot be read, or the document
    /// is not XML there.
    pub fn from_reader(reads: &mut VecDeque<XmlRead>) -> (segment: Result<Self, IsbnRangeError>)
        ensures
            match segment {
                Ok(segment) => segment_body(xml::reads_model(old(reads)@)) == (
                    Ok::<SegmentModel, IsbnRangeError>(segment@),
                    xml::reads_model(final(reads)@),
                ),
                Err(e) => segment_body(xml::reads_model(old(reads)@)) == (
                    Err::<SegmentModel, IsbnRangeError>(e),
                    xml::reads_model(final(reads)@),
                ),
            },
            final(reads)@.len() <= old(reads)@.len(),
    {
        proof {
            reveal(segment_body);
        }
        let name = match read_xml_tag(reads, "Agency") {
            Err(e) => {
                return Err(e);
            },
            Ok(name) => name,
        };
        match read_start_tag(reads, "Rules") {
            Err(e) => {
                return Err(e);
            },
            Ok(_) => {},
        }
        let ranges = match read_rules(reads) {
            Err(e) => {
                return Err(e);
            },
            Ok(ranges) => ranges,
        };
        match read_end_tag(reads, "EAN.UCC", "Group") {
            Err(e) => Err(e),
            Ok(_) => Ok(Segment { name, ranges }),
        }
    }

    /// The agency's name, and the length that the first range with the number in it gives.
    ///
    /// # Errors
    /// If no range takes the number in, or the first that does is not in use.
    pub fn group(&self, segment: u32) -> (group: Result<Group<'_>, IsbnError>)
        ensures
            match group {
                Ok(group) => {
                    &&& length_in(self@.ranges, segment as int) == Ok::<usize, IsbnError>(
                        group.segment_length,
                    )
                    &&& group.name@ == self@.name
                    &&& 1 <= group.segment_length <= 7
                },
                Err(e) => length_in(self@.ranges, segment as int) == Err::<usize, IsbnError>(e),
            },
    {
        proof {
            use_type_invariant(self);
        }
        let mut i: usize = 0;
        assert(self.ranges@.skip(0) =~= self.ranges@);
        while i < self.ranges.len()
            invariant
                i <= self.ranges@.len(),
                message::usable(self.ranges@),
                length_in(self@.ranges, segment as int) == length_in(
                    self.ranges@.skip(i as int),
                    segment as int,
                ),
            decreases self.ranges@.len() - i,
        {
            let ((start, stop), length) = self.ranges[i];
            assert(self.ranges@.skip(i as int).skip(1) =~= self.ranges@.skip(i + 1));
            if segment >= start && segment < stop {
                return match length {
                    None => Err(IsbnError::UndefinedRange),
                    Some(segment_length) => Ok(Group { name: self.name.as_str(), segment_length }),
                };
            }
            i += 1;
        }
        Err(IsbnError::InvalidGroup)
    }
}

} // verus!
