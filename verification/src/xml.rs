//! The XML events of a document, as `quick_xml` reads them.

use quick_xml::events::{BytesText, Event};
use quick_xml::Reader;
use std::collections::VecDeque;
use vstd::prelude::*;

verus! {

/// The error type of the `quick_xml` crate, opaque to the verifier.
#[verifier::external_type_specification]
#[verifier::external_body]
pub struct ExXmlError(quick_xml::Error);

/// What can be read from an XML document before its end.
#[derive(Debug)]
pub enum XmlEvent<Name, Text> {
    /// A start tag, with the name of its element.
    Start(Name),
    /// An end tag, with the name of its element.
    End(Name),
    /// Character data between tags.
    Text(Text),
    /// An empty element, a comment, a declaration or other markup.
    Other,
}

/// One read of a document whose text is still escaped.
pub type RawRead = Result<XmlEvent<Vec<u8>, Vec<u8>>, quick_xml::Error>;

/// One read of a document. A text that cannot be unescaped holds the reason.
pub type XmlRead = Result<XmlEvent<Vec<u8>, Result<String, quick_xml::Error>>, quick_xml::Error>;

/// The model of a [`RawRead`].
pub type RawReadModel = Result<XmlEvent<Seq<u8>, Seq<u8>>, quick_xml::Error>;

/// The model of an event with its text unescaped.
pub type EventModel = XmlEvent<Seq<u8>, Result<Seq<char>, quick_xml::Error>>;

/// The model of an [`XmlRead`].
pub type ReadModel = Result<EventModel, quick_xml::Error>;

/// What a raw read holds.
pub open spec fn raw_model(read: RawRead) -> RawReadModel {
    match read {
        Ok(XmlEvent::Start(name)) => Ok(XmlEvent::Start(name@)),
        Ok(XmlEvent::End(name)) => Ok(XmlEvent::End(name@)),
        Ok(XmlEvent::Text(text)) => Ok(XmlEvent::Text(text@)),
        Ok(XmlEvent::Other) => Ok(XmlEvent::Other),
        Err(e) => Err(e),
    }
}

/// What an unescaped text, or the refusal to unescape it, holds.
pub open spec fn text_model(text: Result<String, quick_xml::Error>) -> Result<
    Seq<char>,
    quick_xml::Error,
> {
    match text {
        Ok(text) => Ok(text@),
        Err(e) => Err(e),
    }
}

/// What an event holds.
pub open spec fn event_model(
    event: XmlEvent<Vec<u8>, Result<String, quick_xml::Error>>,
) -> EventModel {
    match event {
        XmlEvent::Start(name) => XmlEvent::Start(name@),
        XmlEvent::End(name) => XmlEvent::End(name@),
        XmlEvent::Text(text) => XmlEvent::Text(text_model(text)),
        XmlEvent::Other => XmlEvent::Other,
    }
}

/// What a read holds.
pub open spec fn read_model(read: XmlRead) -> ReadModel {
    match read {
        Ok(event) => Ok(event_model(event)),
        Err(e) => Err(e),
    }
}

/// What the reads hold, one by one.
pub open spec fn reads_model(reads: Seq<XmlRead>) -> Seq<ReadModel> {
    Seq::new(reads.len(), |i: int| read_model(reads[i]))
}

/// The read with its text unescaped.
pub open spec fn unescaped(read: RawReadModel) -> ReadModel {
    match read {
        Ok(XmlEvent::Start(name)) => Ok(XmlEvent::Start(name)),
        Ok(XmlEvent::End(name)) => Ok(XmlEvent::End(name)),
        Ok(XmlEvent::Text(text)) => Ok(XmlEvent::Text(unescaped_text(text))),
        Ok(XmlEvent::Other) => Ok(XmlEvent::Other),
        Err(e) => Err(e),
    }
}

/// What is read from the bytes of a document with whitespace around text trimmed off, every text
/// unescaped.
pub open spec fn message_reads(document: Seq<u8>) -> Seq<ReadModel> {
    let raw = document_reads(document, true);
    Seq::new(raw.len(), |i: int| unescaped(raw[i]))
}

/// A reader of the events of an XML document in memory, with those that are left to be read. The
/// type of `quick_xml` is held here and not declared: it is bounded by a trait, `BufRead`, that the
/// verifier does not know.
#[verifier::external_body]
pub struct EventReader<'a> {
    reader: Reader<&'a [u8]>,
}

/// The reads that are left: what each further call gives until the end of the document.
pub uninterp spec fn pending_reads(reader: EventReader<'_>) -> Seq<RawReadModel>;

/// The reads that a document gives from its start to its end, with or without the whitespace
/// around text.
pub uninterp spec fn document_reads(document: Seq<u8>, trim: bool) -> Seq<RawReadModel>;

/// The characters that an escaped text stands for, or the reason why it stands for none.
pub uninterp spec fn unescaped_text(text: Seq<u8>) -> Result<Seq<char>, quick_xml::Error>;

/// `Reader::from_reader` on bytes in memory, set up by `Reader::trim_text`: no byte has been
/// read, and what will be is a function of the bytes and of the setting.
#[verifier::external_body]
fn open_document<'a>(document: &'a [u8], trim: bool) -> (reader: EventReader<'a>)
    ensures
        pending_reads(reader) == document_reads(document@, trim),
{
    let mut reader = Reader::from_reader(document);
    reader.trim_text(trim);
    EventReader { reader }
}

/// `Reader::read_event`: gives the first of the reads that are left and takes it off; `None`
/// stands for `Event::Eof`, which comes where none is left, and from then on. Each event takes up
/// at least one byte, and behind an error nothing but the end is read, so that the reads are
/// finitely many.
#[verifier::external_body]
fn read_event(reader: &mut EventReader<'_>) -> (read: Option<RawRead>)
    ensures
        match read {
            Some(read) => {
                &&& pending_reads(*old(reader)).len() > 0
                &&& raw_model(read) == pending_reads(*old(reader))[0]
                &&& pending_reads(*final(reader)) == pending_reads(*old(reader)).skip(1)
            },
            None => {
                &&& pending_reads(*old(reader)).len() == 0
                &&& pending_reads(*final(reader)).len() == 0
            },
        },
{
    let mut buf = Vec::new();
    match reader.reader.read_event(&mut buf) {
        Ok(Event::Start(e)) => Some(Ok(XmlEvent::Start(e.name().to_vec()))),
        Ok(Event::End(e)) => Some(Ok(XmlEvent::End(e.name().to_vec()))),
        Ok(Event::Text(e)) => Some(Ok(XmlEvent::Text(e.escaped().to_vec()))),
        Ok(Event::Eof) => None,
        Ok(_) => Some(Ok(XmlEvent::Other)),
        Err(e) => Some(Err(e)),
    }
}

/// `BytesText::unescape_and_decode`: a function of the escaped bytes. The reader would lend its
/// encoding, but without the crate's `encoding` feature every text is decoded as UTF-8.
#[verifier::external_body]
fn unescape(reader: &EventReader<'_>, text: &Vec<u8>) -> (unescaped: Result<
    String,
    quick_xml::Error,
>)
    ensures
        text_model(unescaped) == unescaped_text(text@),
{
    BytesText::from_escaped(text.as_slice()).unescape_and_decode(&reader.reader)
}

/// Reads a document to its end, whitespace around text trimmed off.
pub fn read_document(document: &[u8]) -> (reads: VecDeque<XmlRead>)
    ensures
        reads_model(reads@) == message_reads(document@),
        reads@.len() == document_reads(document@, true).len(),
        forall|i: int|
            0 <= i < reads@.len() ==> match document_reads(document@, true)[i] {
                Ok(XmlEvent::Start(name)) => #[trigger] reads@[i] matches Ok(XmlEvent::Start(found))
                    && found@ == name,
                Ok(XmlEvent::End(name)) => reads@[i] matches Ok(XmlEvent::End(found)) && found@
                    == name,
                Ok(XmlEvent::Text(text)) => reads@[i] matches Ok(XmlEvent::Text(found)) && match (
                    found,
                    unescaped_text(text),
                ) {
                    (Ok(found), Ok(text)) => found@ == text,
                    (Err(found), Err(e)) => found == e,
                    _ => false,
                },
                Ok(XmlEvent::Other) => reads@[i] matches Ok(XmlEvent::Other),
                Err(e) => reads@[i] matches Err(found) && found == e,
            },
{
    let mut reader = open_document(document, true);
    let mut reads: VecDeque<XmlRead> = VecDeque::new();
    let ghost all = document_reads(document@, true);
    assert(all.skip(0) =~= all);
    loop
        invariant
            all == document_reads(document@, true),
            reads@.len() <= all.len(),
            pending_reads(reader) == all.skip(reads@.len() as int),
            forall|i: int|
                0 <= i < reads@.len() ==> read_model(#[trigger] reads@[i]) == unescaped(all[i]),
        decreases all.len() - reads@.len(),
    {
        let read: XmlRead = match read_event(&mut reader) {
            None => {
                assert(reads_model(reads@) =~= message_reads(document@));
                return reads;
            },
            Some(Ok(XmlEvent::Start(name))) => Ok(XmlEvent::Start(name)),
            Some(Ok(XmlEvent::End(name))) => Ok(XmlEvent::End(name)),
            Some(Ok(XmlEvent::Text(text))) => Ok(XmlEvent::Text(unescape(&reader, &text))),
            Some(Ok(XmlEvent::Other)) => Ok(XmlEvent::Other),
            Some(Err(e)) => Err(e),
        };
        assert(all.skip(reads@.len() as int).skip(1) =~= all.skip(reads@.len() as int + 1));
        reads.push_back(read);
    }
}

} // verus!
