# isbn2

Hyphenation of ISBNs, and the names of their registration groups, by the ranges that the
International ISBN Agency publishes as `RangeMessage.xml`. The library is written in Verus.

- `src/isbn.rs`: ISBN-10 and ISBN-13, their check digits and their parts
- `src/numerals.rs`: decimal and binary-coded decimal numerals
- `src/hyphenated.rs`: the written form of a hyphenated ISBN (`arrayvec`)
- `src/xml.rs`: the events of an XML document (`quick-xml`)
- `src/message.rs`, `src/segment.rs`, `src/range.rs`: the range message and the lookups in it
- `src/tables.rs`: the tables of agencies (`indexmap`)
- `src/document.rs`, `src/framing.rs`, `src/laws.rs`: what holds of the library as a whole
- `app/`: loading the message from a file

`IsbnRange::from_file` takes the bytes of the file; `app/` opens and reads it.
