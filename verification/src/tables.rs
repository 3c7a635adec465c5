//! The two tables of agencies, by prefix.

use crate::segment::{Segment, SegmentModel};
use indexmap::IndexMap;
use vstd::prelude::*;

verus! {

/// The map type of the `indexmap` crate, opaque to the verifier.
#[verifier::external_type_specification]
#[verifier::external_body]
#[verifier::reject_recursive_types(K)]
#[verifier::reject_recursive_types(V)]
#[verifier::reject_recursive_types(S)]
pub struct ExIndexMap<K, V, S>(IndexMap<K, V, S>);

/// Agencies by GS1 prefix, as a binary-coded decimal.
pub type EanUccEntries = Map<u16, SegmentModel>;

/// Agencies by GS1 prefix and registration group, both as binary-coded decimals.
pub type GroupEntries = Map<(u16, u32), SegmentModel>;

/// What the table by GS1 prefix holds.
pub uninterp spec fn ean_ucc_entries(table: IndexMap<u16, Segment>) -> EanUccEntries;

/// What the table by registration group holds.
pub uninterp spec fn group_entries(table: IndexMap<(u16, u32), Segment>) -> GroupEntries;

/// The value of a key, where the map has the key.
pub open spec fn entry<K, V>(entries: Map<K, V>, key: K) -> Option<V> {
    if entries.contains_key(key) {
        Some(entries[key])
    } else {
        None
    }
}

/// What an optional segment holds.
pub open spec fn segment_view(segment: Option<Segment>) -> Option<SegmentModel> {
    match segment {
        Some(segment) => Some(segment@),
        None => None,
    }
}

/// `IndexMap::new`: the table holds nothing.
#[verifier::external_body]
pub(crate) fn new_ean_ucc_table() -> (table: IndexMap<u16, Segment>)
    ensures
        ean_ucc_entries(table) == EanUccEntries::empty(),
{
    IndexMap::new()
}

/// `IndexMap::insert`: the key has the value, in place of the one that it had, which is given
/// back; the other keys keep theirs.
#[verifier::external_body]
pub(crate) fn insert_ean_ucc(
    table: &mut IndexMap<u16, Segment>,
    key: u16,
    value: Segment,
) -> (before: Option<Segment>)
    ensures
        ean_ucc_entries(*final(table)) == ean_ucc_entries(*old(table)).insert(key, value@),
        segment_view(before) == entry(ean_ucc_entries(*old(table)), key),
{
    table.insert(key, value)
}

/// `IndexMap::get`: the value of the key, where the table has the key.
#[verifier::external_body]
pub(crate) fn get_ean_ucc(table: &IndexMap<u16, Segment>, key: u16) -> (value: Option<&Segment>)
    ensures
        match value {
            Some(value) => entry(ean_ucc_entries(*table), key) == Some(value@),
            None => entry(ean_ucc_entries(*table), key) == None::<SegmentModel>,
        },
{
    table.get(&key)
}

/// `IndexMap::new`: the table holds nothing.
#[verifier::external_body]
pub(crate) fn new_group_table() -> (table: IndexMap<(u16, u32), Segment>)
    ensures
        group_entries(table) == GroupEntries::empty(),
{
    IndexMap::new()
}

/// `IndexMap::insert`: the key has the value, in place of the one that it had, which is given
/// back; the other keys keep theirs.
#[verifier::external_body]
pub(crate) fn insert_group(
    table: &mut IndexMap<(u16, u32), Segment>,
    key: (u16, u32),
    value: Segment,
) -> (before: Option<Segment>)
    ensures
        group_entries(*final(table)) == group_entries(*old(table)).insert(key, value@),
        segment_view(before) == entry(group_entries(*old(table)), key),
{
    table.insert(key, value)
}

/// `IndexMap::get`: the value of the key, where the table has the key.
#[verifier::external_body]
pub(crate) fn get_group(
    table: &IndexMap<(u16, u32), Segment>,
    key: (u16, u32),
) -> (value: Option<&Segment>)
    ensures
        match value {
            Some(value) => entry(group_entries(*table), key) == Some(value@),
            None => entry(group_entries(*table), key) == None::<SegmentModel>,
        },
{
    table.get(&key)
}

} // verus!
