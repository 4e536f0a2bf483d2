//! The order of keys, and sorting records by it.

use std::cmp::Ordering;
use vstd::prelude::*;
use crate::record::records_view;
use crate::worker::{KeyValue, is_sort_of, key_le, key_not_after};

verus! {

/// How the key `a` stands to the key `b` in the order of keys.
pub fn compare_keys(a: &str, b: &str) -> (order: Ordering)
    ensures
        match order {
            Ordering::Less => key_le(a@, b@) && !key_le(b@, a@),
            Ordering::Equal => key_le(a@, b@) && key_le(b@, a@),
            Ordering::Greater => !key_le(a@, b@),
        },
{
    if key_not_after(a, b) {
        if key_not_after(b, a) {
            Ordering::Equal
        } else {
            Ordering::Less
        }
    } else {
        Ordering::Greater
    }
}

/// Calls `sort_by` of std's slices with the comparison of keys. The sort is
/// stable: afterwards the records stand in ascending order of key, and those
/// of one key in the order they had before.
#[verifier::external_body]
pub(crate) fn sort_by_key(records: &mut Vec<KeyValue<String, u8>>)
    ensures
        is_sort_of(records_view(final(records)@), records_view(old(records)@)),
{
    records.sort_by(|a, b| compare_keys(&a.key, &b.key));
}

} // verus!
