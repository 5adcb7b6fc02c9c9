//! Grouping, ordering and wording of amounts, done by outside crates.
//!
//! The three functions here that call an outside crate are not proved: each
//! states what the function it calls is known to do, and the rest of the
//! crate builds on that.

use vstd::prelude::*;
use bytesize::ByteSize;
use itertools::Itertools;
use std::cmp::Ordering;
use crate::overview::{descending, grouped, named, total_for};

verus! {

/// The text that `bytesize` writes for an amount of bytes.
pub uninterp spec fn byte_size_display(n: u64) -> Seq<char>;

/// The order of two entries when the larger amount is to come first.
pub fn larger_first(a: &(String, u64), b: &(String, u64)) -> (o: Ordering)
    ensures
        o == if b.1 < a.1 {
            Ordering::Less
        } else if b.1 == a.1 {
            Ordering::Equal
        } else {
            Ordering::Greater
        },
{
    if b.1 < a.1 {
        Ordering::Less
    } else if b.1 == a.1 {
        Ordering::Equal
    } else {
        Ordering::Greater
    }
}

/// Calls `Itertools::into_grouping_map` and `GroupingMap::sum`, then lists
/// the map that comes back. The map has one entry for each name among the
/// pairs, holding the sum of the amounts under that name. The sums are
/// formed with `+`, so they have to fit. In what order the entries are
/// listed is not known.
#[verifier::external_body]
pub(crate) fn group_and_sum(pairs: Vec<(String, u64)>) -> (groups: Vec<(String, u64)>)
    requires
        forall|name: Seq<char>| #[trigger] total_for(named(pairs@), name) <= u64::MAX,
    ensures
        grouped(named(pairs@), named(groups@)),
{
    pairs.into_iter().into_grouping_map().sum().into_iter().collect()
}

/// Calls `Itertools::sorted_by` with `larger_first`. What comes back holds
/// the same entries, each as often as before, the larger amounts first.
#[verifier::external_body]
pub(crate) fn sort_larger_first(entries: Vec<(String, u64)>) -> (sorted: Vec<(String, u64)>)
    ensures
        named(sorted@).to_multiset() == named(entries@).to_multiset(),
        descending(named(sorted@)),
{
    entries.into_iter().sorted_by(|a, b| larger_first(a, b)).collect()
}

/// Calls `ByteSize::b` and writes the result with its `Display`: the amount
/// in words such as `1.5 KiB`.
#[verifier::external_body]
pub(crate) fn byte_size_text(n: u64) -> (text: String)
    ensures
        text@ == byte_size_display(n),
{
    ByteSize::b(n).to_string()
}

} // verus!
