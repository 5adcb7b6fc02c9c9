//! What the overview tells: for each of the four metrics, the functions at
//! which allocations were made, with the sum of the metric over their
//! allocations, the largest sum first.

use vstd::prelude::*;
use vstd::string::StringExecFns;
use crate::ranking::{byte_size_display, byte_size_text, group_and_sum, sort_larger_first};
use crate::trace::{Allocation, MemoryKind, TraceError, TraceGraph};
use crate::trie::{lemma_sum_by_le, lemma_sum_by_nonnegative, lemma_sum_by_push, sum_by};

verus! {

/// A list of names with amounts, each name as its characters.
pub open spec fn named(entries: Seq<(String, u64)>) -> Seq<(Seq<char>, u64)> {
    Seq::new(entries.len(), |i: int| (entries[i].0@, entries[i].1))
}

/// The amount of a pair if it stands under `name`, else nothing.
pub open spec fn amount_for(name: Seq<char>) -> spec_fn((Seq<char>, u64)) -> int {
    |p: (Seq<char>, u64)|
        if p.0 == name {
            p.1 as int
        } else {
            0
        }
}

/// The amount of a pair.
pub open spec fn amount() -> spec_fn((Seq<char>, u64)) -> int {
    |p: (Seq<char>, u64)| p.1 as int
}

/// The sum of the amounts that stand under `name`.
pub open spec fn total_for(pairs: Seq<(Seq<char>, u64)>, name: Seq<char>) -> int {
    sum_by(pairs, amount_for(name))
}

/// The sum of all amounts.
pub open spec fn total(pairs: Seq<(Seq<char>, u64)>) -> int {
    sum_by(pairs, amount())
}

/// Whether a pair stands under `name`.
pub open spec fn has_name(pairs: Seq<(Seq<char>, u64)>, name: Seq<char>) -> bool {
    exists|k: int| 0 <= k < pairs.len() && (#[trigger] pairs[k]).0 == name
}

/// Whether `groups` are the pairs grouped by name: one entry for each name
/// among the pairs and for no other, with the sum of the amounts under it.
pub open spec fn grouped(pairs: Seq<(Seq<char>, u64)>, groups: Seq<(Seq<char>, u64)>) -> bool {
    &&& forall|i: int, j: int|
        0 <= i < j < groups.len() ==> (#[trigger] groups[i]).0 != (#[trigger] groups[j]).0
    &&& forall|i: int|
        0 <= i < groups.len() ==> (#[trigger] groups[i]).1 == total_for(pairs, groups[i].0)
            && has_name(pairs, groups[i].0)
    &&& forall|k: int| 0 <= k < pairs.len() ==> has_name(groups, (#[trigger] pairs[k]).0)
}

/// Whether the larger amounts come first.
pub open spec fn descending(groups: Seq<(Seq<char>, u64)>) -> bool {
    forall|i: int, j: int|
        0 <= i < j < groups.len() ==> (#[trigger] groups[i]).1 >= (#[trigger] groups[j]).1
}

/// The function at which an allocation was made: the function of the frame
/// at the innermost level of its trace.
pub open spec fn location_of(graph: TraceGraph, allocation: Allocation) -> Result<usize, TraceError> {
    if allocation.trace_idx == 0 || allocation.trace_idx > graph.traces.len() {
        Err(TraceError::TraceIndex(allocation.trace_idx))
    } else {
        let trace = graph.traces[allocation.trace_idx - 1];
        if trace.ip_idx == 0 || trace.ip_idx > graph.instruction_pointers.len() {
            Err(TraceError::IpIndex(trace.ip_idx))
        } else {
            let function_idx = graph.instruction_pointers[trace.ip_idx - 1].frame.function_idx();
            if function_idx == 0 || function_idx > graph.strings.len() {
                Err(TraceError::FunctionIndex(function_idx))
            } else {
                Ok(function_idx)
            }
        }
    }
}

/// The name of the location and the metric of each of the first `n`
/// allocations, or what stops the work: the first allocation whose location
/// does not resolve, or the first with which the sum of the metric leaves 64
/// bits.
pub open spec fn location_pairs(graph: TraceGraph, kind: MemoryKind, n: nat) -> Result<
    Seq<(Seq<char>, u64)>,
    TraceError,
>
    decreases n,
{
    if n == 0 {
        Ok(Seq::empty())
    } else {
        match location_pairs(graph, kind, (n - 1) as nat) {
            Err(e) => Err(e),
            Ok(pairs) => match location_of(graph, graph.allocations[n - 1]) {
                Err(e) => Err(e),
                Ok(function_idx) => {
                    let more = pairs.push(
                        (
                            graph.strings[function_idx - 1]@,
                            graph.allocations[n - 1].data.metric(kind),
                        ),
                    );
                    if total(more) <= u64::MAX {
                        Ok(more)
                    } else {
                        Err(TraceError::MetricOverflow)
                    }
                },
            },
        }
    }
}

/// What stops the work at the first `n` allocations stops it at any more.
pub proof fn lemma_location_pairs_error(graph: TraceGraph, kind: MemoryKind, n: nat, m: nat)
    requires
        n <= m,
        location_pairs(graph, kind, n) is Err,
    ensures
        location_pairs(graph, kind, m) == location_pairs(graph, kind, n),
    decreases m - n,
{
    if n < m {
        lemma_location_pairs_error(graph, kind, n, (m - 1) as nat);
    }
}

/// No name has more under it than all names together.
pub proof fn lemma_total_for_le_total(pairs: Seq<(Seq<char>, u64)>, name: Seq<char>)
    ensures
        0 <= total_for(pairs, name) <= total(pairs),
{
    assert forall|i: int| 0 <= i < pairs.len() implies amount_for(name)(#[trigger] pairs[i])
        <= amount()(pairs[i]) by {}
    lemma_sum_by_le(pairs, amount_for(name), amount());
    lemma_sum_by_nonnegative(pairs, amount_for(name));
}

/// Grouped entries in another order are still the pairs grouped by name.
pub proof fn lemma_grouped_permutation(
    pairs: Seq<(Seq<char>, u64)>,
    a: Seq<(Seq<char>, u64)>,
    b: Seq<(Seq<char>, u64)>,
)
    requires
        grouped(pairs, a),
        a.to_multiset() == b.to_multiset(),
    ensures
        grouped(pairs, b),
{
    broadcast use vstd::seq_lib::group_to_multiset_ensures;

    assert forall|x: (Seq<char>, u64)| a.contains(x) <==> b.contains(x) by {
        assert(a.contains(x) <==> a.to_multiset().count(x) > 0);
        assert(b.contains(x) <==> b.to_multiset().count(x) > 0);
    }
    assert(a.no_duplicates());
    a.lemma_multiset_has_no_duplicates();
    b.lemma_multiset_has_no_duplicates_conv();
    assert forall|i: int, j: int| 0 <= i < j < b.len() implies (#[trigger] b[i]).0 != (#[trigger] b[j]).0 by {
        assert(b.contains(b[i]) && b.contains(b[j]));
        let m = choose|m: int| 0 <= m < a.len() && a[m] == b[i];
        let n = choose|n: int| 0 <= n < a.len() && a[n] == b[j];
        assert(b[i] != b[j]);
        if m < n {
            assert(a[m].0 != a[n].0);
        } else {
            assert(a[n].0 != a[m].0);
        }
    }
    assert forall|i: int| 0 <= i < b.len() implies (#[trigger] b[i]).1 == total_for(pairs, b[i].0)
        && has_name(pairs, b[i].0) by {
        assert(b.contains(b[i]));
        let m = choose|m: int| 0 <= m < a.len() && a[m] == b[i];
        assert(a[m].1 == total_for(pairs, a[m].0));
    }
    assert forall|k: int| 0 <= k < pairs.len() implies has_name(b, (#[trigger] pairs[k]).0) by {
        assert(has_name(a, pairs[k].0));
        let m = choose|m: int| 0 <= m < a.len() && (#[trigger] a[m]).0 == pairs[k].0;
        assert(a.contains(a[m]));
        let n = choose|n: int| 0 <= n < b.len() && b[n] == a[m];
        assert(b[n].0 == pairs[k].0);
    }
}

/// The name of the location and the metric of each allocation.
fn location_weights(graph: &TraceGraph, kind: MemoryKind) -> (res: Result<
    Vec<(String, u64)>,
    TraceError,
>)
    ensures
        match location_pairs(*graph, kind, graph.allocations.len() as nat) {
            Ok(pairs) => res matches Ok(v) && named(v@) == pairs,
            Err(e) => res matches Err(f) && f == e,
        },
{
    let mut pairs: Vec<(String, u64)> = Vec::new();
    let mut sum: u64 = 0;
    let mut i: usize = 0;
    assert(named(pairs@) =~= Seq::<(Seq<char>, u64)>::empty());
    while i < graph.allocations.len()
        invariant
            i <= graph.allocations.len(),
            location_pairs(*graph, kind, i as nat) == Ok::<Seq<(Seq<char>, u64)>, TraceError>(
                named(pairs@),
            ),
            sum == total(named(pairs@)),
        decreases graph.allocations.len() - i,
    {
        let allocation = graph.allocations[i];
        if allocation.trace_idx == 0 || allocation.trace_idx > graph.traces.len() as u64 {
            proof {
                lemma_location_pairs_error(*graph, kind, i as nat + 1, graph.allocations.len() as nat);
            }
            return Err(TraceError::TraceIndex(allocation.trace_idx));
        }
        let trace = graph.traces[(allocation.trace_idx - 1) as usize];
        if trace.ip_idx == 0 || trace.ip_idx > graph.instruction_pointers.len() as u64 {
            proof {
                lemma_location_pairs_error(*graph, kind, i as nat + 1, graph.allocations.len() as nat);
            }
            return Err(TraceError::IpIndex(trace.ip_idx));
        }
        let function_idx = graph.instruction_pointers[(trace.ip_idx - 1) as usize].frame.function_idx();
        if function_idx == 0 || function_idx > graph.strings.len() {
            proof {
                lemma_location_pairs_error(*graph, kind, i as nat + 1, graph.allocations.len() as nat);
            }
            return Err(TraceError::FunctionIndex(function_idx));
        }
        let value = allocation.data.metric(kind);
        let name = graph.strings[function_idx - 1].clone();
        proof {
            lemma_sum_by_push(named(pairs@), (name@, value), amount());
            assert(named(pairs@.push((name, value))) =~= named(pairs@).push((name@, value)));
        }
        sum = match sum.checked_add(value) {
            Some(sum) => sum,
            None => {
                proof {
                    lemma_location_pairs_error(
                        *graph,
                        kind,
                        i as nat + 1,
                        graph.allocations.len() as nat,
                    );
                }
                return Err(TraceError::MetricOverflow);
            },
        };
        pairs.push((name, value));
        i = i + 1;
    }
    Ok(pairs)
}

/// The locations of the profile with the sum of the metric over the
/// allocations made at each, the largest sum first. Locations are told
/// apart by their names. Which of two locations with the same sum comes
/// first is not fixed.
pub fn top_contributions(graph: &TraceGraph, kind: MemoryKind) -> (res: Result<
    Vec<(String, u64)>,
    TraceError,
>)
    ensures
        match location_pairs(*graph, kind, graph.allocations.len() as nat) {
            Ok(pairs) => res matches Ok(top) && grouped(pairs, named(top@)) && descending(
                named(top@),
            ),
            Err(e) => res matches Err(f) && f == e,
        },
{
    let pairs = match location_weights(graph, kind) {
        Ok(pairs) => pairs,
        Err(e) => {
            return Err(e);
        },
    };
    let ghost listed = named(pairs@);
    proof {
        assert forall|name: Seq<char>| #[trigger] total_for(listed, name) <= u64::MAX by {
            lemma_total_for_le_total(listed, name);
        }
    }
    let groups = group_and_sum(pairs);
    let ghost unordered = named(groups@);
    let sorted = sort_larger_first(groups);
    proof {
        lemma_grouped_permutation(listed, unordered, named(sorted@));
    }
    Ok(sorted)
}

/// The character of a digit.
pub open spec fn digit_char(d: nat) -> char {
    if d == 0 {
        '0'
    } else if d == 1 {
        '1'
    } else if d == 2 {
        '2'
    } else if d == 3 {
        '3'
    } else if d == 4 {
        '4'
    } else if d == 5 {
        '5'
    } else if d == 6 {
        '6'
    } else if d == 7 {
        '7'
    } else if d == 8 {
        '8'
    } else {
        '9'
    }
}

/// The decimal digits of `n` as characters, without leading zeros.
pub open spec fn decimal_chars(n: nat) -> Seq<char>
    decreases n,
{
    if n < 10 {
        seq![digit_char(n)]
    } else {
        decimal_chars(n / 10).push(digit_char(n % 10))
    }
}

/// How an amount of a metric is worded: memory in the words of `bytesize`,
/// counts in decimal digits.
pub open spec fn amount_text(kind: MemoryKind, value: u64) -> Seq<char> {
    match kind {
        MemoryKind::Peak => byte_size_display(value),
        MemoryKind::Leaked => byte_size_display(value),
        MemoryKind::Allocations => decimal_chars(value as nat),
        MemoryKind::Temporary => decimal_chars(value as nat),
    }
}

/// Whether the rows word the entries, row by row.
pub open spec fn worded(
    rows: Seq<(String, String)>,
    top: Seq<(Seq<char>, u64)>,
    kind: MemoryKind,
) -> bool {
    &&& rows.len() == top.len()
    &&& forall|i: int|
        0 <= i < rows.len() ==> (#[trigger] rows[i]).0@ == top[i].0 && rows[i].1@ == amount_text(
            kind,
            top[i].1,
        )
}

/// Whether the rows are the table of the metric `kind` for these pairs: the
/// pairs grouped by name, the larger sums first, each sum in words.
pub open spec fn tabled(rows: Seq<(String, String)>, pairs: Seq<(Seq<char>, u64)>, kind: MemoryKind) -> bool {
    exists|top: Seq<(Seq<char>, u64)>|
        grouped(pairs, top) && descending(top) && #[trigger] worded(rows, top, kind)
}

/// The text of one digit.
fn digit_text(d: u64) -> (text: &'static str)
    requires
        d < 10,
    ensures
        text@ == seq![digit_char(d as nat)],
{
    proof {
        reveal_strlit("0");
        reveal_strlit("1");
        reveal_strlit("2");
        reveal_strlit("3");
        reveal_strlit("4");
        reveal_strlit("5");
        reveal_strlit("6");
        reveal_strlit("7");
        reveal_strlit("8");
        reveal_strlit("9");
    }
    let text = if d == 0 {
        "0"
    } else if d == 1 {
        "1"
    } else if d == 2 {
        "2"
    } else if d == 3 {
        "3"
    } else if d == 4 {
        "4"
    } else if d == 5 {
        "5"
    } else if d == 6 {
        "6"
    } else if d == 7 {
        "7"
    } else if d == 8 {
        "8"
    } else {
        "9"
    };
    assert(text@ =~= seq![digit_char(d as nat)]);
    text
}

/// Writes the decimal digits of `n` behind `text`.
fn push_decimal_text(text: &mut String, n: u64)
    ensures
        final(text)@ == old(text)@ + decimal_chars(n as nat),
    decreases n,
{
    if n >= 10 {
        push_decimal_text(text, n / 10);
    }
    text.append(digit_text(n % 10));
    proof {
        if n < 10 {
            assert(old(text)@ + seq![digit_char(n as nat)] =~= old(text)@ + decimal_chars(n as nat));
        } else {
            assert((old(text)@ + decimal_chars((n / 10) as nat)) + seq![digit_char((n % 10) as nat)]
                =~= old(text)@ + decimal_chars(n as nat));
        }
    }
}

/// The decimal digits of `n`.
pub fn decimal_text(n: u64) -> (text: String)
    ensures
        text@ == decimal_chars(n as nat),
{
    let mut text = String::new();
    push_decimal_text(&mut text, n);
    assert(Seq::<char>::empty() + decimal_chars(n as nat) =~= decimal_chars(n as nat));
    text
}

/// The table of a metric: the locations with their sums in words, the
/// largest sum first.
pub fn top_rows(graph: &TraceGraph, kind: MemoryKind) -> (res: Result<
    Vec<(String, String)>,
    TraceError,
>)
    ensures
        match location_pairs(*graph, kind, graph.allocations.len() as nat) {
            Ok(pairs) => res matches Ok(rows) && tabled(rows@, pairs, kind),
            Err(e) => res matches Err(f) && f == e,
        },
{
    let top = match top_contributions(graph, kind) {
        Ok(top) => top,
        Err(e) => {
            return Err(e);
        },
    };
    let mut rows: Vec<(String, String)> = Vec::new();
    let mut i: usize = 0;
    while i < top.len()
        invariant
            i <= top.len(),
            rows.len() == i,
            forall|m: int|
                0 <= m < i ==> (#[trigger] rows[m]).0@ == top[m].0@ && rows[m].1@ == amount_text(
                    kind,
                    top[m].1,
                ),
        decreases top.len() - i,
    {
        let value = top[i].1;
        let text = match kind {
            MemoryKind::Peak => byte_size_text(value),
            MemoryKind::Leaked => byte_size_text(value),
            MemoryKind::Allocations => decimal_text(value),
            MemoryKind::Temporary => decimal_text(value),
        };
        rows.push((top[i].0.clone(), text));
        i = i + 1;
    }
    proof {
        assert(worded(rows@, named(top@), kind));
    }
    Ok(rows)
}

/// The locations by the peak of their allocations.
pub fn make_top_peaks(data: &TraceGraph) -> (res: Result<Vec<(String, String)>, TraceError>)
    ensures
        match location_pairs(*data, MemoryKind::Peak, data.allocations.len() as nat) {
            Ok(pairs) => res matches Ok(rows) && tabled(rows@, pairs, MemoryKind::Peak),
            Err(e) => res matches Err(f) && f == e,
        },
{
    top_rows(data, MemoryKind::Peak)
}

/// The locations by what their allocations leaked.
pub fn make_top_leaks(data: &TraceGraph) -> (res: Result<Vec<(String, String)>, TraceError>)
    ensures
        match location_pairs(*data, MemoryKind::Leaked, data.allocations.len() as nat) {
            Ok(pairs) => res matches Ok(rows) && tabled(rows@, pairs, MemoryKind::Leaked),
            Err(e) => res matches Err(f) && f == e,
        },
{
    top_rows(data, MemoryKind::Leaked)
}

/// The locations by the number of their allocations.
pub fn make_top_allocations(data: &TraceGraph) -> (res: Result<Vec<(String, String)>, TraceError>)
    ensures
        match location_pairs(*data, MemoryKind::Allocations, data.allocations.len() as nat) {
            Ok(pairs) => res matches Ok(rows) && tabled(rows@, pairs, MemoryKind::Allocations),
            Err(e) => res matches Err(f) && f == e,
        },
{
    top_rows(data, MemoryKind::Allocations)
}

/// The locations by the number of their temporary allocations.
pub fn make_top_tmp_allocations(data: &TraceGraph) -> (res: Result<
    Vec<(String, String)>,
    TraceError,
>)
    ensures
        match location_pairs(*data, MemoryKind::Temporary, data.allocations.len() as nat) {
            Ok(pairs) => res matches Ok(rows) && tabled(rows@, pairs, MemoryKind::Temporary),
            Err(e) => res matches Err(f) && f == e,
        },
{
    top_rows(data, MemoryKind::Temporary)
}

} // verus!
