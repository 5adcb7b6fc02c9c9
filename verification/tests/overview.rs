use memtrace_ui::overview::{
    decimal_text, make_top_allocations, make_top_leaks, make_top_peaks, make_top_tmp_allocations,
    top_contributions, top_rows,
};
use memtrace_ui::ranking::larger_first;
use memtrace_ui::trace::{
    Allocation, AllocationData, Frame, InstructionPointer, MemoryKind, Trace, TraceError, TraceGraph,
};
use std::cmp::Ordering;

fn data(peak: u64, leaked: u64, allocations: u64, temporary: u64) -> AllocationData {
    AllocationData { allocations, temporary, leaked, peak }
}

/// strings: 1 main, 2 work, 3 alloc, 4 free
/// innermost functions: trace 1 main, trace 2 work, trace 3 alloc, trace 4 free, trace 5 work
fn graph(allocations: Vec<(u64, AllocationData)>) -> TraceGraph {
    let at = |function_idx| InstructionPointer {
        frame: Frame::Single { function_idx },
        inlined: vec![Frame::Single { function_idx: 1 }],
    };
    TraceGraph {
        strings: vec!["main".to_string(), "work".to_string(), "alloc".to_string(), "free".to_string()],
        traces: vec![
            Trace { ip_idx: 1, parent_idx: 0 },
            Trace { ip_idx: 2, parent_idx: 1 },
            Trace { ip_idx: 3, parent_idx: 2 },
            Trace { ip_idx: 4, parent_idx: 1 },
            Trace { ip_idx: 2, parent_idx: 4 },
        ],
        instruction_pointers: vec![at(1), at(2), at(3), at(4)],
        allocations: allocations
            .into_iter()
            .map(|(trace_idx, data)| Allocation { trace_idx, data })
            .collect(),
        allocation_infos: vec![],
    }
}

fn rows(list: &[(&str, &str)]) -> Vec<(String, String)> {
    list.iter().map(|(a, b)| (a.to_string(), b.to_string())).collect()
}

#[test]
fn allocations_at_the_same_function_are_summed() {
    let g = graph(vec![
        (2, data(10, 1, 2, 0)),
        (3, data(100, 20, 3, 1)),
        (5, data(1000, 300, 4, 2)),
        (2, data(5, 5, 5, 5)),
    ]);
    assert_eq!(
        top_contributions(&g, MemoryKind::Peak),
        Ok(vec![("work".to_string(), 1015), ("alloc".to_string(), 100)])
    );
    assert_eq!(
        top_contributions(&g, MemoryKind::Allocations),
        Ok(vec![("work".to_string(), 11), ("alloc".to_string(), 3)])
    );
}

#[test]
fn the_largest_sum_comes_first() {
    let g = graph(vec![
        (1, data(1, 40, 0, 0)),
        (2, data(2, 30, 0, 0)),
        (3, data(3, 20, 0, 0)),
        (4, data(4, 10, 0, 0)),
    ]);
    // by peak the locations were listed in rising order, by what leaked in falling order
    assert_eq!(
        top_contributions(&g, MemoryKind::Peak).unwrap().iter().map(|e| e.0.as_str()).collect::<Vec<_>>(),
        vec!["free", "alloc", "work", "main"]
    );
    assert_eq!(
        top_contributions(&g, MemoryKind::Leaked).unwrap().iter().map(|e| e.0.as_str()).collect::<Vec<_>>(),
        vec!["main", "work", "alloc", "free"]
    );
}

#[test]
fn locations_with_equal_sums_are_all_listed() {
    let g = graph(vec![(1, data(7, 0, 0, 0)), (2, data(7, 0, 0, 0)), (3, data(9, 0, 0, 0)), (1, data(0, 0, 0, 0))]);
    let top = top_contributions(&g, MemoryKind::Peak).unwrap();
    assert_eq!(top[0], ("alloc".to_string(), 9));
    let mut rest: Vec<(String, u64)> = top[1..].to_vec();
    rest.sort();
    assert_eq!(rest, vec![("main".to_string(), 7), ("work".to_string(), 7)]);
}

#[test]
fn no_allocations_give_no_rows() {
    assert_eq!(top_contributions(&graph(vec![]), MemoryKind::Peak), Ok(vec![]));
    assert_eq!(make_top_peaks(&graph(vec![])), Ok(vec![]));
}

#[test]
fn memory_is_worded_in_units_and_counts_in_digits() {
    let g = graph(vec![(2, data(1536, 2048, 12, 0)), (3, data(12, 1_048_576, 1205, 3))]);
    assert_eq!(make_top_peaks(&g), Ok(rows(&[("work", "1.5 KiB"), ("alloc", "12 B")])));
    assert_eq!(make_top_leaks(&g), Ok(rows(&[("alloc", "1.0 MiB"), ("work", "2.0 KiB")])));
    assert_eq!(make_top_allocations(&g), Ok(rows(&[("alloc", "1205"), ("work", "12")])));
    assert_eq!(make_top_tmp_allocations(&g), Ok(rows(&[("alloc", "3"), ("work", "0")])));
    assert_eq!(top_rows(&g, MemoryKind::Peak), make_top_peaks(&g));
}

#[test]
fn location_is_the_function_at_the_innermost_level() {
    // the frames inlined at the innermost level and the callers do not count
    let g = graph(vec![(3, data(1, 0, 0, 0))]);
    assert_eq!(top_contributions(&g, MemoryKind::Peak), Ok(vec![("alloc".to_string(), 1)]));
}

#[test]
fn location_that_does_not_resolve_is_reported() {
    assert_eq!(
        top_contributions(&graph(vec![(1, data(1, 1, 1, 1)), (0, data(1, 1, 1, 1))]), MemoryKind::Peak),
        Err(TraceError::TraceIndex(0))
    );
    assert_eq!(
        top_contributions(&graph(vec![(6, data(1, 1, 1, 1))]), MemoryKind::Peak),
        Err(TraceError::TraceIndex(6))
    );
    let mut g = graph(vec![(2, data(1, 1, 1, 1))]);
    g.traces[1].ip_idx = 5;
    assert_eq!(make_top_leaks(&g), Err(TraceError::IpIndex(5)));
    g.traces[1].ip_idx = 0;
    assert_eq!(make_top_leaks(&g), Err(TraceError::IpIndex(0)));
    let mut h = graph(vec![(2, data(1, 1, 1, 1))]);
    h.instruction_pointers[1].frame = Frame::Single { function_idx: 5 };
    assert_eq!(make_top_allocations(&h), Err(TraceError::FunctionIndex(5)));
    h.instruction_pointers[1].frame = Frame::Single { function_idx: 0 };
    assert_eq!(make_top_tmp_allocations(&h), Err(TraceError::FunctionIndex(0)));
}

#[test]
fn sum_of_a_metric_that_leaves_64_bits_is_reported() {
    let g = graph(vec![(2, data(u64::MAX, 1, 0, 0)), (3, data(1, 1, 0, 0))]);
    assert_eq!(top_contributions(&g, MemoryKind::Peak), Err(TraceError::MetricOverflow));
    let mut leaked = top_contributions(&g, MemoryKind::Leaked).unwrap();
    leaked.sort();
    assert_eq!(leaked, vec![("alloc".to_string(), 1), ("work".to_string(), 1)]);
    let most = graph(vec![(2, data(u64::MAX - 1, 0, 0, 0)), (2, data(1, 0, 0, 0))]);
    assert_eq!(top_contributions(&most, MemoryKind::Peak), Ok(vec![("work".to_string(), u64::MAX)]));
}

#[test]
fn digits_of_a_number() {
    assert_eq!(decimal_text(0), "0");
    assert_eq!(decimal_text(7), "7");
    assert_eq!(decimal_text(1234567890), "1234567890");
    assert_eq!(decimal_text(u64::MAX), "18446744073709551615");
}

#[test]
fn larger_amounts_order_first() {
    let a = ("a".to_string(), 5);
    let b = ("b".to_string(), 9);
    assert_eq!(larger_first(&a, &b), Ordering::Greater);
    assert_eq!(larger_first(&b, &a), Ordering::Less);
    assert_eq!(larger_first(&a, &("c".to_string(), 5)), Ordering::Equal);
}
