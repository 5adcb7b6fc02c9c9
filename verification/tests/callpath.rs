use memtrace_ui::callpath::reconstruct;
use memtrace_ui::trace::{Frame, InstructionPointer, Trace, TraceError, TraceGraph};

fn single(function_idx: usize) -> Frame {
    Frame::Single { function_idx }
}

fn located(function_idx: usize, file_idx: usize, line_number: u32) -> Frame {
    Frame::Multiple { function_idx, file_idx, line_number }
}

fn graph() -> TraceGraph {
    TraceGraph {
        strings: vec![
            "main".to_string(),
            "run".to_string(),
            "alloc".to_string(),
            "main.rs".to_string(),
            "helper".to_string(),
        ],
        // trace 1 is the outermost level, trace 2 is called from it, trace 3 from trace 2
        traces: vec![
            Trace { ip_idx: 1, parent_idx: 0 },
            Trace { ip_idx: 2, parent_idx: 1 },
            Trace { ip_idx: 3, parent_idx: 2 },
        ],
        instruction_pointers: vec![
            InstructionPointer { frame: located(1, 4, 10), inlined: vec![] },
            InstructionPointer { frame: located(2, 4, 20), inlined: vec![single(5), located(5, 4, 30)] },
            InstructionPointer { frame: single(3), inlined: vec![] },
        ],
        allocations: vec![],
        allocation_infos: vec![],
    }
}

#[test]
fn chain_of_trace_zero_is_empty() {
    assert_eq!(reconstruct(&graph(), 0), Ok(vec![]));
}

#[test]
fn chain_runs_from_the_outermost_frame_with_inlined_frames_in_place() {
    let frames = reconstruct(&graph(), 3).unwrap();
    assert_eq!(
        frames,
        vec![located(1, 4, 10), located(2, 4, 20), single(5), located(5, 4, 30), single(3)]
    );
}

#[test]
fn chain_length_is_one_per_hop_plus_the_inlined_frames() {
    let g = graph();
    // hops of trace 3: ip 3, ip 2, ip 1 with 0, 2 and 0 inlined frames
    assert_eq!(reconstruct(&g, 3).unwrap().len(), (1 + 0) + (1 + 2) + (1 + 0));
    assert_eq!(reconstruct(&g, 2).unwrap().len(), (1 + 2) + (1 + 0));
    assert_eq!(reconstruct(&g, 1).unwrap().len(), 1);
}

#[test]
fn trace_index_beyond_the_table_is_reported() {
    assert_eq!(reconstruct(&graph(), 4), Err(TraceError::TraceIndex(4)));
    let mut g = graph();
    g.traces[0].parent_idx = 9;
    assert_eq!(reconstruct(&g, 3), Err(TraceError::TraceIndex(9)));
}

#[test]
fn parent_cycle_is_reported() {
    let mut g = graph();
    g.traces[0].parent_idx = 3;
    assert_eq!(reconstruct(&g, 3), Err(TraceError::ParentCycle));
    let mut own = graph();
    own.traces[1].parent_idx = 2;
    assert_eq!(reconstruct(&own, 2), Err(TraceError::ParentCycle));
}

#[test]
fn longest_possible_chain_is_no_cycle() {
    // every trace of the table on one chain
    let g = graph();
    assert_eq!(g.traces.len(), 3);
    assert!(reconstruct(&g, 3).is_ok());
}

#[test]
fn instruction_pointer_index_that_does_not_resolve_is_reported() {
    let mut g = graph();
    g.traces[1].ip_idx = 0;
    assert_eq!(reconstruct(&g, 3), Err(TraceError::IpIndex(0)));
    g.traces[1].ip_idx = 4;
    assert_eq!(reconstruct(&g, 3), Err(TraceError::IpIndex(4)));
}

#[test]
fn function_index_zero_is_a_defect() {
    let mut g = graph();
    g.instruction_pointers[2].frame = single(0);
    assert_eq!(reconstruct(&g, 3), Err(TraceError::FunctionIndex(0)));
}

#[test]
fn function_and_file_index_beyond_the_strings_are_reported() {
    let mut g = graph();
    g.instruction_pointers[1].inlined[0] = single(6);
    assert_eq!(reconstruct(&g, 3), Err(TraceError::FunctionIndex(6)));
    let mut h = graph();
    h.instruction_pointers[0].frame = located(1, 6, 1);
    assert_eq!(reconstruct(&h, 3), Err(TraceError::FileIndex(6)));
}

#[test]
fn defects_on_the_way_up_come_before_defects_on_the_way_down() {
    let mut g = graph();
    g.instruction_pointers[2].frame = single(0);
    g.traces[0].parent_idx = 7;
    assert_eq!(reconstruct(&g, 3), Err(TraceError::TraceIndex(7)));
}

#[test]
fn the_outermost_defect_is_reported_first() {
    let mut g = graph();
    g.instruction_pointers[2].frame = single(0);
    g.instruction_pointers[0].frame = single(9);
    assert_eq!(reconstruct(&g, 3), Err(TraceError::FunctionIndex(9)));
}

#[test]
fn frame_accessors_give_zero_where_there_is_no_location() {
    assert_eq!(single(7).function_idx(), 7);
    assert_eq!(single(7).file_idx(), 0);
    assert_eq!(single(7).line_number(), 0);
    assert_eq!(located(7, 2, 31).function_idx(), 7);
    assert_eq!(located(7, 2, 31).file_idx(), 2);
    assert_eq!(located(7, 2, 31).line_number(), 31);
}
