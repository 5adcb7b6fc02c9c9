use memtrace_ui::flame::FlameError;
use memtrace_ui::flamegraph::{find_hit, share_in_root, BarRect, DrawnFrame, Flamegraph, Options, Pointer};
use memtrace_ui::layout::{Canvas, FrameRect};
use memtrace_ui::page::{get_frames_from_ip_info, FlamegraphPage};
use memtrace_ui::trace::{
    Allocation, AllocationData, AllocationInfo, Frame, InstructionPointer, MemInfo, MemoryKind,
    Trace, TraceError, TraceGraph,
};
use memtrace_ui::color::{make_frame_color, saturate};

fn lines(text: &[&str]) -> Vec<Vec<u8>> {
    text.iter().map(|line| line.as_bytes().to_vec()).collect()
}

fn widget(show_info_bar: bool) -> Flamegraph {
    Flamegraph::new(Options { frame_height: 20, show_info_bar, unit: "bytes".to_string() })
}

fn canvas() -> Canvas {
    Canvas { min_x: 0, max_x: 120, min_y: 0 }
}

fn away() -> Pointer {
    Pointer { position: None, clicked: false }
}

fn at(x: i32, y: i32, clicked: bool) -> Pointer {
    Pointer { position: Some((x, y)), clicked }
}

fn drawn_nodes(frames: &[DrawnFrame]) -> Vec<(usize, i64, i64)> {
    frames.iter().map(|f| (f.rect.node, f.rect.min_x, f.rect.max_x)).collect()
}

const CHAINS: [&str; 3] = ["a;b 3", "a;c 2", "d 7"];

#[test]
fn new_widget_has_nothing_selected() {
    let w = widget(true);
    assert!(w.selected_chain_ids.is_empty());
    assert!(w.info_bar.is_none());
    assert_eq!(w.options.frame_height, 20);
    assert_eq!(w.options.unit, "bytes");
}

#[test]
fn drawing_without_pointer_changes_nothing() {
    let mut w = widget(true);
    let d = w.show(&lines(&CHAINS), &canvas(), &away()).unwrap();
    assert_eq!(drawn_nodes(&d.frames), vec![(0, 0, 120), (1, 0, 50), (2, 0, 30), (3, 30, 50), (4, 50, 120)]);
    assert_eq!(d.hovered, None);
    assert!(d.frames.iter().all(|f| !f.hovered));
    assert!(w.selected_chain_ids.is_empty());
    assert!(w.info_bar.is_none());
    assert_eq!(d.tree.frames[0].value, 12);
}

#[test]
fn frames_have_the_colour_of_their_weight_depth_and_reach() {
    let mut w = widget(true);
    let d = w.show(&lines(&CHAINS), &canvas(), &at(60, 30, false)).unwrap();
    assert_eq!(d.frames[1].color, make_frame_color(5, 1, 0, 50));
    assert_eq!(d.frames[0].color, make_frame_color(12, 0, 0, 120));
    assert!(d.frames[4].hovered);
    assert_eq!(d.frames[4].color, saturate(make_frame_color(7, 1, 50, 120), 30));
}

#[test]
fn hovering_tells_about_the_node() {
    let mut w = widget(true);
    let d = w.show(&lines(&CHAINS), &canvas(), &at(60, 30, false)).unwrap();
    assert_eq!(d.hovered, Some(4));
    let info = w.info_bar.as_ref().unwrap();
    assert_eq!(info.node, 4);
    assert_eq!(info.label, b"d".to_vec());
    assert_eq!(info.value, 7);
    assert_eq!(info.share, 5833);
    assert!(w.selected_chain_ids.is_empty());
    // the strip keeps telling about the node when the pointer has left
    w.show(&lines(&CHAINS), &canvas(), &away()).unwrap();
    assert_eq!(w.info_bar.as_ref().unwrap().node, 4);
}

#[test]
fn without_the_strip_hovering_tells_nothing() {
    let mut w = widget(false);
    let d = w.show(&lines(&CHAINS), &canvas(), &at(60, 30, true)).unwrap();
    assert_eq!(d.hovered, Some(4));
    assert!(d.info_bar.is_none());
    assert!(w.info_bar.is_none());
    assert_eq!(w.selected_chain_ids, vec![2]);
}

#[test]
fn pointer_in_the_gap_or_beside_the_graph_hovers_nothing() {
    let mut w = widget(true);
    for (x, y) in [(60, 21), (60, 23), (121, 10), (-1, 10), (60, 45), (100, 50), (60, -1)] {
        let d = w.show(&lines(&CHAINS), &canvas(), &at(x, y, true)).unwrap();
        assert_eq!(d.hovered, None);
    }
    assert!(w.selected_chain_ids.is_empty());
    assert!(w.info_bar.is_none());
}

#[test]
fn on_a_shared_border_the_later_frame_is_hovered() {
    let mut w = widget(true);
    let d = w.show(&lines(&CHAINS), &canvas(), &at(50, 30, false)).unwrap();
    assert!(d.frames[1].hovered && d.frames[4].hovered);
    assert_eq!(d.hovered, Some(4));
    let corner = w.show(&lines(&CHAINS), &canvas(), &at(0, 20, false)).unwrap();
    assert_eq!(corner.hovered, Some(0));
}

#[test]
fn click_selects_the_chains_of_the_node_for_the_next_drawing() {
    let mut w = widget(true);
    let first = w.show(&lines(&CHAINS), &canvas(), &at(10, 50, true)).unwrap();
    // the click hit b; this drawing was still made without a selection
    assert_eq!(first.hovered, Some(2));
    assert_eq!(first.frames.len(), 5);
    assert_eq!(w.selected_chain_ids, vec![0]);
    let second = w.show(&lines(&CHAINS), &canvas(), &away()).unwrap();
    assert_eq!(drawn_nodes(&second.frames), vec![(0, 0, 120), (1, 0, 50), (2, 0, 50)]);
    assert_eq!(w.selected_chain_ids, vec![0]);
}

#[test]
fn click_on_another_node_replaces_the_selection() {
    let mut w = widget(true);
    w.show(&lines(&CHAINS), &canvas(), &at(10, 50, true)).unwrap();
    w.show(&lines(&CHAINS), &canvas(), &at(10, 30, true)).unwrap();
    assert_eq!(w.selected_chain_ids, vec![0, 1]);
    w.show(&lines(&CHAINS), &canvas(), &at(10, 10, true)).unwrap();
    assert_eq!(w.selected_chain_ids, vec![0, 1, 2]);
}

#[test]
fn reset_drops_the_selection_and_keeps_the_rest() {
    let mut w = widget(true);
    w.show(&lines(&CHAINS), &canvas(), &at(10, 50, true)).unwrap();
    assert!(!w.selected_chain_ids.is_empty());
    w.reset();
    assert!(w.selected_chain_ids.is_empty());
    assert_eq!(w.info_bar.as_ref().unwrap().node, 2);
    assert_eq!(w.options.frame_height, 20);
}

#[test]
fn lines_that_give_no_graph_change_nothing() {
    let mut w = widget(true);
    w.show(&lines(&CHAINS), &canvas(), &at(10, 50, true)).unwrap();
    let bad = w.show(&lines(&["a 1", "b"]), &canvas(), &at(10, 10, true));
    assert_eq!(bad.err(), Some(FlameError::MissingWeight(1)));
    assert_eq!(w.selected_chain_ids, vec![0]);
    assert_eq!(w.info_bar.as_ref().unwrap().node, 2);
}

#[test]
fn strip_lies_one_row_below_the_deepest_frame() {
    let mut w = widget(true);
    let d = w.show(&lines(&CHAINS), &Canvas { min_x: 5, max_x: 95, min_y: 100 }, &away()).unwrap();
    assert_eq!(d.info_bar, Some(BarRect { min_x: 5, max_x: 95, min_y: 100 + 3 * 24, max_y: 100 + 3 * 24 + 35 }));
    let flat = w.show(&vec![], &canvas(), &away()).unwrap();
    assert_eq!(flat.info_bar, Some(BarRect { min_x: 0, max_x: 120, min_y: 24, max_y: 59 }));
    assert_eq!(w.draw_info_bar(&d.tree, &canvas()), BarRect { min_x: 0, max_x: 120, min_y: 72, max_y: 107 });
}

#[test]
fn share_of_the_root_in_hundredths_of_a_percent() {
    // 41.666..% is told as 41.67%, 58.333..% as 58.33%
    assert_eq!(share_in_root(5, 12), 4167);
    assert_eq!(share_in_root(7, 12), 5833);
    assert_eq!(share_in_root(12, 12), 10_000);
    assert_eq!(share_in_root(0, 12), 0);
    assert_eq!(share_in_root(1, 3), 3333);
    assert_eq!(share_in_root(2, 3), 6667);
    // a half goes up
    assert_eq!(share_in_root(1, 20_000), 1);
    assert_eq!(share_in_root(1, 20_001), 0);
    assert_eq!(share_in_root(5, 0), 0);
    assert_eq!(share_in_root(13, 12), 10_000);
    assert_eq!(share_in_root(u64::MAX - 1, u64::MAX), 10_000);
    assert_eq!(share_in_root(u64::MAX / 2, u64::MAX), 5000);
}

#[test]
fn last_frame_under_a_point_is_found() {
    let frame = |min_x, max_x| DrawnFrame {
        rect: FrameRect { node: 0, depth: 0, min_x, max_x, min_y: 0, max_y: 10 },
        color: make_frame_color(0, 0, 0, 0),
        hovered: false,
    };
    let frames = vec![frame(0, 10), frame(5, 20), frame(30, 40)];
    assert_eq!(find_hit(&frames, 7, 5), Some(1));
    assert_eq!(find_hit(&frames, 3, 10), Some(0));
    assert_eq!(find_hit(&frames, 40, 0), Some(2));
    assert_eq!(find_hit(&frames, 25, 5), None);
    assert_eq!(find_hit(&frames, 7, 11), None);
    assert_eq!(find_hit(&vec![], 0, 0), None);
    assert!(frames[0].rect.contains(0, 0) && frames[0].rect.contains(10, 10));
    assert!(!frames[0].rect.contains(11, 10) && !frames[0].rect.contains(-1, 0));
}

fn profile() -> MemInfo {
    let located = |function_idx, file_idx, line_number| Frame::Multiple { function_idx, file_idx, line_number };
    MemInfo {
        app_name: "demo".to_string(),
        data: TraceGraph {
            strings: vec!["main".to_string(), "work".to_string(), "alloc".to_string(), "a.rs".to_string()],
            traces: vec![
                Trace { ip_idx: 1, parent_idx: 0 },
                Trace { ip_idx: 2, parent_idx: 1 },
                Trace { ip_idx: 3, parent_idx: 1 },
            ],
            instruction_pointers: vec![
                InstructionPointer { frame: located(1, 4, 1), inlined: vec![] },
                InstructionPointer { frame: located(2, 4, 7), inlined: vec![Frame::Single { function_idx: 3 }] },
                InstructionPointer { frame: Frame::Single { function_idx: 3 }, inlined: vec![] },
            ],
            allocations: vec![
                Allocation { trace_idx: 2, data: AllocationData { allocations: 3, temporary: 1, leaked: 20, peak: 100 } },
                Allocation { trace_idx: 3, data: AllocationData { allocations: 4, temporary: 0, leaked: 0, peak: 50 } },
                Allocation { trace_idx: 0, data: AllocationData { allocations: 1, temporary: 0, leaked: 8, peak: 8 } },
            ],
            allocation_infos: vec![
                AllocationInfo { allocation_idx: 1, size: 16 },
                AllocationInfo { allocation_idx: 2, size: 16 },
                AllocationInfo { allocation_idx: 3, size: 8 },
                AllocationInfo { allocation_idx: 1, size: 4 },
            ],
        },
    }
}

#[test]
fn page_writes_one_line_for_each_event_and_metric() {
    let info = profile();
    assert_eq!(
        FlamegraphPage::make_frame_lines(&info, MemoryKind::Peak).unwrap(),
        lines(&["main;work;alloc 100", "main;alloc 50", " 8", "main;work;alloc 100"])
    );
    let page = FlamegraphPage::new(&info).unwrap();
    assert_eq!(page.memory_kind, MemoryKind::Peak);
    assert_eq!(page.unit(), "bytes");
    assert_eq!(page.peak_frame_lines, lines(&["main;work;alloc 100", "main;alloc 50", " 8", "main;work;alloc 100"]));
    assert_eq!(page.leaked_frame_lines, lines(&["main;work;alloc 20", "main;alloc 0", " 8", "main;work;alloc 20"]));
    assert_eq!(page.tmp_frame_lines, lines(&["main;work;alloc 1", "main;alloc 0", " 0", "main;work;alloc 1"]));
    assert_eq!(
        page.allocations_frame_lines,
        lines(&["main;work;alloc 3", "main;alloc 4", " 1", "main;work;alloc 3"])
    );
    assert_eq!(page.flamegraph.options.frame_height, 20);
    assert!(page.flamegraph.options.show_info_bar);
    assert!(page.flamegraph.selected_chain_ids.is_empty());
}

#[test]
fn page_reports_defects_of_the_profile() {
    let mut info = profile();
    info.data.allocation_infos[1].allocation_idx = 4;
    assert_eq!(FlamegraphPage::new(&info).err(), Some(TraceError::AllocationIndex(4)));
    let mut cut = profile();
    cut.data.strings.truncate(2);
    assert_eq!(
        FlamegraphPage::make_frame_lines(&cut, MemoryKind::Leaked).err(),
        Some(TraceError::FileIndex(4))
    );
    let mut lost = profile();
    lost.data.instruction_pointers[1].inlined[0] = Frame::Single { function_idx: 9 };
    assert_eq!(
        FlamegraphPage::make_frame_lines(&lost, MemoryKind::Leaked).err(),
        Some(TraceError::FunctionIndex(9))
    );
}

#[test]
fn page_draws_the_metric_that_is_chosen() {
    let mut page = FlamegraphPage::new(&profile()).unwrap();
    let d = page.show(MemoryKind::Peak, &canvas(), &away()).unwrap();
    assert_eq!(d.tree.frames[0].value, 258);
    let d = page.show(MemoryKind::Allocations, &canvas(), &away()).unwrap();
    assert_eq!(d.tree.frames[0].value, 11);
    assert_eq!(page.memory_kind, MemoryKind::Allocations);
    assert_eq!(page.unit(), "");
    let d = page.show(MemoryKind::Leaked, &canvas(), &away()).unwrap();
    assert_eq!(d.tree.frames[0].value, 48);
    assert_eq!(page.unit(), "bytes");
    let d = page.show(MemoryKind::Temporary, &canvas(), &away()).unwrap();
    assert_eq!(d.tree.frames[0].value, 2);
    assert_eq!(page.unit(), "");
}

#[test]
fn switching_the_metric_drops_the_selection() {
    let mut page = FlamegraphPage::new(&profile()).unwrap();
    // main is the only child of the root: it spans the part of the canvas that the chains with labels weigh
    page.show(MemoryKind::Peak, &canvas(), &at(1, 30, true)).unwrap();
    assert_eq!(page.flamegraph.selected_chain_ids, vec![0, 1, 3]);
    page.show(MemoryKind::Peak, &canvas(), &away()).unwrap();
    assert_eq!(page.flamegraph.selected_chain_ids, vec![0, 1, 3]);
    let d = page.show(MemoryKind::Leaked, &canvas(), &away()).unwrap();
    assert!(page.flamegraph.selected_chain_ids.is_empty());
    // drawn without a selection: main, work, alloc under work, alloc under main
    assert_eq!(d.frames.len(), 5);
    // a click in the same call as the switch selects in the new numbering
    page.show(MemoryKind::Peak, &canvas(), &at(1, 30, true)).unwrap();
    page.show(MemoryKind::Temporary, &canvas(), &at(1, 10, true)).unwrap();
    assert_eq!(page.flamegraph.selected_chain_ids, vec![0, 1, 2, 3]);
}

#[test]
fn chains_with_the_same_names_merge_whatever_their_call_sites() {
    // main calls work from two lines: two chains for the top-down tree, one path of labels
    let mut info = profile();
    info.data.traces = vec![
        Trace { ip_idx: 1, parent_idx: 0 },
        Trace { ip_idx: 2, parent_idx: 1 },
        Trace { ip_idx: 3, parent_idx: 0 },
        Trace { ip_idx: 2, parent_idx: 3 },
    ];
    info.data.instruction_pointers = vec![
        InstructionPointer { frame: Frame::Multiple { function_idx: 1, file_idx: 4, line_number: 1 }, inlined: vec![] },
        InstructionPointer { frame: Frame::Single { function_idx: 2 }, inlined: vec![] },
        InstructionPointer { frame: Frame::Multiple { function_idx: 1, file_idx: 4, line_number: 2 }, inlined: vec![] },
    ];
    info.data.allocations = vec![
        Allocation { trace_idx: 2, data: AllocationData { allocations: 1, temporary: 0, leaked: 0, peak: 10 } },
        Allocation { trace_idx: 4, data: AllocationData { allocations: 1, temporary: 0, leaked: 0, peak: 1000 } },
    ];
    info.data.allocation_infos =
        vec![AllocationInfo { allocation_idx: 1, size: 1 }, AllocationInfo { allocation_idx: 2, size: 1 }];
    let mut page = FlamegraphPage::new(&info).unwrap();
    assert_eq!(page.peak_frame_lines, lines(&["main;work 10", "main;work 1000"]));
    let d = page.show(MemoryKind::Peak, &canvas(), &away()).unwrap();
    assert_eq!(d.tree.frames.len(), 3);
    assert_eq!(d.tree.frames[2].label, b"work".to_vec());
    assert_eq!(d.tree.frames[2].value, 1010);
    // the numbers of the chains still tell the two apart
    assert_eq!(d.tree.frames[2].chain_ids, vec![0, 1]);
    let tree = memtrace_ui::topdown::TopDown::new(&info).unwrap();
    assert_eq!(tree.infos.iter().filter(|node| node.name == "work").count(), 2);
}

#[test]
fn hovering_a_tells_its_share_to_the_nearest_hundredth() {
    let mut w = widget(true);
    w.show(&lines(&CHAINS), &canvas(), &at(10, 30, false)).unwrap();
    let info = w.info_bar.as_ref().unwrap();
    assert_eq!(info.label, b"a".to_vec());
    assert_eq!(info.value, 5);
    assert_eq!(info.share, 4167);
}

#[test]
fn names_at_an_address_are_its_own_then_the_inlined_ones() {
    let info = profile();
    let at = InstructionPointer {
        frame: Frame::Single { function_idx: 2 },
        inlined: vec![
            Frame::Multiple { function_idx: 3, file_idx: 4, line_number: 9 },
            Frame::Single { function_idx: 1 },
            Frame::Single { function_idx: 3 },
        ],
    };
    assert_eq!(
        get_frames_from_ip_info(&info.data, &at),
        Ok(vec!["work".to_string(), "alloc".to_string(), "main".to_string(), "alloc".to_string()])
    );
    let alone = InstructionPointer { frame: Frame::Single { function_idx: 4 }, inlined: vec![] };
    assert_eq!(get_frames_from_ip_info(&info.data, &alone), Ok(vec!["a.rs".to_string()]));
    // the file of a frame plays no part in its name
    let far = InstructionPointer {
        frame: Frame::Multiple { function_idx: 1, file_idx: 99, line_number: 1 },
        inlined: vec![],
    };
    assert_eq!(get_frames_from_ip_info(&info.data, &far), Ok(vec!["main".to_string()]));
}

#[test]
fn name_that_the_strings_lack_is_reported() {
    let info = profile();
    let own = InstructionPointer {
        frame: Frame::Single { function_idx: 0 },
        inlined: vec![Frame::Single { function_idx: 9 }],
    };
    assert_eq!(get_frames_from_ip_info(&info.data, &own), Err(TraceError::FunctionIndex(0)));
    let inlined = InstructionPointer {
        frame: Frame::Single { function_idx: 1 },
        inlined: vec![Frame::Single { function_idx: 2 }, Frame::Single { function_idx: 5 }, Frame::Single { function_idx: 0 }],
    };
    assert_eq!(get_frames_from_ip_info(&info.data, &inlined), Err(TraceError::FunctionIndex(5)));
}

#[test]
fn lines_run_from_the_outermost_frame_with_inlined_frames_behind_their_own() {
    // work has alloc inlined: the line names work before the alloc inlined into it
    let info = profile();
    let lines_of_peak = FlamegraphPage::make_frame_lines(&info, MemoryKind::Peak).unwrap();
    assert_eq!(lines_of_peak[0], b"main;work;alloc 100".to_vec());
    let mut turned = profile();
    turned.data.instruction_pointers[1] = InstructionPointer {
        frame: Frame::Single { function_idx: 3 },
        inlined: vec![Frame::Single { function_idx: 2 }, Frame::Single { function_idx: 4 }],
    };
    assert_eq!(
        FlamegraphPage::make_frame_lines(&turned, MemoryKind::Peak).unwrap()[0],
        b"main;alloc;work;a.rs 100".to_vec()
    );
}
