use memtrace_ui::color::{color_from_hash, make_frame_color, saturate, Hsva, FULL, HOVER_FACTOR};
use memtrace_ui::flame::{build_stackframes, FlameTree};
use memtrace_ui::layout::{same_ids, shares_id, FrameRect, FRAME_V_SPACING, INFO_BAR_HEIGHT};

fn lines(text: &[&str]) -> Vec<Vec<u8>> {
    text.iter().map(|line| line.as_bytes().to_vec()).collect()
}

fn layout(tree: &FlameTree, selected: &Vec<usize>, min_x: i64, max_x: i64) -> Vec<FrameRect> {
    let mut out = vec![];
    tree.draw_one_frame(selected, 0, 20, 0, 0, min_x, max_x, &mut out);
    out
}

fn spans(tree: &FlameTree, rects: &[FrameRect]) -> Vec<(String, u32, i64, i64)> {
    rects
        .iter()
        .map(|r| {
            (String::from_utf8(tree.frames[r.node].label.clone()).unwrap(), r.depth, r.min_x, r.max_x)
        })
        .collect()
}

fn span(name: &str, depth: u32, min_x: i64, max_x: i64) -> (String, u32, i64, i64) {
    (name.to_string(), depth, min_x, max_x)
}

#[test]
fn three_chains_are_laid_out_by_their_weights() {
    let tree = build_stackframes(&lines(&["a;b 3", "a;c 2", "d 7"])).unwrap();
    let rects = layout(&tree, &vec![], 0, 120);
    assert_eq!(
        spans(&tree, &rects),
        vec![
            span("all", 0, 0, 120),
            span("a", 1, 0, 50),
            span("b", 2, 0, 30),
            span("c", 2, 30, 50),
            span("d", 1, 50, 120),
        ]
    );
}

#[test]
fn rows_lie_one_frame_and_one_gap_apart() {
    let tree = build_stackframes(&lines(&["a;b 3"])).unwrap();
    let mut out = vec![];
    tree.draw_one_frame(&vec![], -7, 20, 0, 0, 0, 10, &mut out);
    let rows: Vec<(i64, i64)> = out.iter().map(|r| (r.min_y, r.max_y)).collect();
    assert_eq!(rows, vec![(-7, 13), (-7 + 24, 13 + 24), (-7 + 48, 13 + 48)]);
    assert_eq!(FRAME_V_SPACING, 4);
    assert_eq!(INFO_BAR_HEIGHT, 35);
}

#[test]
fn rows_fit_at_the_ends_of_the_number_ranges() {
    let tree = build_stackframes(&lines(&["a 1"])).unwrap();
    let mut out = vec![];
    tree.draw_one_frame(&vec![], i32::MAX, u16::MAX, 0, 0, i64::MIN, i64::MAX, &mut out);
    assert_eq!(out[1].min_y, i32::MAX as i64 + 65535 + 4);
    assert_eq!(out[1].max_y, i32::MAX as i64 + 65535 + 4 + 65535);
    assert_eq!((out[1].min_x, out[1].max_x), (i64::MIN, i64::MAX));
}

#[test]
fn layout_appends_to_what_is_there() {
    let tree = build_stackframes(&lines(&["a 1"])).unwrap();
    let mut out = vec![FrameRect { node: 9, depth: 9, min_x: 1, max_x: 2, min_y: 3, max_y: 4 }];
    tree.draw_one_frame(&vec![], 0, 20, 0, 0, 0, 10, &mut out);
    assert_eq!(out.len(), 3);
    assert_eq!(out[0].node, 9);
    assert_eq!(out[1].node, 0);
}

#[test]
fn subtree_can_be_laid_out_on_its_own() {
    let tree = build_stackframes(&lines(&["a;b 3", "a;c 2", "d 7"])).unwrap();
    let mut out = vec![];
    tree.draw_one_frame(&vec![], 0, 20, 1, 1, 100, 200, &mut out);
    assert_eq!(spans(&tree, &out), vec![span("a", 1, 100, 200), span("b", 2, 100, 160), span("c", 2, 160, 200)]);
}

#[test]
fn shares_are_rounded_down_and_children_do_not_overlap() {
    let tree = build_stackframes(&lines(&["a 1", "b 1", "c 1"])).unwrap();
    let rects = layout(&tree, &vec![], 0, 100);
    assert_eq!(
        spans(&tree, &rects),
        vec![span("all", 0, 0, 100), span("a", 1, 0, 33), span("b", 1, 33, 66), span("c", 1, 66, 99)]
    );
}

#[test]
fn children_stay_within_their_parent_for_any_weights() {
    let cases: Vec<Vec<&str>> = vec![
        vec!["a 0", "b 5", "c 0"],
        vec!["a;x 1", "a;y 1", "a;z 1", "b 18446744073709551612"],
        vec!["a;b;c 7", "a;b 1", "a 2", "d;e 3", " 4"],
        vec!["a 1", "b 2", "c 3", "d 4", "e 5", "f 6", "g 7"],
    ];
    for case in cases {
        let tree = build_stackframes(&lines(&case)).unwrap();
        for (min_x, max_x) in [(0, 0), (0, 1), (-50, 77), (10, 1000)] {
            let rects = layout(&tree, &vec![], min_x, max_x);
            for parent in &rects {
                let kids: Vec<&FrameRect> =
                    rects.iter().filter(|r| r.node != 0 && tree.tree.parents[r.node] == parent.node).collect();
                let mut end = parent.min_x;
                for kid in kids {
                    assert!(end <= kid.min_x);
                    assert!(kid.min_x <= kid.max_x);
                    assert!(kid.max_x <= parent.max_x);
                    end = kid.max_x;
                }
            }
        }
    }
}

#[test]
fn weightless_node_has_no_child_drawn() {
    let tree = build_stackframes(&lines(&["a;b 0", "c 0"])).unwrap();
    assert_eq!(spans(&tree, &layout(&tree, &vec![], 0, 120)), vec![span("all", 0, 0, 120)]);
}

#[test]
fn weightless_child_is_drawn_without_width() {
    let tree = build_stackframes(&lines(&["a 0", "b 5"])).unwrap();
    assert_eq!(
        spans(&tree, &layout(&tree, &vec![], 0, 120)),
        vec![span("all", 0, 0, 120), span("a", 1, 0, 0), span("b", 1, 0, 120)]
    );
}

#[test]
fn selection_pins_the_exact_path_and_drops_what_shares_no_chain() {
    let tree = build_stackframes(&lines(&["a;b 3", "a;c 2", "d 7"])).unwrap();
    // the chains of node b
    assert_eq!(
        spans(&tree, &layout(&tree, &vec![0], 0, 120)),
        vec![span("all", 0, 0, 120), span("a", 1, 0, 50), span("b", 2, 0, 50)]
    );
    // the chains of node a
    assert_eq!(
        spans(&tree, &layout(&tree, &vec![0, 1], 0, 120)),
        vec![span("all", 0, 0, 120), span("a", 1, 0, 120), span("b", 2, 0, 72), span("c", 2, 72, 120)]
    );
    // the chains of node d
    assert_eq!(
        spans(&tree, &layout(&tree, &vec![2], 0, 120)),
        vec![span("all", 0, 0, 120), span("d", 1, 0, 120)]
    );
    // all chains: the root's children share chains with the selection
    assert_eq!(
        spans(&tree, &layout(&tree, &vec![0, 1, 2], 0, 120)),
        vec![
            span("all", 0, 0, 120),
            span("a", 1, 0, 50),
            span("b", 2, 0, 30),
            span("c", 2, 30, 50),
            span("d", 1, 50, 120),
        ]
    );
    // chains that the graph does not have
    assert_eq!(spans(&tree, &layout(&tree, &vec![9], 0, 120)), vec![span("all", 0, 0, 120)]);
}

#[test]
fn chain_number_lists() {
    assert!(same_ids(&vec![1, 2, 5], &vec![1, 2, 5]));
    assert!(!same_ids(&vec![1, 2, 5], &vec![1, 2]));
    assert!(!same_ids(&vec![1, 2, 5], &vec![1, 2, 6]));
    assert!(same_ids(&vec![], &vec![]));
    assert!(shares_id(&vec![1, 4, 9], &vec![2, 3, 9]));
    assert!(shares_id(&vec![7], &vec![1, 7, 8]));
    assert!(!shares_id(&vec![1, 4, 9], &vec![2, 3, 10]));
    assert!(!shares_id(&vec![], &vec![1]));
    assert!(!shares_id(&vec![1], &vec![]));
}

#[test]
fn colour_of_a_hash() {
    assert_eq!(color_from_hash(0), Hsva { h: 118_000, s: 760_000, v: 600_000, a: 1_000_000 });
    assert_eq!(color_from_hash(0xff_ffff), Hsva { h: 160_000, s: 840_000, v: 749_411, a: 1_000_000 });
    assert_eq!(color_from_hash(0x01_0203), Hsva { h: 118_494, s: 761_259, v: 601_176, a: 1_000_000 });
    // the top bit of the second and third byte and the higher bytes do not count
    assert_eq!(color_from_hash(0xffff_ffff_ff80_8000), color_from_hash(0));
}

#[test]
fn colour_of_a_frame_is_always_the_same_green() {
    let inputs = [(0u64, 0u32, 0i64, 0i64), (12, 0, 0, 120), (5, 1, 0, 50), (u64::MAX, u32::MAX, i64::MIN, i64::MAX)];
    for (value, depth, min_x, max_x) in inputs {
        let c = make_frame_color(value, depth, min_x, max_x);
        assert_eq!(c, make_frame_color(value, depth, min_x, max_x));
        assert!(118_000 <= c.h && c.h <= 160_000);
        assert!(760_000 <= c.s && c.s <= 840_000);
        assert!(600_000 <= c.v && c.v <= 749_411);
        assert_eq!(c.a, FULL);
    }
}

#[test]
fn colour_depends_on_every_input() {
    let base = make_frame_color(5, 1, 0, 50);
    let others = [
        make_frame_color(6, 1, 0, 50),
        make_frame_color(5, 2, 0, 50),
        make_frame_color(5, 1, 1, 50),
        make_frame_color(5, 1, 0, 51),
        make_frame_color(5, 1, 50, 0),
    ];
    assert!(others.iter().any(|c| *c != base));
}

#[test]
fn hovering_pales_and_darkens() {
    let c = Hsva { h: 120_000, s: 800_000, v: 700_000, a: 1_000_000 };
    assert_eq!(HOVER_FACTOR, 30);
    assert_eq!(saturate(c, 30), Hsva { h: 120_000, s: 560_000, v: 490_000, a: 1_000_000 });
    let pale = Hsva { h: 1, s: 500_000, v: 3, a: 7 };
    assert_eq!(saturate(pale, 30), Hsva { h: 1, s: 350_000, v: 2, a: 7 });
    assert_eq!(saturate(pale, 0), pale);
    assert_eq!(saturate(pale, 100), Hsva { h: 1, s: 0, v: 0, a: 7 });
    assert_eq!(saturate(pale, 150), Hsva { h: 1, s: 0, v: 0, a: 7 });
    let most = Hsva { h: 0, s: u32::MAX, v: u32::MAX, a: 0 };
    assert_eq!(saturate(most, u32::MAX), Hsva { h: 0, s: 0, v: 0, a: 0 });
    assert_eq!(saturate(most, 99), Hsva { h: 0, s: 42_949_672, v: 42_949_672, a: 0 });
}

#[test]
fn hovering_never_adds_saturation_or_brightness() {
    for factor in [0, 1, 29, 30, 50, 99, 100, 1000] {
        for (s, v) in [(0, 0), (1, 1), (760_000, 600_000), (840_000, 749_411), (1_000_000, 1_000_000)] {
            let c = Hsva { h: 130_000, s, v, a: 1_000_000 };
            let hovered = saturate(c, factor);
            assert!(hovered.s <= c.s && hovered.v <= c.v);
            assert_eq!((hovered.h, hovered.a), (c.h, c.a));
            assert_eq!(hovered, saturate(c, factor));
        }
    }
}
