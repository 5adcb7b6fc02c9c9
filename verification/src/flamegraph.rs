//! The flame graph on the screen: what is drawn for a list of lines, what
//! the pointer hovers over, and which chains a click has selected.

use vstd::prelude::*;
use crate::collapsed::labels_view;
use crate::color::{dimmed, frame_color, make_frame_color, saturate, Hsva, HOVER_FACTOR};
use crate::flame::{build_stackframes, chains_read, increasing, FlameError, FlameTree};
use crate::layout::{row_top, Canvas, FrameRect, FRAME_V_SPACING, INFO_BAR_HEIGHT};

verus! {

/// How the graph is drawn.
#[derive(Clone, Debug)]
pub struct Options {
    /// The height of a row.
    pub frame_height: u16,
    /// Whether the strip that tells about the hovered node is drawn.
    pub show_info_bar: bool,
    /// The unit of the weights.
    pub unit: String,
}

/// Where the pointer is, if it is over the canvas, and whether it was clicked.
#[derive(Clone, Copy, Debug)]
pub struct Pointer {
    pub position: Option<(i32, i32)>,
    pub clicked: bool,
}

/// What the strip tells about a node.
#[derive(Debug)]
pub struct HoverInfo {
    /// The number of the node in the graph it was drawn from.
    pub node: usize,
    pub label: Vec<u8>,
    /// The weight of the node.
    pub value: u64,
    /// The node's share of the root's weight, in hundredths of a percent.
    pub share: u64,
}

/// One frame as it is drawn.
#[derive(Clone, Copy, Debug, PartialEq, Eq, Structural)]
pub struct DrawnFrame {
    pub rect: FrameRect,
    pub color: Hsva,
    /// Whether the pointer is over the frame.
    pub hovered: bool,
}

/// Where the strip is drawn.
#[derive(Clone, Copy, Debug, PartialEq, Eq, Structural)]
pub struct BarRect {
    pub min_x: i64,
    pub max_x: i64,
    pub min_y: i64,
    pub max_y: i64,
}

/// What one call of `Flamegraph::show` draws.
pub struct Drawing {
    /// The graph of the lines.
    pub tree: FlameTree,
    /// The frames, the root first, each parent before its children.
    pub frames: Vec<DrawnFrame>,
    /// The place in `frames` of the frame that the pointer is over.
    pub hovered: Option<usize>,
    /// The strip, where it is drawn.
    pub info_bar: Option<BarRect>,
}

/// The state of the flame graph between two drawings.
#[derive(Debug)]
pub struct Flamegraph {
    pub options: Options,
    /// The numbers of the selected chains, in rising order; none where
    /// nothing is selected.
    pub selected_chain_ids: Vec<usize>,
    /// What the strip tells: the node that was hovered last.
    pub info_bar: Option<HoverInfo>,
}

/// A node's share of the root's weight in hundredths of a percent, rounded
/// to the nearest, a half upwards; nothing of a weightless root.
pub open spec fn share_of_root(value: u64, root_value: u64) -> u64 {
    if root_value == 0 {
        0
    } else if value >= root_value {
        10_000
    } else {
        ((value * 10_000 + root_value / 2) / (root_value as int)) as u64
    }
}

/// The place of the last rectangle that the point lies in.
pub open spec fn last_hit(rects: Seq<FrameRect>, x: i32, y: i32) -> Option<usize>
    decreases rects.len(),
{
    if rects.len() == 0 {
        None
    } else if rects.last().contains(x, y) {
        Some((rects.len() - 1) as usize)
    } else {
        last_hit(rects.drop_last(), x, y)
    }
}

/// The place of the frame that the pointer is over: the last that it lies in.
pub open spec fn hovered_frame(rects: Seq<FrameRect>, pointer: Pointer) -> Option<usize> {
    match pointer.position {
        Some(at) => last_hit(rects, at.0, at.1),
        None => None,
    }
}

/// Whether the pointer lies in the rectangle.
pub open spec fn pointer_in(rect: FrameRect, pointer: Pointer) -> bool {
    match pointer.position {
        Some(at) => rect.contains(at.0, at.1),
        None => false,
    }
}

/// The rectangles of a list of drawn frames.
pub open spec fn rects_of(frames: Seq<DrawnFrame>) -> Seq<FrameRect> {
    Seq::new(frames.len(), |i: int| frames[i].rect)
}

/// How a rectangle of the graph `tree` is drawn: in the colour of its weight,
/// depth and reach, changed where the pointer is over it.
pub open spec fn drawn(tree: FlameTree, rect: FrameRect, pointer: Pointer) -> DrawnFrame {
    let base = frame_color(tree.frames[rect.node as int].value, rect.depth, rect.min_x, rect.max_x);
    DrawnFrame {
        rect,
        color: if pointer_in(rect, pointer) {
            dimmed(base, HOVER_FACTOR)
        } else {
            base
        },
        hovered: pointer_in(rect, pointer),
    }
}

/// Where the strip lies under a graph of the given depth.
pub open spec fn bar_under(canvas: Canvas, frame_height: u16, max_depth: u32) -> BarRect {
    BarRect {
        min_x: canvas.min_x as i64,
        max_x: canvas.max_x as i64,
        min_y: row_top(canvas.min_y as int, max_depth + 1, frame_height as int) as i64,
        max_y: (row_top(canvas.min_y as int, max_depth + 1, frame_height as int)
            + INFO_BAR_HEIGHT) as i64,
    }
}

/// What a drawing does: `res` is what was drawn for `lines` under the
/// selection `selected`, and `after` is the state that the pointer left.
/// Lines that give no graph change nothing. Else the frames are the layout
/// of the graph, each in its colour; a click on the hovered frame selects
/// the chains of its node, and the strip, where it is shown, tells about
/// that node.
pub open spec fn shown(
    selected: Seq<usize>,
    options: Options,
    info_before: Option<HoverInfo>,
    after: Flamegraph,
    lines: Seq<Seq<u8>>,
    canvas: Canvas,
    pointer: Pointer,
    res: Result<Drawing, FlameError>,
) -> bool {
    match chains_read(lines, lines.len()) {
        Err(e) => {
            &&& res matches Err(f) && f == e
            &&& after.selected_chain_ids@ == selected
            &&& after.info_bar == info_before
        },
        Ok(chains) => {
            &&& res matches Ok(d)
            &&& d.tree.wf()
            &&& d.tree.represents(chains)
            &&& rects_of(d.frames@) == d.tree.layout_node(
                selected,
                canvas.min_y as int,
                options.frame_height as int,
                0,
                0,
                canvas.min_x as int,
                canvas.max_x as int,
            )
            &&& forall|i: int|
                0 <= i < d.frames.len() ==> #[trigger] d.frames[i] == drawn(
                    d.tree,
                    d.frames[i].rect,
                    pointer,
                )
            &&& d.hovered == hovered_frame(rects_of(d.frames@), pointer)
            &&& d.info_bar == if options.show_info_bar {
                Some(bar_under(canvas, options.frame_height, d.tree.max_depth))
            } else {
                None
            }
            &&& match d.hovered {
                Some(i) => {
                    let node = d.frames[i as int].rect.node as int;
                    &&& i < d.frames.len()
                    &&& node < d.tree.tree.size()
                    &&& after.selected_chain_ids@ == if pointer.clicked {
                        d.tree.frames[node].chain_ids@
                    } else {
                        selected
                    }
                    &&& if options.show_info_bar {
                        after.info_bar matches Some(info) && info.node == node && info.label@
                            == d.tree.frames[node].label@ && info.value
                            == d.tree.frames[node].value && info.share == share_of_root(
                            d.tree.frames[node].value,
                            d.tree.frames[0].value,
                        )
                    } else {
                        after.info_bar == info_before
                    }
                },
                None => {
                    &&& after.selected_chain_ids@ == selected
                    &&& after.info_bar == info_before
                },
            }
        },
    }
}

/// A node's share of the root's weight.
pub fn share_in_root(value: u64, root_value: u64) -> (r: u64)
    ensures
        r == share_of_root(value, root_value),
        r <= 10_000,
{
    if root_value == 0 {
        0
    } else if value >= root_value {
        10_000
    } else {
        let half: u64 = root_value / 2;
        let ghost top: int = value * 10_000 + half;
        let ghost all: int = root_value as int;
        assert(0 <= top && top < all * 10_001) by (nonlinear_arith)
            requires
                0 <= value < root_value,
                0 <= half <= root_value,
                top == value * 10_000 + half,
                all == root_value,
        ;
        assert(0 <= top / all <= 10_000) by (nonlinear_arith)
            requires
                0 <= top,
                top < all * 10_001,
                0 < all,
        ;
        ((value as u128 * 10_000 + half as u128) / (root_value as u128)) as u64
    }
}

/// The place of the last rectangle that the point lies in.
pub fn find_hit(frames: &Vec<DrawnFrame>, x: i32, y: i32) -> (r: Option<usize>)
    ensures
        r == last_hit(rects_of(frames@), x, y),
        r matches Some(i) ==> i < frames.len() && frames[i as int].rect.contains(x, y),
{
    let ghost rects = rects_of(frames@);
    let mut i: usize = frames.len();
    assert(rects.take(i as int) =~= rects);
    while i > 0
        invariant
            i <= frames.len(),
            rects == rects_of(frames@),
            last_hit(rects, x, y) == last_hit(rects.take(i as int), x, y),
        decreases i,
    {
        assert(rects.take(i as int).last() == frames[i - 1].rect);
        if frames[i - 1].rect.contains(x, y) {
            return Some(i - 1);
        }
        assert(rects.take(i as int).drop_last() =~= rects.take(i - 1));
        i = i - 1;
    }
    None
}

impl Flamegraph {
    /// The selection is kept in rising order.
    pub open spec fn wf(&self) -> bool {
        increasing(self.selected_chain_ids@)
    }

    /// Whether chains are selected.
    pub open spec fn is_selected(&self) -> bool {
        self.selected_chain_ids@.len() > 0
    }

    /// A flame graph with nothing selected and nothing hovered yet.
    pub fn new(opts: Options) -> (flamegraph: Self)
        ensures
            flamegraph.wf(),
            flamegraph.options == opts,
            !flamegraph.is_selected(),
            flamegraph.info_bar is None,
    {
        Flamegraph { options: opts, selected_chain_ids: Vec::new(), info_bar: None }
    }

    /// Drops the selection. The lines of another metric number their chains
    /// anew, so a selection does not carry over.
    pub fn reset(&mut self)
        ensures
            final(self).wf(),
            !final(self).is_selected(),
            final(self).options == old(self).options,
            final(self).info_bar == old(self).info_bar,
    {
        self.selected_chain_ids = Vec::new();
    }

    /// The frames of `tree` for the selection, from the root down, in the
    /// colours they have under the pointer.
    pub fn draw(&self, tree: &FlameTree, canvas: &Canvas, pointer: &Pointer) -> (frames: Vec<
        DrawnFrame,
    >)
        requires
            self.wf(),
            tree.wf(),
            canvas.min_x <= canvas.max_x,
        ensures
            rects_of(frames@) == tree.layout_node(
                self.selected_chain_ids@,
                canvas.min_y as int,
                self.options.frame_height as int,
                0,
                0,
                canvas.min_x as int,
                canvas.max_x as int,
            ),
            forall|i: int|
                0 <= i < frames.len() ==> #[trigger] frames[i] == drawn(
                    *tree,
                    frames[i].rect,
                    *pointer,
                ),
            forall|i: int| 0 <= i < frames.len() ==> (#[trigger] frames[i]).rect.node < tree.tree.size(),
    {
        let mut rects: Vec<FrameRect> = Vec::new();
        tree.draw_one_frame(
            &self.selected_chain_ids,
            canvas.min_y,
            self.options.frame_height,
            0,
            0,
            canvas.min_x as i64,
            canvas.max_x as i64,
            &mut rects,
        );
        let ghost laid = tree.layout_node(
            self.selected_chain_ids@,
            canvas.min_y as int,
            self.options.frame_height as int,
            0,
            0,
            canvas.min_x as int,
            canvas.max_x as int,
        );
        assert(rects@ =~= laid);
        proof {
            tree.lemma_layout_nodes(
                self.selected_chain_ids@,
                canvas.min_y as int,
                self.options.frame_height as int,
                0,
                0,
                canvas.min_x as int,
                canvas.max_x as int,
            );
        }
        let mut frames: Vec<DrawnFrame> = Vec::new();
        let mut i: usize = 0;
        while i < rects.len()
            invariant
                i <= rects.len(),
                frames.len() == i,
                tree.wf(),
                forall|m: int| 0 <= m < rects.len() ==> (#[trigger] rects[m]).node < tree.tree.size(),
                forall|m: int| 0 <= m < i ==> (#[trigger] frames[m]).rect == rects[m],
                forall|m: int|
                    0 <= m < i ==> #[trigger] frames[m] == drawn(*tree, frames[m].rect, *pointer),
            decreases rects.len() - i,
        {
            let rect = rects[i];
            let over = match pointer.position {
                Some(at) => rect.contains(at.0, at.1),
                None => false,
            };
            let base = make_frame_color(tree.frames[rect.node].value, rect.depth, rect.min_x, rect.max_x);
            let color = if over {
                saturate(base, HOVER_FACTOR)
            } else {
                base
            };
            frames.push(DrawnFrame { rect, color, hovered: over });
            i = i + 1;
        }
        assert(rects_of(frames@) =~= rects@);
        frames
    }

    /// Where the strip is drawn under `tree`.
    pub fn draw_info_bar(&self, tree: &FlameTree, canvas: &Canvas) -> (bar: BarRect)
        ensures
            bar == bar_under(*canvas, self.options.frame_height, tree.max_depth),
    {
        let row: i64 = self.options.frame_height as i64 + FRAME_V_SPACING;
        assert((tree.max_depth + 1) * (self.options.frame_height as int + 4) <= 0x1_0000_0000
            * 0x1_0003) by (nonlinear_arith)
            requires
                0 <= tree.max_depth <= 0xffff_ffff,
                0 <= self.options.frame_height <= 0xffff,
        ;
        assert(0 <= (tree.max_depth + 1) * (self.options.frame_height as int + 4))
            by (nonlinear_arith)
            requires
                0 <= tree.max_depth,
                0 <= self.options.frame_height,
        ;
        let min_y: i64 = canvas.min_y as i64 + (tree.max_depth as i64 + 1) * row;
        BarRect {
            min_x: canvas.min_x as i64,
            max_x: canvas.max_x as i64,
            min_y,
            max_y: min_y + INFO_BAR_HEIGHT,
        }
    }

    /// Draws the graph of `frames` on `canvas` for the selection as it
    /// stands. Then a click on a frame selects the chains that pass through
    /// its node, for the drawings that follow; and where the strip is shown,
    /// it tells about the frame that the pointer is over from now on.
    pub fn show(&mut self, frames: &Vec<Vec<u8>>, canvas: &Canvas, pointer: &Pointer) -> (res: Result<
        Drawing,
        FlameError,
    >)
        requires
            old(self).wf(),
            canvas.min_x <= canvas.max_x,
        ensures
            final(self).wf(),
            final(self).options == old(self).options,
            shown(
                old(self).selected_chain_ids@,
                old(self).options,
                old(self).info_bar,
                *final(self),
                labels_view(frames@),
                *canvas,
                *pointer,
                res,
            ),
    {
        let tree = match build_stackframes(frames) {
            Ok(tree) => tree,
            Err(e) => {
                return Err(e);
            },
        };
        let drawn_frames = self.draw(&tree, canvas, pointer);
        let hovered = match pointer.position {
            Some(at) => find_hit(&drawn_frames, at.0, at.1),
            None => None,
        };
        let info_bar = if self.options.show_info_bar {
            Some(self.draw_info_bar(&tree, canvas))
        } else {
            None
        };
        match hovered {
            Some(i) => {
                let node = drawn_frames[i].rect.node;
                let frame = &tree.frames[node];
                if self.options.show_info_bar {
                    self.info_bar = Some(
                        HoverInfo {
                            node,
                            label: frame.label.clone(),
                            value: frame.value,
                            share: share_in_root(frame.value, tree.frames[0].value),
                        },
                    );
                }
                if pointer.clicked {
                    self.selected_chain_ids = frame.chain_ids.clone();
                    assert(self.selected_chain_ids@ =~= frame.chain_ids@);
                }
            },
            None => {},
        }
        Ok(Drawing { tree, frames: drawn_frames, hovered, info_bar })
    }
}

} // verus!
