//! The layout of a flame graph: one rectangle for each node that is drawn,
//! children side by side under their parent, each as wide as its share of
//! the parent's weight.

use vstd::prelude::*;
use crate::flame::{increasing, FlameTree};

verus! {

/// The gap between two rows.
pub const FRAME_V_SPACING: i64 = 4;

/// The height of the strip under the rows that tells about the hovered node.
pub const INFO_BAR_HEIGHT: i64 = 35;

/// Where the graph is drawn: from `min_x` to `max_x`, the root's row
/// beginning at `min_y`.
#[derive(Clone, Copy, Debug, PartialEq, Eq, Structural)]
pub struct Canvas {
    pub min_x: i32,
    pub max_x: i32,
    pub min_y: i32,
}

/// The rectangle of one node.
#[derive(Clone, Copy, Debug, PartialEq, Eq, Structural)]
pub struct FrameRect {
    /// The number of the node in the graph.
    pub node: usize,
    /// How far the node is from the root.
    pub depth: u32,
    pub min_x: i64,
    pub max_x: i64,
    pub min_y: i64,
    pub max_y: i64,
}

impl FrameRect {
    /// Whether the point lies in the rectangle, its border included.
    pub open spec fn spec_contains(&self, x: i32, y: i32) -> bool {
        self.min_x <= x <= self.max_x && self.min_y <= y <= self.max_y
    }

    #[verifier::when_used_as_spec(spec_contains)]
    pub fn contains(&self, x: i32, y: i32) -> (r: bool)
        ensures
            r == self.spec_contains(x, y),
    {
        self.min_x <= x as i64 && x as i64 <= self.max_x && self.min_y <= y as i64 && y as i64
            <= self.max_y
    }
}

/// Where the row at `depth` begins, under a root whose row begins at `root_top`.
pub open spec fn row_top(root_top: int, depth: int, row_height: int) -> int {
    root_top + depth * (row_height + FRAME_V_SPACING)
}

/// Whether the two lists have a number in common.
pub open spec fn intersects(a: Seq<usize>, b: Seq<usize>) -> bool {
    exists|i: int, j: int| 0 <= i < a.len() && 0 <= j < b.len() && a[i] == b[j]
}

/// The smaller of two weights.
pub open spec fn min_weight(a: u64, b: u64) -> u64 {
    if a < b {
        a
    } else {
        b
    }
}

/// With what weight a child is drawn under a parent of weight `node_value`,
/// if it is drawn. Without a selection every child is drawn with its own
/// weight, but no more than the parent's. With one, a child through which
/// exactly the selected chains pass takes the whole width of the parent, a
/// child that shares a chain with the selection is drawn with its own weight,
/// and any other child is left out. A weightless parent has no child drawn.
pub open spec fn shown_value(
    node_value: u64,
    child_value: u64,
    child_ids: Seq<usize>,
    selected: Seq<usize>,
) -> Option<u64> {
    if node_value == 0 {
        None
    } else if selected.len() == 0 {
        Some(min_weight(child_value, node_value))
    } else if child_ids == selected {
        Some(node_value)
    } else if intersects(child_ids, selected) {
        Some(min_weight(child_value, node_value))
    } else {
        None
    }
}

/// How wide a child of weight `value` is under a parent of weight `total`
/// that is `length` wide.
pub open spec fn share(value: int, total: int, length: int) -> int {
    (value * length) / total
}

/// A share is no wider than the whole.
pub proof fn lemma_share_bounds(value: int, total: int, length: int)
    requires
        0 <= value <= total,
        0 < total,
        0 <= length,
    ensures
        0 <= share(value, total, length) <= length,
{
    assert(0 <= value * length <= total * length) by (nonlinear_arith)
        requires
            0 <= value <= total,
            0 <= length,
    ;
    assert((value * length) / total <= length) by (nonlinear_arith)
        requires
            0 <= value * length <= total * length,
            0 < total,
    ;
    assert(0 <= (value * length) / total) by (nonlinear_arith)
        requires
            0 <= value * length,
            0 < total,
    ;
}

/// Whether two lists of chain numbers are the same.
pub fn same_ids(a: &Vec<usize>, b: &Vec<usize>) -> (r: bool)
    ensures
        r == (a@ == b@),
{
    if a.len() != b.len() {
        return false;
    }
    let mut i: usize = 0;
    while i < a.len()
        invariant
            i <= a.len(),
            a.len() == b.len(),
            forall|j: int| 0 <= j < i ==> a[j] == b[j],
        decreases a.len() - i,
    {
        if a[i] != b[i] {
            return false;
        }
        i = i + 1;
    }
    assert(a@ =~= b@);
    true
}

/// Whether two rising lists of chain numbers have a number in common.
pub fn shares_id(a: &Vec<usize>, b: &Vec<usize>) -> (r: bool)
    requires
        increasing(a@),
        increasing(b@),
    ensures
        r == intersects(a@, b@),
{
    let mut i: usize = 0;
    let mut j: usize = 0;
    while i < a.len() && j < b.len()
        invariant
            i <= a.len(),
            j <= b.len(),
            increasing(a@),
            increasing(b@),
            forall|x: int, y: int|
                0 <= x < a.len() && 0 <= y < b.len() && (x < i || y < j) ==> a[x] != b[y],
        decreases a.len() - i + b.len() - j,
    {
        if a[i] == b[j] {
            return true;
        } else if a[i] < b[j] {
            assert forall|x: int, y: int|
                0 <= x < a.len() && 0 <= y < b.len() && (x < i + 1 || y < j) implies a[x]
                != b[y] by {
                if x == i && y >= j {
                    if y > j {
                        assert(b[j as int] < b[y]);
                    }
                }
            }
            i = i + 1;
        } else {
            assert forall|x: int, y: int|
                0 <= x < a.len() && 0 <= y < b.len() && (x < i || y < j + 1) implies a[x]
                != b[y] by {
                if y == j && x >= i {
                    if x > i {
                        assert(a[i as int] < a[x]);
                    }
                }
            }
            j = j + 1;
        }
    }
    false
}

impl FlameTree {
    /// With what weight the `k`-th child of node `j` is drawn, if it is.
    pub open spec fn kid_value(&self, selected: Seq<usize>, j: int, k: int) -> Option<u64> {
        let c = self.tree.kids(j)[k] as int;
        shown_value(self.frames[j].value, self.frames[c].value, self.frames[c].chain_ids@, selected)
    }

    /// Where the `k`-th child of node `j` begins when the node reaches from
    /// `min_x` to `max_x`: where the child before it ends. A child ends its
    /// share further on, but not behind `max_x`.
    pub open spec fn cursor(&self, selected: Seq<usize>, j: int, min_x: int, max_x: int, k: nat) -> int
        decreases k,
    {
        if k == 0 {
            min_x
        } else {
            let before = self.cursor(selected, j, min_x, max_x, (k - 1) as nat);
            match self.kid_value(selected, j, k - 1) {
                None => before,
                Some(v) => {
                    let end = before + share(v as int, self.frames[j].value as int, max_x - min_x);
                    if end < max_x {
                        end
                    } else {
                        max_x
                    }
                },
            }
        }
    }

    /// The rectangle of node `j` at `depth`, reaching from `min_x` to `max_x`.
    pub open spec fn rect_of(
        &self,
        top: int,
        row_height: int,
        j: int,
        depth: int,
        min_x: int,
        max_x: int,
    ) -> FrameRect {
        FrameRect {
            node: j as usize,
            depth: depth as u32,
            min_x: min_x as i64,
            max_x: max_x as i64,
            min_y: row_top(top, depth, row_height) as i64,
            max_y: (row_top(top, depth, row_height) + row_height) as i64,
        }
    }

    /// The rectangles of node `j` and of what is drawn below it, the node
    /// first, then its children from left to right, each with what is below it.
    pub open spec fn layout_node(
        &self,
        selected: Seq<usize>,
        top: int,
        row_height: int,
        j: int,
        depth: int,
        min_x: int,
        max_x: int,
    ) -> Seq<FrameRect>
        decreases self.tree.size() - j, self.tree.kids(j).len() + 1,
    {
        seq![self.rect_of(top, row_height, j, depth, min_x, max_x)] + self.layout_kids(
            selected,
            top,
            row_height,
            j,
            depth,
            min_x,
            max_x,
            0,
        )
    }

    /// The rectangles of the children of node `j` from the `k`-th on.
    pub open spec fn layout_kids(
        &self,
        selected: Seq<usize>,
        top: int,
        row_height: int,
        j: int,
        depth: int,
        min_x: int,
        max_x: int,
        k: nat,
    ) -> Seq<FrameRect>
        decreases self.tree.size() - j, self.tree.kids(j).len() - k,
    {
        if k >= self.tree.kids(j).len() {
            Seq::empty()
        } else {
            let c = self.tree.kids(j)[k as int] as int;
            let here = if self.kid_value(selected, j, k as int) is Some && j < c
                < self.tree.size() {
                self.layout_node(
                    selected,
                    top,
                    row_height,
                    c,
                    depth + 1,
                    self.cursor(selected, j, min_x, max_x, k),
                    self.cursor(selected, j, min_x, max_x, k + 1),
                )
            } else {
                Seq::empty()
            };
            here + self.layout_kids(selected, top, row_height, j, depth, min_x, max_x, k + 1)
        }
    }

    /// The children of a node lie side by side within the node: none begins
    /// before the node or before an earlier child ends, and none ends behind
    /// the node, whatever the weights are.
    pub proof fn lemma_children_side_by_side(
        &self,
        selected: Seq<usize>,
        j: int,
        min_x: int,
        max_x: int,
        k1: nat,
        k2: nat,
    )
        requires
            min_x <= max_x,
            k1 <= k2,
        ensures
            min_x <= self.cursor(selected, j, min_x, max_x, k1) <= self.cursor(
                selected,
                j,
                min_x,
                max_x,
                k2,
            ) <= max_x,
        decreases k2,
    {
        if k2 > 0 {
            self.lemma_children_side_by_side(selected, j, min_x, max_x, 0, (k2 - 1) as nat);
            if k1 < k2 {
                self.lemma_children_side_by_side(selected, j, min_x, max_x, k1, (k2 - 1) as nat);
            }
            if let Some(v) = self.kid_value(selected, j, k2 - 1) {
                lemma_share_bounds(v as int, self.frames[j].value as int, max_x - min_x);
            }
        }
    }

    /// Every rectangle of a node and of what is drawn below it lies within
    /// the node's own reach.
    pub proof fn lemma_layout_node_within(
        &self,
        selected: Seq<usize>,
        top: int,
        row_height: int,
        j: int,
        depth: int,
        min_x: int,
        max_x: int,
    )
        requires
            i64::MIN <= min_x <= max_x <= i64::MAX,
        ensures
            forall|i: int|
                0 <= i < self.layout_node(selected, top, row_height, j, depth, min_x, max_x).len()
                    ==> min_x <= (#[trigger] self.layout_node(
                    selected,
                    top,
                    row_height,
                    j,
                    depth,
                    min_x,
                    max_x,
                )[i]).min_x <= self.layout_node(
                    selected,
                    top,
                    row_height,
                    j,
                    depth,
                    min_x,
                    max_x,
                )[i].max_x <= max_x,
        decreases self.tree.size() - j, self.tree.kids(j).len() + 1,
    {
        self.lemma_layout_kids_within(selected, top, row_height, j, depth, min_x, max_x, 0);
        let all = self.layout_node(selected, top, row_height, j, depth, min_x, max_x);
        let own = self.rect_of(top, row_height, j, depth, min_x, max_x);
        let below = self.layout_kids(selected, top, row_height, j, depth, min_x, max_x, 0);
        assert forall|i: int| 0 <= i < all.len() implies min_x <= (#[trigger] all[i]).min_x
            <= all[i].max_x <= max_x by {
            if i == 0 {
                assert(all[0] == own);
            } else {
                assert(all[i] == below[i - 1]);
            }
        }
    }

    /// Every rectangle below a node lies within the node's reach.
    pub proof fn lemma_layout_kids_within(
        &self,
        selected: Seq<usize>,
        top: int,
        row_height: int,
        j: int,
        depth: int,
        min_x: int,
        max_x: int,
        k: nat,
    )
        requires
            i64::MIN <= min_x <= max_x <= i64::MAX,
        ensures
            forall|i: int|
                0 <= i < self.layout_kids(selected, top, row_height, j, depth, min_x, max_x, k).len()
                    ==> min_x <= (#[trigger] self.layout_kids(
                    selected,
                    top,
                    row_height,
                    j,
                    depth,
                    min_x,
                    max_x,
                    k,
                )[i]).min_x <= self.layout_kids(
                    selected,
                    top,
                    row_height,
                    j,
                    depth,
                    min_x,
                    max_x,
                    k,
                )[i].max_x <= max_x,
        decreases self.tree.size() - j, self.tree.kids(j).len() - k,
    {
        if k < self.tree.kids(j).len() {
            let c = self.tree.kids(j)[k as int] as int;
            let from = self.cursor(selected, j, min_x, max_x, k);
            let to = self.cursor(selected, j, min_x, max_x, k + 1);
            self.lemma_children_side_by_side(selected, j, min_x, max_x, k, k + 1);
            let here = if self.kid_value(selected, j, k as int) is Some && j < c
                < self.tree.size() {
                self.lemma_layout_node_within(selected, top, row_height, c, depth + 1, from, to);
                self.layout_node(selected, top, row_height, c, depth + 1, from, to)
            } else {
                Seq::empty()
            };
            self.lemma_layout_kids_within(selected, top, row_height, j, depth, min_x, max_x, k + 1);
            let rest = self.layout_kids(selected, top, row_height, j, depth, min_x, max_x, k + 1);
            let all = self.layout_kids(selected, top, row_height, j, depth, min_x, max_x, k);
            assert(all == here + rest);
            assert forall|i: int| 0 <= i < all.len() implies min_x <= (#[trigger] all[i]).min_x
                <= all[i].max_x <= max_x by {
                if i < here.len() {
                    assert(all[i] == here[i]);
                } else {
                    assert(all[i] == rest[i - here.len()]);
                }
            }
        }
    }

    /// Every rectangle of a layout is the rectangle of a node of the graph.
    pub proof fn lemma_layout_nodes(
        &self,
        selected: Seq<usize>,
        top: int,
        row_height: int,
        j: int,
        depth: int,
        min_x: int,
        max_x: int,
    )
        requires
            0 <= j < self.tree.size(),
            self.tree.size() <= usize::MAX,
        ensures
            forall|i: int|
                0 <= i < self.layout_node(selected, top, row_height, j, depth, min_x, max_x).len()
                    ==> (#[trigger] self.layout_node(
                    selected,
                    top,
                    row_height,
                    j,
                    depth,
                    min_x,
                    max_x,
                )[i]).node < self.tree.size(),
        decreases self.tree.size() - j, self.tree.kids(j).len() + 1,
    {
        self.lemma_layout_kids_nodes(selected, top, row_height, j, depth, min_x, max_x, 0);
        let all = self.layout_node(selected, top, row_height, j, depth, min_x, max_x);
        let own = self.rect_of(top, row_height, j, depth, min_x, max_x);
        let below = self.layout_kids(selected, top, row_height, j, depth, min_x, max_x, 0);
        assert forall|i: int| 0 <= i < all.len() implies (#[trigger] all[i]).node
            < self.tree.size() by {
            if i == 0 {
                assert(all[0] == own);
            } else {
                assert(all[i] == below[i - 1]);
            }
        }
    }

    /// Every rectangle below a node is the rectangle of a node of the graph.
    pub proof fn lemma_layout_kids_nodes(
        &self,
        selected: Seq<usize>,
        top: int,
        row_height: int,
        j: int,
        depth: int,
        min_x: int,
        max_x: int,
        k: nat,
    )
        requires
            0 <= j < self.tree.size(),
            self.tree.size() <= usize::MAX,
        ensures
            forall|i: int|
                0 <= i < self.layout_kids(selected, top, row_height, j, depth, min_x, max_x, k).len()
                    ==> (#[trigger] self.layout_kids(
                    selected,
                    top,
                    row_height,
                    j,
                    depth,
                    min_x,
                    max_x,
                    k,
                )[i]).node < self.tree.size(),
        decreases self.tree.size() - j, self.tree.kids(j).len() - k,
    {
        if k < self.tree.kids(j).len() {
            let c = self.tree.kids(j)[k as int] as int;
            let from = self.cursor(selected, j, min_x, max_x, k);
            let to = self.cursor(selected, j, min_x, max_x, k + 1);
            let here = if self.kid_value(selected, j, k as int) is Some && j < c
                < self.tree.size() {
                self.lemma_layout_nodes(selected, top, row_height, c, depth + 1, from, to);
                self.layout_node(selected, top, row_height, c, depth + 1, from, to)
            } else {
                Seq::empty()
            };
            self.lemma_layout_kids_nodes(selected, top, row_height, j, depth, min_x, max_x, k + 1);
            let rest = self.layout_kids(selected, top, row_height, j, depth, min_x, max_x, k + 1);
            let all = self.layout_kids(selected, top, row_height, j, depth, min_x, max_x, k);
            assert(all == here + rest);
            assert forall|i: int| 0 <= i < all.len() implies (#[trigger] all[i]).node
                < self.tree.size() by {
                if i < here.len() {
                    assert(all[i] == here[i]);
                } else {
                    assert(all[i] == rest[i - here.len()]);
                }
            }
        }
    }

    /// With what weight the `k`-th child of node `j` is drawn.
    fn kid_value_of(&self, selected: &Vec<usize>, j: usize, k: usize) -> (r: Option<u64>)
        requires
            self.wf(),
            increasing(selected@),
            j < self.tree.size(),
            k < self.tree.kids(j as int).len(),
        ensures
            r == self.kid_value(selected@, j as int, k as int),
            r matches Some(v) ==> v <= self.frames[j as int].value && 0 < self.frames[j as int].value,
    {
        assert(self.tree.child_ok(j as int, k as int));
        let c = self.tree.children[j][k];
        let node_value = self.frames[j].value;
        let child = &self.frames[c];
        let own = if child.value < node_value {
            child.value
        } else {
            node_value
        };
        if node_value == 0 {
            None
        } else if selected.len() == 0 {
            Some(own)
        } else if same_ids(&child.chain_ids, selected) {
            Some(node_value)
        } else if shares_id(&child.chain_ids, selected) {
            Some(own)
        } else {
            None
        }
    }

    /// Lays out node `j` and what is drawn below it, and puts the rectangles
    /// behind `out`.
    pub fn draw_one_frame(
        &self,
        selected: &Vec<usize>,
        top: i32,
        frame_height: u16,
        j: usize,
        depth: u32,
        min_x: i64,
        max_x: i64,
        out: &mut Vec<FrameRect>,
    )
        requires
            self.wf(),
            increasing(selected@),
            j < self.tree.size(),
            depth == self.tree.path(j as int).len(),
            min_x <= max_x,
        ensures
            final(out)@ == old(out)@ + self.layout_node(
                selected@,
                top as int,
                frame_height as int,
                j as int,
                depth as int,
                min_x as int,
                max_x as int,
            ),
        decreases self.tree.size() - j,
    {
        let row: i64 = frame_height as i64 + FRAME_V_SPACING;
        assert(depth as int * (frame_height as int + 4) <= 0xffff_ffff * 0x1_0003) by (nonlinear_arith)
            requires
                0 <= depth <= 0xffff_ffff,
                0 <= frame_height <= 0xffff,
        ;
        assert(0 <= depth as int * (frame_height as int + 4)) by (nonlinear_arith)
            requires
                0 <= depth,
                0 <= frame_height,
        ;
        let min_y: i64 = top as i64 + depth as i64 * row;
        let rect = FrameRect {
            node: j,
            depth,
            min_x,
            max_x,
            min_y,
            max_y: min_y + frame_height as i64,
        };
        assert(rect == self.rect_of(
            top as int,
            frame_height as int,
            j as int,
            depth as int,
            min_x as int,
            max_x as int,
        ));
        out.push(rect);
        let kids = &self.tree.children[j];
        let node_value = self.frames[j].value;
        let mut cursor: i64 = min_x;
        let mut k: usize = 0;
        let ghost whole = old(out)@ + self.layout_node(
            selected@,
            top as int,
            frame_height as int,
            j as int,
            depth as int,
            min_x as int,
            max_x as int,
        );
        assert(whole =~= out@ + self.layout_kids(
            selected@,
            top as int,
            frame_height as int,
            j as int,
            depth as int,
            min_x as int,
            max_x as int,
            0,
        ));
        while k < kids.len()
            invariant
                self.wf(),
                increasing(selected@),
                j < self.tree.size(),
                depth == self.tree.path(j as int).len(),
                kids@ == self.tree.kids(j as int),
                node_value == self.frames[j as int].value,
                k <= kids.len(),
                min_x <= cursor <= max_x,
                cursor == self.cursor(selected@, j as int, min_x as int, max_x as int, k as nat),
                whole == out@ + self.layout_kids(
                    selected@,
                    top as int,
                    frame_height as int,
                    j as int,
                    depth as int,
                    min_x as int,
                    max_x as int,
                    k as nat,
                ),
            decreases kids.len() - k,
        {
            let c = kids[k];
            proof {
                assert(self.tree.child_ok(j as int, k as int));
                self.tree.lemma_child_path(j as int, k as int);
                assert(self.tree.path(c as int).len() <= self.max_depth);
            }
            let ghost rest = self.layout_kids(
                selected@,
                top as int,
                frame_height as int,
                j as int,
                depth as int,
                min_x as int,
                max_x as int,
                (k + 1) as nat,
            );
            match self.kid_value_of(selected, j, k) {
                None => {
                    assert(whole =~= out@ + rest);
                },
                Some(v) => {
                    let length: u128 = (max_x as i128 - min_x as i128) as u128;
                    proof {
                        lemma_share_bounds(v as int, node_value as int, length as int);
                        assert(v as int * length as int <= 0xffff_ffff_ffff_ffff
                            * 0xffff_ffff_ffff_ffff) by (nonlinear_arith)
                            requires
                                0 <= v <= 0xffff_ffff_ffff_ffff,
                                0 <= length <= 0xffff_ffff_ffff_ffff,
                        ;
                    }
                    let wide: u128 = (v as u128 * length) / (node_value as u128);
                    let end: i128 = cursor as i128 + wide as i128;
                    let child_max_x: i64 = if end < max_x as i128 {
                        end as i64
                    } else {
                        max_x
                    };
                    assert(child_max_x == self.cursor(
                        selected@,
                        j as int,
                        min_x as int,
                        max_x as int,
                        (k + 1) as nat,
                    ));
                    self.draw_one_frame(
                        selected,
                        top,
                        frame_height,
                        c,
                        depth + 1,
                        cursor,
                        child_max_x,
                        out,
                    );
                    assert(whole =~= out@ + rest);
                    cursor = child_max_x;
                },
            }
            k = k + 1;
        }
        assert(whole =~= out@);
    }
}

} // verus!
