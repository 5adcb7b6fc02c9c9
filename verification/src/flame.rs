//! The flame graph: weighted chains of labels merged into a tree by their
//! common beginnings. Each node knows its weight and which chains pass
//! through it.

use vstd::prelude::*;
use crate::arena::Tree;
use crate::collapsed::{labels_view, parse_line, read_line, LineError};
use crate::trie::{
    add_prefixes, is_prefix, lemma_add_prefixes_contains, lemma_sum_by_add, lemma_sum_by_le,
    lemma_sum_by_nonnegative, lemma_sum_by_push, lemma_sum_by_zero, lemma_trie_paths_contains,
    sum_by, trie_paths,
};

verus! {

/// Why a list of lines gives no flame graph. Each variant carries the number
/// of the line, counted from 0, at which the work stopped.
#[derive(Clone, Copy, Debug, PartialEq, Eq, Structural)]
pub enum FlameError {
    /// The line has no space, so no weight behind one.
    MissingWeight(usize),
    /// What stands behind the last space is not a decimal number of 64 bits.
    InvalidWeight(usize),
    /// The chain has more labels than a depth of 32 bits can count.
    TooDeep(usize),
    /// With this line the sum of the weights leaves 64 bits.
    WeightOverflow(usize),
}

/// One chain as the graph sees it: its labels, outermost first, and its weight.
pub struct WeightedChain {
    pub labels: Seq<Seq<u8>>,
    pub weight: u64,
}

/// The order of labels: byte by byte, a label before those it begins.
pub open spec fn bytes_lt(a: Seq<u8>, b: Seq<u8>) -> bool
    decreases a.len(),
{
    if b.len() == 0 {
        false
    } else if a.len() == 0 {
        true
    } else if a[0] != b[0] {
        a[0] < b[0]
    } else {
        bytes_lt(a.drop_first(), b.drop_first())
    }
}

/// No label stands before itself.
pub proof fn lemma_bytes_lt_irreflexive(a: Seq<u8>)
    ensures
        !bytes_lt(a, a),
    decreases a.len(),
{
    if a.len() > 0 {
        lemma_bytes_lt_irreflexive(a.drop_first());
    }
}

/// Of two different labels one stands before the other.
pub proof fn lemma_bytes_lt_total(a: Seq<u8>, b: Seq<u8>)
    ensures
        bytes_lt(a, b) || bytes_lt(b, a) || a == b,
    decreases a.len(),
{
    if a.len() > 0 && b.len() > 0 && a[0] == b[0] {
        lemma_bytes_lt_total(a.drop_first(), b.drop_first());
        if a.drop_first() == b.drop_first() {
            assert(a =~= seq![a[0]] + a.drop_first());
            assert(b =~= seq![b[0]] + b.drop_first());
        }
    } else if a.len() == 0 && b.len() == 0 {
        assert(a =~= b);
    }
}

/// The order of labels is transitive.
pub proof fn lemma_bytes_lt_transitive(a: Seq<u8>, b: Seq<u8>, c: Seq<u8>)
    requires
        bytes_lt(a, b),
        bytes_lt(b, c),
    ensures
        bytes_lt(a, c),
    decreases a.len(),
{
    if a.len() > 0 && b.len() > 0 && c.len() > 0 && a[0] == b[0] && b[0] == c[0] {
        lemma_bytes_lt_transitive(a.drop_first(), b.drop_first(), c.drop_first());
    }
}

/// What a chain adds to the node at path `p`: its weight if it passes
/// through the node, else nothing.
pub open spec fn through(p: Seq<Seq<u8>>) -> spec_fn(WeightedChain) -> int {
    |c: WeightedChain|
        if is_prefix(p, c.labels) {
            c.weight as int
        } else {
            0
        }
}

/// What a chain adds to the node at path `p` as the node at which it ends.
pub open spec fn ending(p: Seq<Seq<u8>>) -> spec_fn(WeightedChain) -> int {
    |c: WeightedChain|
        if c.labels == p {
            c.weight as int
        } else {
            0
        }
}

/// The weight of the node at path `p`: the sum over the chains that pass
/// through it.
pub open spec fn weight_at(chains: Seq<WeightedChain>, p: Seq<Seq<u8>>) -> int {
    sum_by(chains, through(p))
}

/// The weight of the chains that end at the node at path `p`.
pub open spec fn weight_ending_at(chains: Seq<WeightedChain>, p: Seq<Seq<u8>>) -> int {
    sum_by(chains, ending(p))
}

/// The sum of all weights.
pub open spec fn total_weight(chains: Seq<WeightedChain>) -> int {
    weight_at(chains, Seq::empty())
}

/// The numbers of the chains that pass through the node at path `p`, in
/// rising order; chains are numbered from 0 in the order of their lines.
pub open spec fn passing(chains: Seq<WeightedChain>, p: Seq<Seq<u8>>) -> Seq<usize>
    decreases chains.len(),
{
    if chains.len() == 0 {
        Seq::empty()
    } else {
        let before = passing(chains.drop_last(), p);
        if is_prefix(p, chains.last().labels) {
            before.push((chains.len() - 1) as usize)
        } else {
            before
        }
    }
}

/// The length of the longest chain.
pub open spec fn deepest(chains: Seq<WeightedChain>) -> nat
    decreases chains.len(),
{
    if chains.len() == 0 {
        0
    } else {
        let before = deepest(chains.drop_last());
        if chains.last().labels.len() > before {
            chains.last().labels.len()
        } else {
            before
        }
    }
}

/// The label lists of the chains.
pub open spec fn labels_of(chains: Seq<WeightedChain>) -> Seq<Seq<Seq<u8>>> {
    Seq::new(chains.len(), |i: int| chains[i].labels)
}

/// The chain that line number `i` writes.
pub open spec fn chain_of_line(line: Seq<u8>, i: usize) -> Result<WeightedChain, FlameError> {
    match parse_line(line) {
        Err(LineError::MissingWeight) => Err(FlameError::MissingWeight(i)),
        Err(LineError::InvalidWeight) => Err(FlameError::InvalidWeight(i)),
        Ok(read) => if read.0.len() > u32::MAX {
            Err(FlameError::TooDeep(i))
        } else {
            Ok(WeightedChain { labels: read.0, weight: read.1 })
        },
    }
}

/// The chains of the first `n` lines, or what stops the work: the first line
/// that is no collapsed stack or is too deep, or the first with which the sum
/// of the weights leaves 64 bits.
pub open spec fn chains_read(lines: Seq<Seq<u8>>, n: nat) -> Result<Seq<WeightedChain>, FlameError>
    decreases n,
{
    if n == 0 {
        Ok(Seq::empty())
    } else {
        match chains_read(lines, (n - 1) as nat) {
            Err(e) => Err(e),
            Ok(done) => match chain_of_line(lines[n - 1], (n - 1) as usize) {
                Err(e) => Err(e),
                Ok(c) => if total_weight(done.push(c)) <= u64::MAX {
                    Ok(done.push(c))
                } else {
                    Err(FlameError::WeightOverflow((n - 1) as usize))
                },
            },
        }
    }
}

/// What stops the work at the first `n` lines stops it at any more.
pub proof fn lemma_chains_read_error(lines: Seq<Seq<u8>>, n: nat, m: nat)
    requires
        n <= m,
        chains_read(lines, n) is Err,
    ensures
        chains_read(lines, m) == chains_read(lines, n),
    decreases m - n,
{
    if n < m {
        lemma_chains_read_error(lines, n, (m - 1) as nat);
    }
}

/// The weight at a path with one more chain.
pub proof fn lemma_weight_push(done: Seq<WeightedChain>, c: WeightedChain, p: Seq<Seq<u8>>)
    ensures
        weight_at(done.push(c), p) == weight_at(done, p) + if is_prefix(p, c.labels) {
            c.weight as int
        } else {
            0
        },
        passing(done.push(c), p) == if is_prefix(p, c.labels) {
            passing(done, p).push(done.len() as usize)
        } else {
            passing(done, p)
        },
{
    lemma_sum_by_push(done, c, through(p));
    assert(done.push(c).drop_last() =~= done);
}

/// No node weighs more than the root.
pub proof fn lemma_weight_le_total(chains: Seq<WeightedChain>, p: Seq<Seq<u8>>)
    ensures
        0 <= weight_at(chains, p) <= total_weight(chains),
{
    let root = Seq::<Seq<u8>>::empty();
    assert forall|i: int| 0 <= i < chains.len() implies through(p)(#[trigger] chains[i])
        <= through(root)(chains[i]) by {
        assert(chains[i].labels.take(0) =~= root);
    }
    lemma_sum_by_le(chains, through(p), through(root));
    lemma_sum_by_nonnegative(chains, through(p));
}

/// No chain passes through a path that the tree of the chains lacks.
pub proof fn lemma_unreached(chains: Seq<WeightedChain>, p: Seq<Seq<u8>>)
    requires
        !trie_paths(labels_of(chains)).contains(p),
    ensures
        weight_at(chains, p) == 0,
        passing(chains, p) == Seq::<usize>::empty(),
    decreases chains.len(),
{
    lemma_trie_paths_contains(labels_of(chains), p);
    assert forall|i: int| 0 <= i < chains.len() implies through(p)(#[trigger] chains[i]) == 0 by {
        assert(labels_of(chains)[i] == chains[i].labels);
    }
    lemma_sum_by_zero(chains, through(p));
    if chains.len() > 0 {
        let rest = chains.drop_last();
        assert(labels_of(chains)[chains.len() - 1] == chains.last().labels);
        lemma_trie_paths_contains(labels_of(rest), p);
        if trie_paths(labels_of(rest)).contains(p) {
            let i = choose|i: int|
                0 <= i < labels_of(rest).len() && is_prefix(p, #[trigger] labels_of(rest)[i]);
            assert(labels_of(chains)[i] == labels_of(rest)[i]);
        }
        lemma_unreached(rest, p);
    }
}

/// The tree with one more chain.
pub proof fn lemma_labels_push(done: Seq<WeightedChain>, c: WeightedChain)
    ensures
        trie_paths(labels_of(done.push(c))) == add_prefixes(
            trie_paths(labels_of(done)),
            c.labels,
            c.labels.len(),
        ),
        deepest(done.push(c)) == if c.labels.len() > deepest(done) {
            c.labels.len()
        } else {
            deepest(done)
        },
{
    let all = labels_of(done.push(c));
    assert(all.drop_last() =~= labels_of(done));
    assert(all.last() == c.labels);
    assert(done.push(c).drop_last() =~= done);
}

/// The chains that pass through a node are numbered in rising order, each
/// number below the number of chains; a chain is among them exactly if the
/// node's path begins it.
pub proof fn lemma_passing(chains: Seq<WeightedChain>, p: Seq<Seq<u8>>)
    requires
        chains.len() <= usize::MAX,
    ensures
        forall|a: int, b: int|
            0 <= a < b < passing(chains, p).len() ==> passing(chains, p)[a] < passing(chains, p)[b],
        forall|a: int|
            0 <= a < passing(chains, p).len() ==> (#[trigger] passing(chains, p)[a])
                < chains.len() && is_prefix(p, chains[passing(chains, p)[a] as int].labels),
        forall|i: int|
            0 <= i < chains.len() && is_prefix(p, (#[trigger] chains[i]).labels) ==> passing(
                chains,
                p,
            ).contains(i as usize),
        passing(chains, p).len() <= chains.len(),
    decreases chains.len(),
{
    if chains.len() > 0 {
        let rest = chains.drop_last();
        lemma_passing(rest, p);
        let before = passing(rest, p);
        let now = passing(chains, p);
        assert forall|i: int|
            0 <= i < chains.len() && is_prefix(p, (#[trigger] chains[i]).labels) implies now.contains(
            i as usize,
        ) by {
            if i < chains.len() - 1 {
                assert(rest[i] == chains[i]);
                assert(before.contains(i as usize));
                let a = choose|a: int| 0 <= a < before.len() && before[a] == i as usize;
                assert(now[a] == i as usize);
            } else {
                assert(now[now.len() - 1] == i as usize);
            }
        }
        assert forall|a: int| 0 <= a < now.len() implies (#[trigger] now[a]) < chains.len()
            && is_prefix(p, chains[now[a] as int].labels) by {
            if a < before.len() {
                assert(now[a] == before[a]);
                assert(rest[before[a] as int] == chains[before[a] as int]);
            }
        }
    }
}

/// Whether the numbers in `ids` rise from each to the next.
pub open spec fn increasing(ids: Seq<usize>) -> bool {
    forall|a: int, b: int| 0 <= a < b < ids.len() ==> ids[a] < ids[b]
}

/// The label of the root.
pub open spec fn root_label() -> Seq<u8> {
    seq![97u8, 108u8, 108u8]
}

/// What is kept for one node of the flame graph.
#[derive(Debug)]
pub struct StackFrame {
    /// The label, `all` at the root.
    pub label: Vec<u8>,
    /// The sum of the weights of the chains that pass through the node.
    pub value: u64,
    /// The numbers of those chains, in rising order.
    pub chain_ids: Vec<usize>,
}

/// A flame graph.
pub struct FlameTree {
    /// The shape of the tree; a node's path is the labels from the root to it.
    pub tree: Tree<Seq<u8>>,
    /// The node table, by node number; the root is node 0.
    pub frames: Vec<StackFrame>,
    /// The length of the longest chain.
    pub max_depth: u32,
}

/// Whether label `a` stands before label `b`.
pub fn label_before(a: &[u8], b: &[u8]) -> (r: bool)
    ensures
        r == bytes_lt(a@, b@),
{
    let mut i: usize = 0;
    assert(a@.skip(0) =~= a@ && b@.skip(0) =~= b@);
    while i < a.len() && i < b.len()
        invariant
            i <= a.len(),
            i <= b.len(),
            bytes_lt(a@, b@) == bytes_lt(a@.skip(i as int), b@.skip(i as int)),
        decreases a.len() - i,
    {
        let ghost x = a@.skip(i as int);
        let ghost y = b@.skip(i as int);
        assert(x[0] == a[i as int] && y[0] == b[i as int]);
        if a[i] != b[i] {
            return a[i] < b[i];
        }
        assert(x.drop_first() =~= a@.skip(i + 1));
        assert(y.drop_first() =~= b@.skip(i + 1));
        i = i + 1;
    }
    i < b.len()
}

/// Whether two labels are the same.
pub fn label_equal(a: &[u8], b: &[u8]) -> (r: bool)
    ensures
        r == (a@ == b@),
{
    if a.len() != b.len() {
        return false;
    }
    let mut i: usize = 0;
    while i < a.len()
        invariant
            i <= a.len(),
            a.len() == b.len(),
            forall|j: int| 0 <= j < i ==> a[j] == b[j],
        decreases a.len() - i,
    {
        if a[i] != b[i] {
            return false;
        }
        i = i + 1;
    }
    assert(a@ =~= b@);
    true
}

impl FlameTree {
    /// The children of node `i` stand in the order of their labels.
    pub open spec fn sorted(&self, i: int) -> bool {
        forall|k1: int, k2: int|
            0 <= k1 < k2 < self.tree.kids(i).len() ==> bytes_lt(
                self.frames[#[trigger] self.tree.kids(i)[k1] as int].label@,
                self.frames[#[trigger] self.tree.kids(i)[k2] as int].label@,
            )
    }

    /// The tables agree with each other: every node but the root carries the
    /// label that leads to it, and the root is labelled `all`.
    pub open spec fn wf(&self) -> bool {
        &&& self.tree.wf()
        &&& self.frames.len() == self.tree.size()
        &&& self.frames[0].label@ == root_label()
        &&& forall|j: int|
            0 < j < self.tree.size() ==> (#[trigger] self.frames[j]).label@ == self.tree.key(j)
        &&& forall|i: int| 0 <= i < self.tree.size() ==> self.sorted(i)
        &&& forall|j: int|
            0 <= j < self.tree.size() ==> (#[trigger] self.tree.path(j)).len() <= self.max_depth
        &&& forall|j: int|
            0 <= j < self.tree.size() ==> increasing((#[trigger] self.frames[j]).chain_ids@)
    }

    /// The graph while one more chain `c` is worked in behind the chains
    /// `done`: it has the nodes for the first `reached` labels of `c`, and
    /// the nodes on the chain of `c` down to depth `counted` hold its weight
    /// and its number already.
    pub open spec fn midway(
        &self,
        done: Seq<WeightedChain>,
        c: WeightedChain,
        reached: nat,
        counted: int,
    ) -> bool {
        &&& self.wf()
        &&& self.tree.paths@ == add_prefixes(trie_paths(labels_of(done)), c.labels, reached)
        &&& forall|j: int|
            0 <= j < self.tree.size() ==> (#[trigger] self.frames[j]).value == weight_at(
                done,
                self.tree.path(j),
            ) + if self.tree.path(j).len() <= counted && is_prefix(self.tree.path(j), c.labels) {
                c.weight as int
            } else {
                0
            }
        &&& forall|j: int|
            0 <= j < self.tree.size() ==> (#[trigger] self.frames[j]).chain_ids@ == if self.tree.path(
                j,
            ).len() <= counted && is_prefix(self.tree.path(j), c.labels) {
                passing(done, self.tree.path(j)).push(done.len() as usize)
            } else {
                passing(done, self.tree.path(j))
            }
    }

    /// The graph is the graph of `chains`: it has a node for each beginning
    /// of a chain, numbered as the chains first reach them; each node holds
    /// the weight and the numbers of the chains that pass through it; and the
    /// depth kept is the length of the longest chain.
    pub open spec fn represents(&self, chains: Seq<WeightedChain>) -> bool {
        &&& self.tree.paths@ == trie_paths(labels_of(chains))
        &&& self.max_depth == deepest(chains)
        &&& forall|j: int|
            0 <= j < self.tree.size() ==> (#[trigger] self.frames[j]).value == weight_at(
                chains,
                self.tree.path(j),
            )
        &&& forall|j: int|
            0 <= j < self.tree.size() ==> (#[trigger] self.frames[j]).chain_ids@ == passing(
                chains,
                self.tree.path(j),
            )
    }

    /// The sum of the weights of the first `n` children of node `j`.
    pub open spec fn children_weight(&self, j: int, n: nat) -> int
        decreases n,
    {
        if n == 0 {
            0
        } else {
            self.children_weight(j, (n - 1) as nat) + self.frames[self.tree.kids(j)[n - 1] as int].value
        }
    }

    /// Whether chain `c` goes on from node `j` to its `k`-th child.
    pub open spec fn goes_to_kid(&self, j: int, k: int, c: WeightedChain) -> bool {
        let p = self.tree.path(j);
        is_prefix(p, c.labels) && c.labels.len() > p.len() && c.labels[p.len() as int]
            == self.tree.key(self.tree.kids(j)[k] as int)
    }

    /// What chain `c` adds to the first `n` children of node `j` together.
    pub open spec fn kid_share(&self, j: int, n: nat, c: WeightedChain) -> int
        decreases n,
    {
        if n == 0 {
            0
        } else {
            self.kid_share(j, (n - 1) as nat, c) + through(
                self.tree.path(self.tree.kids(j)[n - 1] as int),
            )(c)
        }
    }

    /// `kid_share` as a function of the chain.
    pub open spec fn kid_shares(&self, j: int, n: nat) -> spec_fn(WeightedChain) -> int {
        |c: WeightedChain| self.kid_share(j, n, c)
    }

    /// A chain passes through a child exactly if it goes on to it.
    proof fn lemma_kid_term(&self, j: int, k: int, c: WeightedChain)
        requires
            self.tree.wf(),
            0 <= j < self.tree.size(),
            0 <= k < self.tree.kids(j).len(),
        ensures
            through(self.tree.path(self.tree.kids(j)[k] as int))(c) == if self.goes_to_kid(j, k, c) {
                c.weight as int
            } else {
                0
            },
    {
        let p = self.tree.path(j);
        let kid = self.tree.kids(j)[k] as int;
        let q = self.tree.path(kid);
        self.tree.lemma_child_path(j, k);
        if is_prefix(q, c.labels) {
            assert(c.labels.take(p.len() as int) =~= c.labels.take(q.len() as int).take(
                p.len() as int,
            ));
            assert(q.take(p.len() as int) =~= p);
            assert(c.labels.take(q.len() as int)[p.len() as int] == q[p.len() as int]);
        }
        if self.goes_to_kid(j, k, c) {
            assert(c.labels.take(q.len() as int) =~= q);
        }
    }

    /// A chain adds its weight to the children of a node together if it goes
    /// on to one of them, and nothing else.
    proof fn lemma_kid_share(&self, j: int, n: nat, c: WeightedChain)
        requires
            self.tree.wf(),
            0 <= j < self.tree.size(),
            n <= self.tree.kids(j).len(),
        ensures
            self.kid_share(j, n, c) == if exists|k: int| 0 <= k < n && self.goes_to_kid(j, k, c) {
                c.weight as int
            } else {
                0
            },
        decreases n,
    {
        if n > 0 {
            self.lemma_kid_share(j, (n - 1) as nat, c);
            self.lemma_kid_term(j, n - 1, c);
            if self.goes_to_kid(j, n - 1, c) {
                assert(self.tree.distinct_keys(j));
                assert forall|k: int| 0 <= k < n - 1 implies !self.goes_to_kid(j, k, c) by {
                    assert(self.tree.key(self.tree.kids(j)[k] as int) != self.tree.key(
                        self.tree.kids(j)[n - 1] as int,
                    ));
                }
            } else {
                if exists|k: int| 0 <= k < n && self.goes_to_kid(j, k, c) {
                    let k = choose|k: int| 0 <= k < n && self.goes_to_kid(j, k, c);
                    assert(0 <= k < n - 1 && self.goes_to_kid(j, k, c));
                }
            }
        }
    }

    /// The weights of the first `n` children of a node are what the chains
    /// add to them.
    proof fn lemma_children_weight(&self, chains: Seq<WeightedChain>, j: int, n: nat)
        requires
            self.wf(),
            self.represents(chains),
            0 <= j < self.tree.size(),
            n <= self.tree.kids(j).len(),
        ensures
            self.children_weight(j, n) == sum_by(chains, self.kid_shares(j, n)),
        decreases n,
    {
        if n == 0 {
            assert forall|i: int| 0 <= i < chains.len() implies self.kid_shares(j, 0)(
                #[trigger] chains[i],
            ) == 0 by {}
            lemma_sum_by_zero(chains, self.kid_shares(j, 0));
        } else {
            self.lemma_children_weight(chains, j, (n - 1) as nat);
            let kid = self.tree.kids(j)[n - 1] as int;
            assert(self.tree.child_ok(j, n - 1));
            assert(self.frames[kid].value == weight_at(chains, self.tree.path(kid)));
            assert forall|i: int| 0 <= i < chains.len() implies self.kid_shares(j, n)(
                #[trigger] chains[i],
            ) == self.kid_shares(j, (n - 1) as nat)(chains[i]) + through(self.tree.path(kid))(
                chains[i],
            ) by {}
            lemma_sum_by_add(
                chains,
                self.kid_shares(j, (n - 1) as nat),
                through(self.tree.path(kid)),
                self.kid_shares(j, n),
            );
        }
    }

    /// No weight is made or lost on the way down: the weight of a node is
    /// the weight of the chains that end at it and the weights of its
    /// children together.
    pub proof fn lemma_weight_conservation(&self, chains: Seq<WeightedChain>, j: int)
        requires
            self.wf(),
            self.represents(chains),
            0 <= j < self.tree.size(),
        ensures
            self.frames[j].value == weight_ending_at(chains, self.tree.path(j))
                + self.children_weight(j, self.tree.kids(j).len()),
    {
        let p = self.tree.path(j);
        let n = self.tree.kids(j).len();
        self.lemma_children_weight(chains, j, n);
        assert forall|i: int| 0 <= i < chains.len() implies through(p)(#[trigger] chains[i])
            == ending(p)(chains[i]) + self.kid_shares(j, n)(chains[i]) by {
            let c = chains[i];
            self.lemma_kid_share(j, n, c);
            if is_prefix(p, c.labels) {
                if c.labels.len() == p.len() {
                    assert(c.labels =~= c.labels.take(p.len() as int));
                } else {
                    let q = c.labels.take(p.len() as int + 1);
                    lemma_trie_paths_contains(labels_of(chains), q);
                    assert(is_prefix(q, labels_of(chains)[i])) by {
                        assert(c.labels.take(q.len() as int) =~= q);
                    }
                    let m = choose|m: int| 0 <= m < self.tree.paths@.len() && self.tree.paths@[m] == q;
                    assert(m != 0);
                    assert(self.tree.linked(m));
                    let parent = self.tree.parents@[m] as int;
                    assert(q.drop_last() =~= c.labels.take(p.len() as int));
                    assert(self.tree.paths@[parent] == self.tree.paths@[j]);
                    assert(parent == j);
                    assert(m <= usize::MAX) by {
                        assert(self.tree.parents.len() == self.tree.parents@.len());
                    }
                    let k = choose|k: int|
                        0 <= k < self.tree.kids(j).len() && self.tree.kids(j)[k] == m as usize;
                    assert(self.goes_to_kid(j, k, c));
                }
            } else {
                assert(is_prefix(p, p)) by {
                    assert(p.take(p.len() as int) =~= p);
                }
            }
        }
        lemma_sum_by_add(chains, ending(p), self.kid_shares(j, n), through(p));
    }

    /// Where no chain ends at a node, the node weighs what its children weigh
    /// together.
    pub proof fn lemma_parent_weighs_children(&self, chains: Seq<WeightedChain>, j: int)
        requires
            self.wf(),
            self.represents(chains),
            0 <= j < self.tree.size(),
            weight_ending_at(chains, self.tree.path(j)) == 0,
        ensures
            self.frames[j].value == self.children_weight(j, self.tree.kids(j).len()),
    {
        self.lemma_weight_conservation(chains, j);
    }

    /// Through every node some chain passes, but for the root of the graph
    /// of no chains; so a selection that was taken from a node is never empty.
    pub proof fn lemma_some_chain_passes(&self, chains: Seq<WeightedChain>, j: int)
        requires
            self.wf(),
            self.represents(chains),
            0 <= j < self.tree.size(),
            chains.len() <= usize::MAX,
        ensures
            self.frames[j].chain_ids@.len() == 0 <==> j == 0 && chains.len() == 0,
    {
        let p = self.tree.path(j);
        lemma_passing(chains, p);
        assert(self.frames[j].chain_ids@ == passing(chains, p));
        if chains.len() > 0 {
            if j == 0 {
                assert(is_prefix(p, chains[0].labels)) by {
                    assert(chains[0].labels.take(0) =~= p);
                }
                assert(passing(chains, p).contains(0usize));
            } else {
                assert(self.tree.linked(j));
                assert(self.tree.paths@.contains(p));
                lemma_trie_paths_contains(labels_of(chains), p);
                let i = choose|i: int|
                    0 <= i < labels_of(chains).len() && is_prefix(p, #[trigger] labels_of(chains)[i]);
                assert(labels_of(chains)[i] == chains[i].labels);
                assert(passing(chains, p).contains(i as usize));
            }
        } else {
            if j > 0 {
                assert(self.tree.linked(j));
                assert(self.tree.paths@.contains(p));
                lemma_trie_paths_contains(labels_of(chains), p);
            }
        }
    }

    /// The graph of no chains: the root alone, labelled `all`, weightless.
    fn empty() -> (t: Self)
        ensures
            t.wf(),
            t.represents(Seq::empty()),
    {
        let tree: Tree<Seq<u8>> = Tree::new();
        let mut label: Vec<u8> = Vec::new();
        label.push(97);
        label.push(108);
        label.push(108);
        assert(label@ =~= root_label());
        let mut frames: Vec<StackFrame> = Vec::new();
        frames.push(StackFrame { label, value: 0, chain_ids: Vec::new() });
        let t = FlameTree { tree, frames, max_depth: 0 };
        proof {
            let none = Seq::<WeightedChain>::empty();
            assert(labels_of(none) =~= Seq::<Seq<Seq<u8>>>::empty());
            assert(t.sorted(0));
        }
        t
    }

    /// Where among the children of `cur` the label stands or would stand,
    /// and whether a child has it.
    fn find_child(&self, cur: usize, label: &[u8]) -> (r: (usize, bool))
        requires
            self.wf(),
            cur < self.tree.size(),
        ensures
            r.0 <= self.tree.kids(cur as int).len(),
            r.1 ==> r.0 < self.tree.kids(cur as int).len() && self.frames[self.tree.kids(
                cur as int,
            )[r.0 as int] as int].label@ == label@,
            !r.1 ==> forall|k: int|
                0 <= k < self.tree.kids(cur as int).len() ==> self.tree.key(
                    #[trigger] self.tree.kids(cur as int)[k] as int,
                ) != label@,
            forall|k: int|
                0 <= k < r.0 ==> bytes_lt(
                    self.frames[#[trigger] self.tree.kids(cur as int)[k] as int].label@,
                    label@,
                ),
            forall|k: int|
                r.0 <= k < self.tree.kids(cur as int).len() && !r.1 ==> bytes_lt(
                    label@,
                    self.frames[#[trigger] self.tree.kids(cur as int)[k] as int].label@,
                ),
    {
        let kids = &self.tree.children[cur];
        let mut pos: usize = 0;
        assert(self.sorted(cur as int));
        assert forall|k: int| 0 <= k < kids.len() implies 0 < #[trigger] kids[k] < self.tree.size() by {
            assert(self.tree.child_ok(cur as int, k));
        }
        while pos < kids.len() && label_before(self.frames[kids[pos]].label.as_slice(), label)
            invariant
                self.wf(),
                cur < self.tree.size(),
                kids@ == self.tree.kids(cur as int),
                pos <= kids.len(),
                forall|k: int| 0 <= k < kids.len() ==> 0 < #[trigger] kids[k] < self.tree.size(),
                forall|k: int|
                    0 <= k < pos ==> bytes_lt(self.frames[#[trigger] kids[k] as int].label@, label@),
            decreases kids.len() - pos,
        {
            pos = pos + 1;
        }
        let found = pos < kids.len() && label_equal(self.frames[kids[pos]].label.as_slice(), label);
        proof {
            if !found {
                assert forall|k: int| pos <= k < kids.len() implies bytes_lt(
                    label@,
                    self.frames[#[trigger] kids[k] as int].label@,
                ) by {
                    let at = self.frames[kids[pos as int] as int].label@;
                    lemma_bytes_lt_total(at, label@);
                    if k > pos {
                        lemma_bytes_lt_transitive(label@, at, self.frames[kids[k] as int].label@);
                    }
                }
                assert forall|k: int| 0 <= k < kids.len() implies self.tree.key(
                    #[trigger] kids[k] as int,
                ) != label@ by {
                    lemma_bytes_lt_irreflexive(label@);
                    if k < pos {
                        assert(bytes_lt(self.frames[kids[k] as int].label@, label@));
                    } else {
                        assert(bytes_lt(label@, self.frames[kids[k] as int].label@));
                    }
                }
            }
        }
        (pos, found)
    }

    /// Goes from node `cur` to its child for `label`, making the child where
    /// there is none.
    fn step_down(
        &mut self,
        cur: usize,
        label: &Vec<u8>,
        Ghost(done): Ghost<Seq<WeightedChain>>,
        Ghost(c): Ghost<WeightedChain>,
        Ghost(k): Ghost<nat>,
    ) -> (child: usize)
        requires
            old(self).midway(done, c, k, k as int),
            k < c.labels.len(),
            cur < old(self).tree.size(),
            old(self).tree.path(cur as int) == c.labels.take(k as int),
            label@ == c.labels[k as int],
            c.labels.len() <= old(self).max_depth,
        ensures
            final(self).midway(done, c, k + 1, k as int),
            child < final(self).tree.size(),
            final(self).tree.path(child as int) == c.labels.take(k as int + 1),
            final(self).max_depth == old(self).max_depth,
    {
        let (pos, found) = self.find_child(cur, label.as_slice());
        let ghost p = c.labels.take(k as int + 1);
        let ghost before = *self;
        assert(p =~= self.tree.path(cur as int).push(label@));
        if found {
            let child = self.tree.children[cur][pos];
            proof {
                self.tree.lemma_child_path(cur as int, pos as int);
                assert(self.tree.child_ok(cur as int, pos as int));
                assert(self.frames[child as int].label@ == self.tree.key(child as int));
                assert(self.tree.paths@[child as int] == p);
            }
            child
        } else {
            let id = self.tree.add_child(cur, pos, Ghost(label@));
            self.frames.push(StackFrame { label: label.clone(), value: 0, chain_ids: Vec::new() });
            proof {
                let old_kids = before.tree.kids(cur as int);
                let new_kids = self.tree.kids(cur as int);
                assert(self.tree.path(id as int) == p);
                assert(self.tree.key(id as int) == label@);
                assert forall|j: int| 0 <= j < before.tree.size() implies self.tree.path(j)
                    == before.tree.path(j) && self.frames[j] == before.frames[j] by {}
                assert forall|j: int| 0 < j < self.tree.size() implies (#[trigger] self.frames[j]).label@
                    == self.tree.key(j) by {
                    if j < before.tree.size() {
                        assert(before.frames[j].label@ == before.tree.key(j));
                    }
                }
                assert forall|i: int| 0 <= i < self.tree.size() implies self.sorted(i) by {
                    if i == cur {
                        assert(before.sorted(i));
                        assert forall|k1: int, k2: int|
                            0 <= k1 < k2 < new_kids.len() implies bytes_lt(
                            self.frames[#[trigger] new_kids[k1] as int].label@,
                            self.frames[#[trigger] new_kids[k2] as int].label@,
                        ) by {
                            let o1 = if k1 < pos {
                                k1
                            } else {
                                k1 - 1
                            };
                            let o2 = if k2 < pos {
                                k2
                            } else {
                                k2 - 1
                            };
                            if k1 == pos {
                                assert(before.tree.child_ok(i, o2));
                                assert(new_kids[k2] == old_kids[o2]);
                                assert(bytes_lt(label@, before.frames[old_kids[o2] as int].label@));
                            } else if k2 == pos {
                                assert(before.tree.child_ok(i, o1));
                                assert(new_kids[k1] == old_kids[o1]);
                                assert(bytes_lt(before.frames[old_kids[o1] as int].label@, label@));
                            } else {
                                assert(before.tree.child_ok(i, o1));
                                assert(before.tree.child_ok(i, o2));
                                assert(new_kids[k1] == old_kids[o1]);
                                assert(new_kids[k2] == old_kids[o2]);
                            }
                        }
                    } else if i < before.tree.size() {
                        assert(before.sorted(i));
                        assert forall|k1: int, k2: int|
                            0 <= k1 < k2 < self.tree.kids(i).len() implies bytes_lt(
                            self.frames[#[trigger] self.tree.kids(i)[k1] as int].label@,
                            self.frames[#[trigger] self.tree.kids(i)[k2] as int].label@,
                        ) by {
                            assert(before.tree.child_ok(i, k1));
                            assert(before.tree.child_ok(i, k2));
                        }
                    }
                }
                assert forall|j: int| 0 <= j < self.tree.size() implies (#[trigger] self.tree.path(
                    j,
                )).len() <= self.max_depth by {
                    if j < before.tree.size() {
                        assert(before.tree.path(j).len() <= before.max_depth);
                    }
                }
                assert forall|j: int| 0 <= j < self.tree.size() implies increasing(
                    (#[trigger] self.frames[j]).chain_ids@,
                ) by {
                    if j < before.tree.size() {
                        assert(increasing(before.frames[j].chain_ids@));
                    }
                }
                assert(self.wf());
                lemma_add_prefixes_contains(trie_paths(labels_of(done)), c.labels, k, p);
                lemma_unreached(done, p);
                assert forall|j: int| 0 <= j < self.tree.size() implies (#[trigger] self.frames[j]).value
                    == weight_at(done, self.tree.path(j)) + if self.tree.path(j).len() <= k
                    && is_prefix(self.tree.path(j), c.labels) {
                    c.weight as int
                } else {
                    0
                } by {
                    if j < before.tree.size() {
                        assert(before.frames[j].value == weight_at(done, before.tree.path(j))
                            + if before.tree.path(j).len() <= k && is_prefix(
                            before.tree.path(j),
                            c.labels,
                        ) {
                            c.weight as int
                        } else {
                            0
                        });
                    }
                }
                assert forall|j: int| 0 <= j < self.tree.size() implies (#[trigger] self.frames[j]).chain_ids@
                    == if self.tree.path(j).len() <= k && is_prefix(self.tree.path(j), c.labels) {
                    passing(done, self.tree.path(j)).push(done.len() as usize)
                } else {
                    passing(done, self.tree.path(j))
                } by {
                    if j < before.tree.size() {
                        assert(before.frames[j].chain_ids@ == if before.tree.path(j).len() <= k
                            && is_prefix(before.tree.path(j), c.labels) {
                            passing(done, before.tree.path(j)).push(done.len() as usize)
                        } else {
                            passing(done, before.tree.path(j))
                        });
                    }
                }
            }
            id
        }
    }

    /// Adds the weight and the number of chain `c` to the node at depth `k`
    /// of its chain.
    fn count(
        &mut self,
        node: usize,
        weight: u64,
        chain_id: usize,
        Ghost(done): Ghost<Seq<WeightedChain>>,
        Ghost(c): Ghost<WeightedChain>,
        Ghost(k): Ghost<nat>,
    )
        requires
            old(self).midway(done, c, k, k - 1),
            k <= c.labels.len(),
            node < old(self).tree.size(),
            old(self).tree.path(node as int) == c.labels.take(k as int),
            weight == c.weight,
            chain_id == done.len(),
            total_weight(done.push(c)) <= u64::MAX,
        ensures
            final(self).midway(done, c, k, k as int),
            final(self).max_depth == old(self).max_depth,
    {
        let ghost before = *self;
        proof {
            lemma_weight_le_total(done, self.tree.path(node as int));
            lemma_weight_push(done, c, Seq::empty());
            assert(c.labels.take(0) =~= Seq::<Seq<u8>>::empty());
        }
        self.frames[node].value = self.frames[node].value + weight;
        self.frames[node].chain_ids.push(chain_id);
        proof {
            assert forall|j: int| 0 <= j < self.tree.size() && j != node implies self.frames[j]
                == before.frames[j] by {}
            assert(self.frames[node as int].label == before.frames[node as int].label);
            assert forall|j: int| 0 <= j < self.tree.size() implies (#[trigger] self.frames[j]).label
                == before.frames[j].label by {}
            assert forall|i: int| 0 <= i < self.tree.size() implies self.sorted(i) by {
                assert(before.sorted(i));
                assert forall|k1: int, k2: int|
                    0 <= k1 < k2 < self.tree.kids(i).len() implies bytes_lt(
                    self.frames[#[trigger] self.tree.kids(i)[k1] as int].label@,
                    self.frames[#[trigger] self.tree.kids(i)[k2] as int].label@,
                ) by {
                    assert(before.tree.child_ok(i, k1));
                    assert(before.tree.child_ok(i, k2));
                }
            }
            assert forall|j: int| 0 < j < self.tree.size() implies (#[trigger] self.frames[j]).label@
                == self.tree.key(j) by {
                assert(before.frames[j].label@ == before.tree.key(j));
            }
            assert forall|j: int| 0 <= j < self.tree.size() implies (#[trigger] self.tree.path(
                j,
            )).len() <= self.max_depth by {
                assert(before.tree.path(j).len() <= before.max_depth);
            }
            assert forall|j: int| 0 <= j < self.tree.size() implies increasing(
                (#[trigger] self.frames[j]).chain_ids@,
            ) by {
                assert(increasing(before.frames[j].chain_ids@));
                if j == node {
                    lemma_passing(done, before.tree.path(j));
                    assert(before.frames[j].chain_ids@ == passing(done, before.tree.path(j)));
                }
            }
            assert forall|j: int| 0 <= j < self.tree.size() implies (#[trigger] self.frames[j]).value
                == weight_at(done, self.tree.path(j)) + if self.tree.path(j).len() <= k
                && is_prefix(self.tree.path(j), c.labels) {
                c.weight as int
            } else {
                0
            } by {
                assert(before.frames[j].value == weight_at(done, before.tree.path(j))
                    + if before.tree.path(j).len() <= k - 1 && is_prefix(
                    before.tree.path(j),
                    c.labels,
                ) {
                    c.weight as int
                } else {
                    0
                });
                if j != node {
                    if self.tree.path(j).len() == k && is_prefix(self.tree.path(j), c.labels) {
                        assert(self.tree.path(j) =~= c.labels.take(k as int));
                        assert(self.tree.paths@[j] == self.tree.paths@[node as int]);
                    }
                }
            }
            assert forall|j: int| 0 <= j < self.tree.size() implies (#[trigger] self.frames[j]).chain_ids@
                == if self.tree.path(j).len() <= k && is_prefix(self.tree.path(j), c.labels) {
                passing(done, self.tree.path(j)).push(done.len() as usize)
            } else {
                passing(done, self.tree.path(j))
            } by {
                assert(before.frames[j].chain_ids@ == if before.tree.path(j).len() <= k - 1
                    && is_prefix(before.tree.path(j), c.labels) {
                    passing(done, before.tree.path(j)).push(done.len() as usize)
                } else {
                    passing(done, before.tree.path(j))
                });
                if j != node {
                    if self.tree.path(j).len() == k && is_prefix(self.tree.path(j), c.labels) {
                        assert(self.tree.path(j) =~= c.labels.take(k as int));
                        assert(self.tree.paths@[j] == self.tree.paths@[node as int]);
                    }
                }
            }
        }
    }

    /// Works one more chain into the graph: its weight and its number go to
    /// the root and to every node on its way, and nodes that it reaches first
    /// are made.
    fn fill_children(
        &mut self,
        labels: &Vec<Vec<u8>>,
        weight: u64,
        chain_id: usize,
        Ghost(done): Ghost<Seq<WeightedChain>>,
    ) -> (fits: bool)
        requires
            old(self).wf(),
            old(self).represents(done),
            chain_id == done.len(),
            labels.len() <= u32::MAX,
        ensures
            fits == (total_weight(
                done.push(WeightedChain { labels: labels_view(labels@), weight }),
            ) <= u64::MAX),
            fits ==> final(self).wf() && final(self).represents(
                done.push(WeightedChain { labels: labels_view(labels@), weight }),
            ),
    {
        let ghost c = WeightedChain { labels: labels_view(labels@), weight };
        let ghost all = done.push(c);
        proof {
            lemma_weight_push(done, c, Seq::empty());
            assert(c.labels.take(0) =~= Seq::<Seq<u8>>::empty());
            assert(self.tree.path(0) =~= Seq::<Seq<u8>>::empty());
        }
        if self.frames[0].value.checked_add(weight).is_none() {
            return false;
        }
        let ghost start = *self;
        if labels.len() as u32 > self.max_depth {
            self.max_depth = labels.len() as u32;
        }
        proof {
            assert forall|i: int| 0 <= i < self.tree.size() implies self.sorted(i) by {
                assert(start.sorted(i));
            }
            assert forall|j: int| 0 <= j < self.tree.size() implies (#[trigger] self.tree.path(
                j,
            )).len() <= self.max_depth by {
                assert(start.tree.path(j).len() <= start.max_depth);
            }
            assert(self.wf());
            assert(self.midway(done, c, 0, -1));
        }
        let depth: u32 = self.max_depth;
        self.count(0, weight, chain_id, Ghost(done), Ghost(c), Ghost(0));
        let mut cur: usize = 0;
        let mut k: usize = 0;
        while k < labels.len()
            invariant
                k <= labels.len(),
                c == (WeightedChain { labels: labels_view(labels@), weight }),
                all == done.push(c),
                chain_id == done.len(),
                total_weight(all) <= u64::MAX,
                self.midway(done, c, k as nat, k as int),
                cur < self.tree.size(),
                self.tree.path(cur as int) == c.labels.take(k as int),
                self.max_depth == depth,
                labels.len() <= depth,
            decreases labels.len() - k,
        {
            let child = self.step_down(cur, &labels[k], Ghost(done), Ghost(c), Ghost(k as nat));
            self.count(child, weight, chain_id, Ghost(done), Ghost(c), Ghost((k + 1) as nat));
            cur = child;
            k = k + 1;
        }
        proof {
            lemma_labels_push(done, c);
            assert forall|j: int| 0 <= j < self.tree.size() implies (#[trigger] self.frames[j]).value
                == weight_at(all, self.tree.path(j)) by {
                lemma_weight_push(done, c, self.tree.path(j));
            }
            assert forall|j: int| 0 <= j < self.tree.size() implies (#[trigger] self.frames[j]).chain_ids@
                == passing(all, self.tree.path(j)) by {
                lemma_weight_push(done, c, self.tree.path(j));
            }
        }
        true
    }
}

/// The flame graph of a list of collapsed-stack lines. Chains are numbered
/// from 0 in the order of their lines. A line that is no collapsed stack, a
/// chain that is too deep, or a sum of weights that leaves 64 bits stops the
/// work.
pub fn build_stackframes(chains: &Vec<Vec<u8>>) -> (res: Result<FlameTree, FlameError>)
    ensures
        match chains_read(labels_view(chains@), chains.len() as nat) {
            Ok(read) => res matches Ok(t) && t.wf() && t.represents(read),
            Err(e) => res matches Err(f) && f == e,
        },
{
    let mut t = FlameTree::empty();
    let ghost lines = labels_view(chains@);
    let ghost mut done = Seq::<WeightedChain>::empty();
    let mut i: usize = 0;
    while i < chains.len()
        invariant
            i <= chains.len(),
            lines == labels_view(chains@),
            chains_read(lines, i as nat) == Ok::<Seq<WeightedChain>, FlameError>(done),
            done.len() == i,
            t.wf(),
            t.represents(done),
        decreases chains.len() - i,
    {
        assert(lines[i as int] == chains[i as int]@);
        let (labels, weight) = match read_line(chains[i].as_slice()) {
            Ok(read) => read,
            Err(e) => {
                proof {
                    lemma_chains_read_error(lines, i as nat + 1, chains.len() as nat);
                }
                return Err(
                    match e {
                        LineError::MissingWeight => FlameError::MissingWeight(i),
                        LineError::InvalidWeight => FlameError::InvalidWeight(i),
                    },
                );
            },
        };
        if labels.len() > u32::MAX as usize {
            proof {
                lemma_chains_read_error(lines, i as nat + 1, chains.len() as nat);
            }
            return Err(FlameError::TooDeep(i));
        }
        let fits = t.fill_children(&labels, weight, i, Ghost(done));
        if !fits {
            proof {
                lemma_chains_read_error(lines, i as nat + 1, chains.len() as nat);
            }
            return Err(FlameError::WeightOverflow(i));
        }
        proof {
            done = done.push(WeightedChain { labels: labels_view(labels@), weight });
        }
        i = i + 1;
    }
    Ok(t)
}

} // verus!
