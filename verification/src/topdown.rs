//! The top-down tree: call chains merged by call site, with the metrics of
//! all allocations that pass through each node.

use vstd::prelude::*;
use crate::arena::Tree;
use crate::callpath::{chain, frame_error, lemma_chain_len, reconstruct};
use crate::trace::{AllocationData, AllocationInfo, Frame, MemInfo, MemoryKind, TraceError, TraceGraph};
use crate::trie::{
    add_prefixes, is_prefix, lemma_add_prefixes_contains, lemma_sum_by_concat, lemma_sum_by_le,
    lemma_sum_by_permutation, lemma_sum_by_push, lemma_sum_by_zero, lemma_trie_paths_contains,
    lemma_trie_paths_same_chains, sum_by, trie_paths,
};

verus! {

/// What tells one child of a node from another: the function called, and the
/// file and line of the caller from which the call was made.
#[derive(Clone, Copy, Debug, PartialEq, Eq, Structural)]
pub struct CallSite {
    pub function_idx: usize,
    pub file_idx: usize,
    pub line_number: u32,
}

impl CallSite {
    /// The order in which the children of a node stand: by function, then by
    /// file, then by line.
    pub open spec fn lt(self, other: CallSite) -> bool {
        self.function_idx < other.function_idx || (self.function_idx == other.function_idx && (
        self.file_idx < other.file_idx || (self.file_idx == other.file_idx && self.line_number
            < other.line_number)))
    }

    /// Whether `self` stands before `other`.
    pub fn before(&self, other: &CallSite) -> (r: bool)
        ensures
            r == self.lt(*other),
    {
        self.function_idx < other.function_idx || (self.function_idx == other.function_idx && (
        self.file_idx < other.file_idx || (self.file_idx == other.file_idx && self.line_number
            < other.line_number)))
    }
}

/// One allocation as the tree sees it: the call sites of its chain, outermost
/// first, and its metrics.
pub struct ChainRecord {
    pub sites: Seq<CallSite>,
    pub data: AllocationData,
}

/// The call site of the frame at place `i`: its function, reached from the
/// file and line of the frame before it.
pub open spec fn call_site_at(frames: Seq<Frame>, i: int) -> CallSite {
    CallSite {
        function_idx: frames[i].function_idx(),
        file_idx: if i == 0 {
            0
        } else {
            frames[i - 1].file_idx()
        },
        line_number: if i == 0 {
            0
        } else {
            frames[i - 1].line_number()
        },
    }
}

/// The call sites of a chain of frames.
pub open spec fn call_sites(frames: Seq<Frame>) -> Seq<CallSite> {
    Seq::new(frames.len(), |i: int| call_site_at(frames, i))
}

/// What a record adds to the node at path `p`: its metric if its chain passes
/// through the node, else nothing.
pub open spec fn through(p: Seq<CallSite>, kind: MemoryKind) -> spec_fn(ChainRecord) -> int {
    |r: ChainRecord|
        if is_prefix(p, r.sites) {
            r.data.metric(kind) as int
        } else {
            0
        }
}

/// The metric of the node at path `p`: the sum over the records whose chains
/// pass through it.
pub open spec fn tally(records: Seq<ChainRecord>, p: Seq<CallSite>, kind: MemoryKind) -> int {
    sum_by(records, through(p, kind))
}

/// The chains of a list of records.
pub open spec fn chains_of(records: Seq<ChainRecord>) -> Seq<Seq<CallSite>> {
    Seq::new(records.len(), |i: int| records[i].sites)
}

/// Whether the four sums over all records fit in 64 bits.
pub open spec fn totals_fit(records: Seq<ChainRecord>) -> bool {
    forall|kind: MemoryKind| #[trigger] tally(records, Seq::empty(), kind) <= u64::MAX
}

/// The record of one sampled event: the chain and the metrics of the
/// allocation it names.
pub open spec fn record_of(graph: TraceGraph, info: AllocationInfo) -> Result<
    ChainRecord,
    TraceError,
> {
    if info.allocation_idx == 0 || info.allocation_idx > graph.allocations.len() {
        Err(TraceError::AllocationIndex(info.allocation_idx))
    } else {
        let allocation = graph.allocations[info.allocation_idx - 1];
        match chain(graph, allocation.trace_idx) {
            Err(e) => Err(e),
            Ok(frames) => Ok(ChainRecord { sites: call_sites(frames), data: allocation.data }),
        }
    }
}

/// The records of the first `n` sampled events, or what stops the work: the
/// first event with a defect in its chain, or the first with which a sum
/// leaves 64 bits.
pub open spec fn records_of(graph: TraceGraph, n: nat) -> Result<Seq<ChainRecord>, TraceError>
    decreases n,
{
    if n == 0 {
        Ok(Seq::empty())
    } else {
        match records_of(graph, (n - 1) as nat) {
            Err(e) => Err(e),
            Ok(done) => match record_of(graph, graph.allocation_infos[n - 1]) {
                Err(e) => Err(e),
                Ok(rec) => if totals_fit(done.push(rec)) {
                    Ok(done.push(rec))
                } else {
                    Err(TraceError::MetricOverflow)
                },
            },
        }
    }
}

/// The sum over one more record.
pub proof fn lemma_tally_push(
    done: Seq<ChainRecord>,
    rec: ChainRecord,
    p: Seq<CallSite>,
    kind: MemoryKind,
)
    ensures
        tally(done.push(rec), p, kind) == tally(done, p, kind) + if is_prefix(p, rec.sites) {
            rec.data.metric(kind) as int
        } else {
            0
        },
{
    lemma_sum_by_push(done, rec, through(p, kind));
}

/// No node has more than the root.
pub proof fn lemma_tally_le_root(records: Seq<ChainRecord>, p: Seq<CallSite>, kind: MemoryKind)
    ensures
        0 <= tally(records, p, kind) <= tally(records, Seq::empty(), kind),
{
    let root = Seq::<CallSite>::empty();
    assert forall|i: int| 0 <= i < records.len() implies through(p, kind)(#[trigger] records[i])
        <= through(root, kind)(records[i]) by {
        assert(records[i].sites.take(0) =~= root);
    }
    lemma_sum_by_le(records, through(p, kind), through(root, kind));
    crate::trie::lemma_sum_by_nonnegative(records, through(p, kind));
}

/// A path that the tree of the records lacks has nothing.
pub proof fn lemma_tally_unreached(records: Seq<ChainRecord>, p: Seq<CallSite>, kind: MemoryKind)
    requires
        !trie_paths(chains_of(records)).contains(p),
    ensures
        tally(records, p, kind) == 0,
{
    lemma_trie_paths_contains(chains_of(records), p);
    assert forall|i: int| 0 <= i < records.len() implies through(p, kind)(#[trigger] records[i])
        == 0 by {
        assert(chains_of(records)[i] == records[i].sites);
    }
    lemma_sum_by_zero(records, through(p, kind));
}

/// The tree of one more record.
pub proof fn lemma_paths_push(done: Seq<ChainRecord>, rec: ChainRecord)
    ensures
        trie_paths(chains_of(done.push(rec))) == add_prefixes(
            trie_paths(chains_of(done)),
            rec.sites,
            rec.sites.len(),
        ),
{
    let all = chains_of(done.push(rec));
    assert(all.drop_last() =~= chains_of(done));
    assert(all.last() == rec.sites);
}

/// The order in which allocations are worked in does not matter: the same
/// records in another order give a tree with the same paths, so with equally
/// many nodes, and with the same four sums at every path; and the sums fit in
/// the one order exactly if they fit in the other.
pub proof fn lemma_order_independent(a: Seq<ChainRecord>, b: Seq<ChainRecord>)
    requires
        a.to_multiset() == b.to_multiset(),
    ensures
        totals_fit(a) == totals_fit(b),
        trie_paths(chains_of(a)).len() == trie_paths(chains_of(b)).len(),
        forall|p: Seq<CallSite>|
            trie_paths(chains_of(a)).contains(p) <==> trie_paths(chains_of(b)).contains(p),
        forall|p: Seq<CallSite>, kind: MemoryKind| #[trigger] tally(a, p, kind) == tally(b, p, kind),
{
    broadcast use vstd::seq_lib::group_to_multiset_ensures;

    assert forall|p: Seq<CallSite>, kind: MemoryKind| #[trigger]
        tally(a, p, kind) == tally(b, p, kind) by {
        lemma_sum_by_permutation(a, b, through(p, kind));
    }
    assert(totals_fit(a) == totals_fit(b)) by {
        if totals_fit(a) {
            assert forall|kind: MemoryKind| #[trigger]
                tally(b, Seq::empty(), kind) <= u64::MAX by {
                assert(tally(a, Seq::empty(), kind) <= u64::MAX);
            }
        }
        if totals_fit(b) {
            assert forall|kind: MemoryKind| #[trigger]
                tally(a, Seq::empty(), kind) <= u64::MAX by {
                assert(tally(b, Seq::empty(), kind) <= u64::MAX);
            }
        }
    }
    assert forall|c: Seq<CallSite>| chains_of(a).contains(c) <==> chains_of(b).contains(c) by {
        if chains_of(a).contains(c) {
            let i = choose|i: int| 0 <= i < chains_of(a).len() && chains_of(a)[i] == c;
            assert(a.contains(a[i]));
            assert(b.to_multiset().count(a[i]) > 0);
            assert(b.contains(a[i]));
            let j = choose|j: int| 0 <= j < b.len() && b[j] == a[i];
            assert(chains_of(b)[j] == c);
        }
        if chains_of(b).contains(c) {
            let i = choose|i: int| 0 <= i < chains_of(b).len() && chains_of(b)[i] == c;
            assert(b.contains(b[i]));
            assert(a.to_multiset().count(b[i]) > 0);
            assert(a.contains(b[i]));
            let j = choose|j: int| 0 <= j < a.len() && a[j] == b[i];
            assert(chains_of(a)[j] == c);
        }
    }
    lemma_trie_paths_same_chains(chains_of(a), chains_of(b));
}

/// Accumulation adds: working the same records in once more leaves the
/// tree's nodes and their numbers as they are and doubles every sum.
pub proof fn lemma_twice_doubles(records: Seq<ChainRecord>)
    ensures
        trie_paths(chains_of(records + records)) == trie_paths(chains_of(records)),
        forall|p: Seq<CallSite>, kind: MemoryKind| #[trigger]
            tally(records + records, p, kind) == 2 * tally(records, p, kind),
{
    assert forall|p: Seq<CallSite>, kind: MemoryKind| #[trigger]
        tally(records + records, p, kind) == 2 * tally(records, p, kind) by {
        lemma_sum_by_concat(records, records, through(p, kind));
    }
    let chains = chains_of(records);
    assert(chains_of(records + records) =~= chains + chains);
    assert forall|i: int| 0 <= i < chains.len() implies chains.contains(#[trigger] chains[i]) by {}
    crate::trie::lemma_trie_paths_absorb(chains, chains);
}

/// What stops the work at the first `n` events stops it at any more.
pub proof fn lemma_records_error(graph: TraceGraph, n: nat, m: nat)
    requires
        n <= m,
        records_of(graph, n) is Err,
    ensures
        records_of(graph, m) == records_of(graph, n),
    decreases m - n,
{
    if n < m {
        lemma_records_error(graph, n, (m - 1) as nat);
    }
}

/// What is kept for one node of the tree.
#[derive(Debug)]
pub struct StackInfo {
    /// The node's number; the root has 0, the others follow in the order in
    /// which they were made.
    pub id: usize,
    /// The name of the function, `all` at the root.
    pub name: String,
    /// The file from which the function was called, empty where it is not known.
    pub file_name: String,
    /// The line from which the function was called.
    pub line_number: u32,
    pub peaked: u64,
    pub leaked: u64,
    pub allocations: u64,
    pub temporary: u64,
}

impl StackInfo {
    /// The metric of the given kind.
    pub open spec fn spec_metric(&self, kind: MemoryKind) -> u64 {
        match kind {
            MemoryKind::Peak => self.peaked,
            MemoryKind::Allocations => self.allocations,
            MemoryKind::Temporary => self.temporary,
            MemoryKind::Leaked => self.leaked,
        }
    }

    #[verifier::when_used_as_spec(spec_metric)]
    pub fn metric(&self, kind: MemoryKind) -> (r: u64)
        ensures
            r == self.spec_metric(kind),
    {
        match kind {
            MemoryKind::Peak => self.peaked,
            MemoryKind::Allocations => self.allocations,
            MemoryKind::Temporary => self.temporary,
            MemoryKind::Leaked => self.leaked,
        }
    }

    /// Adds the metrics of one allocation.
    fn add(&mut self, data: AllocationData)
        requires
            forall|kind: MemoryKind| #[trigger]
                old(self).spec_metric(kind) + data.spec_metric(kind) <= u64::MAX,
        ensures
            forall|kind: MemoryKind| #[trigger]
                final(self).spec_metric(kind) == old(self).spec_metric(kind) + data.spec_metric(
                    kind,
                ),
            final(self).id == old(self).id,
            final(self).name == old(self).name,
            final(self).file_name == old(self).file_name,
            final(self).line_number == old(self).line_number,
    {
        assert(self.spec_metric(MemoryKind::Peak) + data.spec_metric(MemoryKind::Peak) <= u64::MAX);
        assert(self.spec_metric(MemoryKind::Leaked) + data.spec_metric(MemoryKind::Leaked)
            <= u64::MAX);
        assert(self.spec_metric(MemoryKind::Allocations) + data.spec_metric(
            MemoryKind::Allocations,
        ) <= u64::MAX);
        assert(self.spec_metric(MemoryKind::Temporary) + data.spec_metric(MemoryKind::Temporary)
            <= u64::MAX);
        self.peaked = self.peaked + data.peak;
        self.leaked = self.leaked + data.leaked;
        self.allocations = self.allocations + data.allocations;
        self.temporary = self.temporary + data.temporary;
    }
}

/// What the tree view is told about the tree, one item after the other.
#[derive(Clone, Copy, Debug, PartialEq, Eq, Structural)]
pub enum TreeItem {
    /// A node without children.
    Leaf(usize),
    /// A node with children; they follow, up to the matching `CloseDir`.
    Dir(usize),
    /// The end of the children of the last open `Dir`.
    CloseDir,
}

/// What the tree view reports back.
#[derive(Debug)]
pub enum Action {
    /// These nodes were selected.
    SetSelected(Vec<usize>),
    Move,
    Drag,
    Activate,
}

/// The top-down tree of a profile, and the node that is selected in it.
pub struct TopDown {
    /// The shape of the tree; a node's path is the call sites from the root to it.
    pub tree: Tree<CallSite>,
    /// The node table, by node number.
    pub infos: Vec<StackInfo>,
    /// The call site of each node; the root has none.
    pub sites: Vec<CallSite>,
    /// The number of the selected node.
    pub selected_stack_info_id: usize,
}

impl TopDown {
    /// The children of node `i` stand in the order of their call sites.
    pub open spec fn sorted(&self, i: int) -> bool {
        forall|k1: int, k2: int|
            0 <= k1 < k2 < self.tree.kids(i).len() ==> self.sites[#[trigger] self.tree.kids(
                i,
            )[k1] as int].lt(self.sites[#[trigger] self.tree.kids(i)[k2] as int])
    }

    /// The tables agree with each other.
    pub open spec fn wf(&self) -> bool {
        &&& self.tree.wf()
        &&& self.infos.len() == self.tree.size()
        &&& self.sites.len() == self.tree.size()
        &&& self.selected_stack_info_id < self.tree.size()
        &&& forall|j: int| 0 <= j < self.tree.size() ==> (#[trigger] self.infos[j]).id == j
        &&& forall|j: int| 0 < j < self.tree.size() ==> #[trigger] self.sites[j] == self.tree.key(j)
        &&& forall|i: int| 0 <= i < self.tree.size() ==> self.sorted(i)
    }

    /// Node `j` is named after its call site in a profile with these strings.
    pub open spec fn described(&self, strings: Seq<String>, j: int) -> bool {
        let info = self.infos[j];
        let site = self.sites[j];
        if j == 0 {
            info.name@ == "all"@ && info.file_name@ == Seq::<char>::empty() && info.line_number
                == 0
        } else {
            &&& 1 <= site.function_idx <= strings.len()
            &&& site.file_idx <= strings.len()
            &&& info.name@ == strings[site.function_idx - 1]@
            &&& info.file_name@ == if site.file_idx == 0 {
                Seq::<char>::empty()
            } else {
                strings[site.file_idx - 1]@
            }
            &&& info.line_number == site.line_number
        }
    }

    /// The tree while one more record `rec` is worked in behind the records
    /// `done`: it has the nodes for the first `reached` call sites of `rec`,
    /// and the nodes on the chain of `rec` down to depth `counted` hold its
    /// metrics already.
    pub open spec fn midway(
        &self,
        strings: Seq<String>,
        done: Seq<ChainRecord>,
        rec: ChainRecord,
        reached: nat,
        counted: int,
    ) -> bool {
        &&& self.wf()
        &&& self.tree.paths@ == add_prefixes(trie_paths(chains_of(done)), rec.sites, reached)
        &&& forall|j: int| 0 <= j < self.tree.size() ==> #[trigger] self.described(strings, j)
        &&& forall|j: int, kind: MemoryKind|
            0 <= j < self.tree.size() ==> #[trigger] self.infos[j].spec_metric(kind) == tally(
                done,
                self.tree.path(j),
                kind,
            ) + if self.tree.path(j).len() <= counted && is_prefix(self.tree.path(j), rec.sites) {
                rec.data.metric(kind) as int
            } else {
                0
            }
    }

    /// The tree is the tree of `records`: it has a node for each path that
    /// begins a chain, numbered as the chains first reach them; each node is
    /// named after its call site and holds the sums over the records that
    /// pass through it.
    pub open spec fn represents(&self, strings: Seq<String>, records: Seq<ChainRecord>) -> bool {
        &&& self.tree.paths@ == trie_paths(chains_of(records))
        &&& forall|j: int| 0 <= j < self.tree.size() ==> #[trigger] self.described(strings, j)
        &&& forall|j: int, kind: MemoryKind|
            0 <= j < self.tree.size() ==> #[trigger] self.infos[j].spec_metric(kind) == tally(
                records,
                self.tree.path(j),
                kind,
            )
    }

    /// The tree of no records: the root alone, named `all`, selected.
    fn empty() -> (t: Self)
        ensures
            t.wf(),
            t.represents(Seq::empty(), Seq::empty()),
            forall|strings: Seq<String>| t.represents(strings, Seq::empty()),
            t.selected_stack_info_id == 0,
    {
        let tree: Tree<CallSite> = Tree::new();
        let mut infos: Vec<StackInfo> = Vec::new();
        infos.push(
            StackInfo {
                id: 0,
                name: "all".to_owned(),
                file_name: String::new(),
                line_number: 0,
                peaked: 0,
                leaked: 0,
                allocations: 0,
                temporary: 0,
            },
        );
        let mut sites: Vec<CallSite> = Vec::new();
        sites.push(CallSite { function_idx: 0, file_idx: 0, line_number: 0 });
        let t = TopDown { tree, infos, sites, selected_stack_info_id: 0 };
        proof {
            let none = Seq::<ChainRecord>::empty();
            assert(chains_of(none) =~= Seq::<Seq<CallSite>>::empty());
            assert(t.sorted(0));
            assert forall|j: int, kind: MemoryKind| 0 <= j < t.tree.size() implies #[trigger] t.infos[j].spec_metric(
                kind,
            ) == tally(none, t.tree.path(j), kind) by {}
            assert(forall|strings: Seq<String>| t.described(strings, 0));
        }
        t
    }

    /// Where among the children of `cur` the call site `site` stands or would
    /// stand, and whether a child has it.
    fn find_child(&self, cur: usize, site: &CallSite) -> (r: (usize, bool))
        requires
            self.wf(),
            cur < self.tree.size(),
        ensures
            r.0 <= self.tree.kids(cur as int).len(),
            r.1 ==> r.0 < self.tree.kids(cur as int).len() && self.sites[self.tree.kids(
                cur as int,
            )[r.0 as int] as int] == *site,
            !r.1 ==> forall|k: int|
                0 <= k < self.tree.kids(cur as int).len() ==> self.tree.key(
                    #[trigger] self.tree.kids(cur as int)[k] as int,
                ) != *site,
            forall|k: int|
                0 <= k < r.0 ==> self.sites[#[trigger] self.tree.kids(cur as int)[k] as int].lt(
                    *site,
                ),
            forall|k: int|
                r.0 <= k < self.tree.kids(cur as int).len() && !r.1 ==> site.lt(
                    self.sites[#[trigger] self.tree.kids(cur as int)[k] as int],
                ),
    {
        let kids = &self.children_of(cur);
        let mut pos: usize = 0;
        assert(self.sorted(cur as int));
        assert forall|k: int| 0 <= k < kids.len() implies 0 < #[trigger] kids[k] < self.tree.size() by {
            assert(self.tree.child_ok(cur as int, k));
        }
        while pos < kids.len() && self.sites[kids[pos]].before(site)
            invariant
                self.wf(),
                cur < self.tree.size(),
                kids@ == self.tree.kids(cur as int),
                pos <= kids.len(),
                forall|k: int| 0 <= k < kids.len() ==> 0 < #[trigger] kids[k] < self.tree.size(),
                forall|k: int| 0 <= k < pos ==> self.sites[#[trigger] kids[k] as int].lt(*site),
            decreases kids.len() - pos,
        {
            pos = pos + 1;
        }
        let found = pos < kids.len() && self.sites[kids[pos]] == *site;
        proof {
            if !found {
                assert forall|k: int| pos <= k < kids.len() implies site.lt(
                    self.sites[#[trigger] kids[k] as int],
                ) by {
                    if k > pos {
                        assert(self.sites[kids[pos as int] as int].lt(self.sites[kids[k] as int]));
                    }
                }
                assert forall|k: int| 0 <= k < kids.len() implies self.tree.key(
                    #[trigger] kids[k] as int,
                ) != *site by {
                    if k < pos {
                        assert(self.sites[kids[k] as int].lt(*site));
                    } else {
                        assert(site.lt(self.sites[kids[k] as int]));
                    }
                }
            }
        }
        (pos, found)
    }

    /// Goes from node `cur` to its child for the call site `site`, making
    /// the child where there is none.
    fn step_down(
        &mut self,
        strings: &Vec<String>,
        cur: usize,
        site: CallSite,
        Ghost(done): Ghost<Seq<ChainRecord>>,
        Ghost(rec): Ghost<ChainRecord>,
        Ghost(k): Ghost<nat>,
    ) -> (child: usize)
        requires
            old(self).midway(strings@, done, rec, k, k as int),
            k < rec.sites.len(),
            cur < old(self).tree.size(),
            old(self).tree.path(cur as int) == rec.sites.take(k as int),
            site == rec.sites[k as int],
            1 <= site.function_idx <= strings.len(),
            site.file_idx <= strings.len(),
        ensures
            final(self).midway(strings@, done, rec, k + 1, k as int),
            child < final(self).tree.size(),
            final(self).tree.path(child as int) == rec.sites.take(k as int + 1),
            final(self).selected_stack_info_id == old(self).selected_stack_info_id,
    {
        let (pos, found) = self.find_child(cur, &site);
        let ghost p = rec.sites.take(k as int + 1);
        let ghost before = *self;
        assert(p =~= self.tree.path(cur as int).push(site));
        if found {
            let child = self.tree.children[cur][pos];
            proof {
                self.tree.lemma_child_path(cur as int, pos as int);
                assert(self.tree.child_ok(cur as int, pos as int));
                assert(self.sites[child as int] == self.tree.key(child as int));
                assert(self.tree.paths@[child as int] == p);
            }
            child
        } else {
            let name = strings[site.function_idx - 1].clone();
            let file_name = if site.file_idx == 0 {
                String::new()
            } else {
                strings[site.file_idx - 1].clone()
            };
            let id = self.tree.add_child(cur, pos, Ghost(site));
            self.infos.push(
                StackInfo {
                    id,
                    name,
                    file_name,
                    line_number: site.line_number,
                    peaked: 0,
                    leaked: 0,
                    allocations: 0,
                    temporary: 0,
                },
            );
            self.sites.push(site);
            proof {
                let old_kids = before.tree.kids(cur as int);
                let new_kids = self.tree.kids(cur as int);
                assert(self.tree.path(id as int) == p);
                assert(self.tree.key(id as int) == site);
                assert forall|j: int| 0 <= j < before.tree.size() implies self.tree.path(j)
                    == before.tree.path(j) && self.infos[j] == before.infos[j] && self.sites[j]
                    == before.sites[j] by {}
                assert forall|j: int| 0 < j < self.tree.size() implies #[trigger] self.sites[j]
                    == self.tree.key(j) by {
                    if j < before.tree.size() {
                        assert(before.sites[j] == before.tree.key(j));
                    }
                }
                assert forall|i: int| 0 <= i < self.tree.size() implies self.sorted(i) by {
                    if i == cur {
                        assert(before.sorted(i));
                        assert forall|k1: int, k2: int|
                            0 <= k1 < k2 < new_kids.len() implies self.sites[#[trigger] new_kids[k1] as int].lt(
                            self.sites[#[trigger] new_kids[k2] as int],
                        ) by {
                            let o1 = if k1 < pos {
                                k1
                            } else {
                                k1 - 1
                            };
                            let o2 = if k2 < pos {
                                k2
                            } else {
                                k2 - 1
                            };
                            if k1 == pos {
                                assert(before.tree.child_ok(i, o2));
                                assert(new_kids[k2] == old_kids[o2]);
                                assert(site.lt(before.sites[old_kids[o2] as int]));
                            } else if k2 == pos {
                                assert(before.tree.child_ok(i, o1));
                                assert(new_kids[k1] == old_kids[o1]);
                                assert(before.sites[old_kids[o1] as int].lt(site));
                            } else {
                                assert(before.tree.child_ok(i, o1));
                                assert(before.tree.child_ok(i, o2));
                                assert(new_kids[k1] == old_kids[o1]);
                                assert(new_kids[k2] == old_kids[o2]);
                            }
                        }
                    } else if i < before.tree.size() {
                        assert(before.sorted(i));
                        assert forall|k1: int, k2: int|
                            0 <= k1 < k2 < self.tree.kids(i).len() implies self.sites[#[trigger] self.tree.kids(
                            i,
                        )[k1] as int].lt(self.sites[#[trigger] self.tree.kids(i)[k2] as int]) by {
                            assert(before.tree.child_ok(i, k1));
                            assert(before.tree.child_ok(i, k2));
                        }
                    }
                }
                assert(self.wf());
                assert forall|j: int| 0 <= j < self.tree.size() implies #[trigger] self.described(
                    strings@,
                    j,
                ) by {
                    if j < before.tree.size() {
                        assert(before.described(strings@, j));
                    }
                }
                lemma_add_prefixes_contains(trie_paths(chains_of(done)), rec.sites, k, p);
                assert forall|j: int, kind: MemoryKind|
                    0 <= j < self.tree.size() implies #[trigger] self.infos[j].spec_metric(kind)
                    == tally(done, self.tree.path(j), kind) + if self.tree.path(j).len() <= k
                    && is_prefix(self.tree.path(j), rec.sites) {
                    rec.data.metric(kind) as int
                } else {
                    0
                } by {
                    if j < before.tree.size() {
                        assert(before.infos[j].spec_metric(kind) == tally(
                            done,
                            before.tree.path(j),
                            kind,
                        ) + if before.tree.path(j).len() <= k && is_prefix(
                            before.tree.path(j),
                            rec.sites,
                        ) {
                            rec.data.metric(kind) as int
                        } else {
                            0
                        });
                    } else {
                        lemma_tally_unreached(done, p, kind);
                    }
                }
            }
            id
        }
    }

    /// Adds the metrics of `rec` to the node at depth `k` of its chain.
    fn count(
        &mut self,
        node: usize,
        data: AllocationData,
        Ghost(strings): Ghost<Seq<String>>,
        Ghost(done): Ghost<Seq<ChainRecord>>,
        Ghost(rec): Ghost<ChainRecord>,
        Ghost(k): Ghost<nat>,
    )
        requires
            old(self).midway(strings, done, rec, k, k - 1),
            k <= rec.sites.len(),
            node < old(self).tree.size(),
            old(self).tree.path(node as int) == rec.sites.take(k as int),
            data == rec.data,
            totals_fit(done.push(rec)),
        ensures
            final(self).midway(strings, done, rec, k, k as int),
            final(self).selected_stack_info_id == old(self).selected_stack_info_id,
    {
        let ghost before = *self;
        proof {
            assert forall|kind: MemoryKind| #[trigger]
                self.infos[node as int].spec_metric(kind) + data.spec_metric(kind)
                    <= u64::MAX by {
                lemma_tally_le_root(done, self.tree.path(node as int), kind);
                lemma_tally_push(done, rec, Seq::empty(), kind);
                assert(rec.sites.take(0) =~= Seq::<CallSite>::empty());
                assert(tally(done.push(rec), Seq::empty(), kind) <= u64::MAX);
            }
        }
        self.infos[node].add(data);
        proof {
            assert forall|j: int| 0 <= j < self.tree.size() && j != node implies self.infos[j]
                == before.infos[j] by {}
            assert(forall|j: int| 0 <= j < self.tree.size() ==> (#[trigger] self.infos[j]).id == j);
            assert forall|i: int| 0 <= i < self.tree.size() implies self.sorted(i) by {
                assert(before.sorted(i));
            }
            assert forall|j: int| 0 <= j < self.tree.size() implies #[trigger] self.described(
                strings,
                j,
            ) by {
                assert(before.described(strings, j));
            }
            assert forall|j: int, kind: MemoryKind|
                0 <= j < self.tree.size() implies #[trigger] self.infos[j].spec_metric(kind)
                == tally(done, self.tree.path(j), kind) + if self.tree.path(j).len() <= k
                && is_prefix(self.tree.path(j), rec.sites) {
                rec.data.metric(kind) as int
            } else {
                0
            } by {
                assert(before.infos[j].spec_metric(kind) == tally(done, before.tree.path(j), kind)
                    + if before.tree.path(j).len() <= k - 1 && is_prefix(
                    before.tree.path(j),
                    rec.sites,
                ) {
                    rec.data.metric(kind) as int
                } else {
                    0
                });
                if j != node {
                    if self.tree.path(j).len() == k && is_prefix(self.tree.path(j), rec.sites) {
                        assert(self.tree.path(j) =~= rec.sites.take(k as int));
                        assert(self.tree.paths@[j] == self.tree.paths@[node as int]);
                    }
                }
            }
        }
    }

    /// Whether the sums at the root leave room for one more allocation.
    fn room_for(&self, data: AllocationData) -> (r: bool)
        requires
            self.infos.len() > 0,
        ensures
            r == forall|kind: MemoryKind| #[trigger]
                self.infos[0].spec_metric(kind) + data.spec_metric(kind) <= u64::MAX,
    {
        let root = &self.infos[0];
        let r = root.peaked.checked_add(data.peak).is_some() && root.leaked.checked_add(
            data.leaked,
        ).is_some() && root.allocations.checked_add(data.allocations).is_some()
            && root.temporary.checked_add(data.temporary).is_some();
        proof {
            if !r {
                assert(!(root.spec_metric(MemoryKind::Peak) + data.spec_metric(MemoryKind::Peak)
                    <= u64::MAX && root.spec_metric(MemoryKind::Leaked) + data.spec_metric(
                    MemoryKind::Leaked,
                ) <= u64::MAX && root.spec_metric(MemoryKind::Allocations) + data.spec_metric(
                    MemoryKind::Allocations,
                ) <= u64::MAX && root.spec_metric(MemoryKind::Temporary) + data.spec_metric(
                    MemoryKind::Temporary,
                ) <= u64::MAX));
            }
        }
        r
    }

    /// Works one more allocation into the tree: its metrics go to the root
    /// and to every node on its chain, and nodes that the chain reaches first
    /// are made.
    fn add_chain(
        &mut self,
        strings: &Vec<String>,
        frames: &Vec<Frame>,
        data: AllocationData,
        Ghost(done): Ghost<Seq<ChainRecord>>,
    ) -> (res: Result<(), TraceError>)
        requires
            old(self).wf(),
            old(self).represents(strings@, done),
            forall|i: int|
                0 <= i < frames.len() ==> frame_error(
                    #[trigger] frames[i],
                    strings.len() as nat,
                ) is None,
        ensures
            final(self).selected_stack_info_id == old(self).selected_stack_info_id,
            match res {
                Ok(()) => {
                    &&& totals_fit(done.push(ChainRecord { sites: call_sites(frames@), data }))
                    &&& final(self).wf()
                    &&& final(self).represents(
                        strings@,
                        done.push(ChainRecord { sites: call_sites(frames@), data }),
                    )
                },
                Err(e) => {
                    &&& e == TraceError::MetricOverflow
                    &&& !totals_fit(done.push(ChainRecord { sites: call_sites(frames@), data }))
                },
            },
    {
        let ghost rec = ChainRecord { sites: call_sites(frames@), data };
        let ghost all = done.push(rec);
        let fits = self.room_for(data);
        proof {
            assert(rec.sites.take(0) =~= Seq::<CallSite>::empty());
            assert forall|kind: MemoryKind|
                tally(all, Seq::empty(), kind) == self.infos[0].spec_metric(kind)
                    + data.spec_metric(kind) by {
                lemma_tally_push(done, rec, Seq::empty(), kind);
                assert(self.tree.path(0) =~= Seq::<CallSite>::empty());
            }
        }
        if !fits {
            proof {
                let kind = choose|kind: MemoryKind|
                    !(#[trigger] self.infos[0].spec_metric(kind) + data.spec_metric(kind)
                        <= u64::MAX);
                assert(!(tally(all, Seq::empty(), kind) <= u64::MAX));
            }
            return Err(TraceError::MetricOverflow);
        }
        assert(totals_fit(all));
        assert(self.tree.path(0) =~= rec.sites.take(0));
        self.count(0, data, Ghost(strings@), Ghost(done), Ghost(rec), Ghost(0));
        let mut cur: usize = 0;
        let mut k: usize = 0;
        let mut file_idx: usize = 0;
        let mut line_number: u32 = 0;
        while k < frames.len()
            invariant
                k <= frames.len(),
                rec == (ChainRecord { sites: call_sites(frames@), data }),
                all == done.push(rec),
                totals_fit(all),
                self.midway(strings@, done, rec, k as nat, k as int),
                cur < self.tree.size(),
                self.tree.path(cur as int) == rec.sites.take(k as int),
                self.selected_stack_info_id == old(self).selected_stack_info_id,
                file_idx == if k == 0 {
                    0
                } else {
                    frames[k - 1].file_idx()
                },
                line_number == if k == 0 {
                    0
                } else {
                    frames[k - 1].line_number()
                },
                forall|i: int|
                    0 <= i < frames.len() ==> frame_error(
                        #[trigger] frames[i],
                        strings.len() as nat,
                    ) is None,
            decreases frames.len() - k,
        {
            let frame = frames[k];
            let site = CallSite { function_idx: frame.function_idx(), file_idx, line_number };
            proof {
                assert(frame_error(frames[k as int], strings.len() as nat) is None);
                if k > 0 {
                    assert(frame_error(frames[k - 1], strings.len() as nat) is None);
                }
                assert(site == rec.sites[k as int]);
            }
            let child = self.step_down(strings, cur, site, Ghost(done), Ghost(rec), Ghost(k as nat));
            self.count(child, data, Ghost(strings@), Ghost(done), Ghost(rec), Ghost((k + 1) as nat));
            file_idx = frame.file_idx();
            line_number = frame.line_number();
            cur = child;
            k = k + 1;
        }
        proof {
            lemma_paths_push(done, rec);
            assert forall|j: int, kind: MemoryKind|
                0 <= j < self.tree.size() implies #[trigger] self.infos[j].spec_metric(kind)
                == tally(all, self.tree.path(j), kind) by {
                lemma_tally_push(done, rec, self.tree.path(j), kind);
            }
        }
        Ok(())
    }

    /// The top-down tree of a profile, with the root selected.
    pub fn new(info: &MemInfo) -> (res: Result<TopDown, TraceError>)
        ensures
            match records_of(info.data, info.data.allocation_infos.len() as nat) {
                Ok(records) => res matches Ok(t) && t.wf() && t.represents(
                    info.data.strings@,
                    records,
                ) && t.selected_stack_info_id == 0,
                Err(e) => res matches Err(f) && f == e,
            },
    {
        make_stack_dirs(info)
    }

    /// Node `j` of this tree and node `m` of `other` stand for the same call
    /// path and hold the same name, call site and sums.
    pub open spec fn twin(&self, j: int, other: &TopDown, m: int) -> bool {
        &&& 0 <= m < other.tree.size()
        &&& other.tree.path(m) == self.tree.path(j)
        &&& (j == 0 <==> m == 0)
        &&& (j > 0 ==> other.sites[m] == self.sites[j])
        &&& other.infos[m].peaked == self.infos[j].peaked
        &&& other.infos[m].leaked == self.infos[j].leaked
        &&& other.infos[m].allocations == self.infos[j].allocations
        &&& other.infos[m].temporary == self.infos[j].temporary
        &&& other.infos[m].name@ == self.infos[j].name@
        &&& other.infos[m].file_name@ == self.infos[j].file_name@
        &&& other.infos[m].line_number == self.infos[j].line_number
    }

    /// Node `j` of this tree has a twin in `other`.
    pub open spec fn has_twin(&self, j: int, other: &TopDown) -> bool {
        exists|m: int| #[trigger] self.twin(j, other, m)
    }

    /// Two trees of the same records, worked in in different orders, differ
    /// only in how their nodes are numbered: they have equally many nodes,
    /// and each node of the one has a twin in the other.
    pub proof fn lemma_same_records_same_tree(
        &self,
        other: &TopDown,
        strings: Seq<String>,
        a: Seq<ChainRecord>,
        b: Seq<ChainRecord>,
    )
        requires
            self.wf(),
            other.wf(),
            self.represents(strings, a),
            other.represents(strings, b),
            a.to_multiset() == b.to_multiset(),
        ensures
            self.tree.size() == other.tree.size(),
            forall|j: int| 0 <= j < self.tree.size() ==> #[trigger] self.has_twin(j, other),
    {
        lemma_order_independent(a, b);
        assert forall|j: int| 0 <= j < self.tree.size() implies #[trigger] self.has_twin(
            j,
            other,
        ) by {
            let p = self.tree.path(j);
            assert(self.tree.paths@.contains(p));
            assert(other.tree.paths@.contains(p));
            let m = choose|m: int| 0 <= m < other.tree.paths@.len() && other.tree.paths@[m] == p;
            assert(other.tree.path(m) == p);
            assert(self.described(strings, j));
            assert(other.described(strings, m));
            if j > 0 {
                assert(self.tree.linked(j));
                assert(m != 0);
                assert(self.sites[j] == self.tree.key(j));
                assert(other.sites[m] == other.tree.key(m));
            } else {
                assert(p.len() == 0);
                if m > 0 {
                    assert(other.tree.linked(m));
                }
            }
            assert(other.infos[m].spec_metric(MemoryKind::Peak) == tally(b, p, MemoryKind::Peak));
            assert(self.infos[j].spec_metric(MemoryKind::Peak) == tally(a, p, MemoryKind::Peak));
            assert(other.infos[m].spec_metric(MemoryKind::Leaked) == tally(
                b,
                p,
                MemoryKind::Leaked,
            ));
            assert(self.infos[j].spec_metric(MemoryKind::Leaked) == tally(a, p, MemoryKind::Leaked));
            assert(other.infos[m].spec_metric(MemoryKind::Allocations) == tally(
                b,
                p,
                MemoryKind::Allocations,
            ));
            assert(self.infos[j].spec_metric(MemoryKind::Allocations) == tally(
                a,
                p,
                MemoryKind::Allocations,
            ));
            assert(other.infos[m].spec_metric(MemoryKind::Temporary) == tally(
                b,
                p,
                MemoryKind::Temporary,
            ));
            assert(self.infos[j].spec_metric(MemoryKind::Temporary) == tally(
                a,
                p,
                MemoryKind::Temporary,
            ));
            assert(self.twin(j, other, m));
        }
    }

    /// What the tree view is told about node `id` and the nodes below it:
    /// a leaf for a node without children, else the node, its children in
    /// their order, and the end of the children.
    pub open spec fn outline_node(&self, id: int) -> Seq<TreeItem>
        decreases self.tree.size() - id, self.tree.kids(id).len() + 1,
    {
        if self.tree.kids(id).len() == 0 {
            seq![TreeItem::Leaf(id as usize)]
        } else {
            seq![TreeItem::Dir(id as usize)] + self.outline_kids(id, 0) + seq![TreeItem::CloseDir]
        }
    }

    /// What the tree view is told about the children of node `id` from the
    /// `k`-th on.
    pub open spec fn outline_kids(&self, id: int, k: nat) -> Seq<TreeItem>
        decreases self.tree.size() - id, self.tree.kids(id).len() - k,
    {
        if k >= self.tree.kids(id).len() {
            Seq::empty()
        } else {
            let c = self.tree.kids(id)[k as int] as int;
            let here = if id < c < self.tree.size() {
                self.outline_node(c)
            } else {
                Seq::empty()
            };
            here + self.outline_kids(id, k + 1)
        }
    }

    /// The selection after one action: a report of exactly one node that the
    /// tree has selects it, any other action changes nothing.
    pub open spec fn selection_after(&self, selected: usize, action: Action) -> usize {
        match action {
            Action::SetSelected(ids) => if ids@.len() == 1 && ids@[0] < self.tree.size() {
                ids@[0]
            } else {
                selected
            },
            _ => selected,
        }
    }

    /// The selection after the first `n` of the actions.
    pub open spec fn selection_after_all(&self, selected: usize, actions: Seq<Action>, n: nat) -> usize
        decreases n,
    {
        if n == 0 {
            selected
        } else {
            self.selection_after(
                self.selection_after_all(selected, actions, (n - 1) as nat),
                actions[n - 1],
            )
        }
    }

    /// Tells `view` about node `node` and the nodes below it.
    pub fn show_node(&self, view: &mut Vec<TreeItem>, node: usize)
        requires
            self.wf(),
            node < self.tree.size(),
        ensures
            final(view)@ == old(view)@ + self.outline_node(node as int),
        decreases self.tree.size() - node,
    {
        let kids = &self.tree.children[node];
        if kids.len() == 0 {
            view.push(TreeItem::Leaf(node));
            assert(view@ =~= old(view)@ + self.outline_node(node as int));
        } else {
            view.push(TreeItem::Dir(node));
            let ghost whole = old(view)@ + self.outline_node(node as int);
            let mut k: usize = 0;
            assert(whole =~= view@ + self.outline_kids(node as int, 0) + seq![TreeItem::CloseDir]);
            while k < kids.len()
                invariant
                    self.wf(),
                    node < self.tree.size(),
                    kids@ == self.tree.kids(node as int),
                    k <= kids.len(),
                    whole == view@ + self.outline_kids(node as int, k as nat) + seq![
                        TreeItem::CloseDir,
                    ],
                decreases kids.len() - k,
            {
                let c = kids[k];
                assert(self.tree.child_ok(node as int, k as int));
                let ghost rest = self.outline_kids(node as int, (k + 1) as nat);
                let ghost before = view@;
                self.show_node(view, c);
                assert(whole =~= view@ + rest + seq![TreeItem::CloseDir]) by {
                    assert(view@ == before + self.outline_node(c as int));
                    assert(self.outline_kids(node as int, k as nat) == self.outline_node(c as int)
                        + rest);
                }
                k = k + 1;
            }
            view.push(TreeItem::CloseDir);
            assert(whole =~= view@);
        }
    }

    /// The node with the number `id`, if the tree has it.
    pub fn get(&self, id: usize) -> (info: Option<&StackInfo>)
        requires
            self.wf(),
        ensures
            match info {
                Some(info) => id < self.tree.size() && *info == self.infos[id as int],
                None => id >= self.tree.size(),
            },
    {
        if id < self.infos.len() {
            Some(&self.infos[id])
        } else {
            None
        }
    }

    /// The selected node.
    pub fn selected(&self) -> (info: &StackInfo)
        requires
            self.wf(),
        ensures
            *info == self.infos[self.selected_stack_info_id as int],
            info.id == self.selected_stack_info_id,
    {
        &self.infos[self.selected_stack_info_id]
    }

    /// Selects the node with the number `id`, if the tree has it.
    pub fn select(&mut self, id: usize) -> (known: bool)
        requires
            old(self).wf(),
        ensures
            final(self).wf(),
            known == (id < old(self).tree.size()),
            final(self).selected_stack_info_id == if known {
                id
            } else {
                old(self).selected_stack_info_id
            },
            final(self).tree == old(self).tree,
            final(self).infos == old(self).infos,
            final(self).sites == old(self).sites,
    {
        if id < self.infos.len() {
            self.selected_stack_info_id = id;
            proof {
                assert forall|i: int| 0 <= i < self.tree.size() implies self.sorted(i) by {
                    assert(old(self).sorted(i));
                }
            }
            true
        } else {
            false
        }
    }

    /// One round of the tree view: takes in what the view reported, then
    /// tells the view the whole tree, from the root down.
    pub fn show(&mut self, actions: &Vec<Action>) -> (view: Vec<TreeItem>)
        requires
            old(self).wf(),
        ensures
            final(self).wf(),
            final(self).tree == old(self).tree,
            final(self).infos == old(self).infos,
            final(self).sites == old(self).sites,
            final(self).selected_stack_info_id == old(self).selection_after_all(
                old(self).selected_stack_info_id,
                actions@,
                actions.len() as nat,
            ),
            view@ == old(self).outline_node(0),
    {
        let mut i: usize = 0;
        while i < actions.len()
            invariant
                i <= actions.len(),
                self.wf(),
                self.tree == old(self).tree,
                self.infos == old(self).infos,
                self.sites == old(self).sites,
                self.selected_stack_info_id == old(self).selection_after_all(
                    old(self).selected_stack_info_id,
                    actions@,
                    i as nat,
                ),
            decreases actions.len() - i,
        {
            match &actions[i] {
                Action::SetSelected(ids) => {
                    if ids.len() == 1 {
                        self.select(ids[0]);
                    }
                },
                _ => {},
            }
            i = i + 1;
        }
        let mut view: Vec<TreeItem> = Vec::new();
        self.show_node(&mut view, 0);
        proof {
            self.lemma_outline_same(old(self), 0);
            assert(view@ =~= old(self).outline_node(0));
        }
        view
    }

    /// Two trees with the same shape are told the same way.
    pub proof fn lemma_outline_same(&self, other: &TopDown, id: int)
        requires
            self.tree == other.tree,
        ensures
            self.outline_node(id) == other.outline_node(id),
        decreases self.tree.size() - id, self.tree.kids(id).len() + 1,
    {
        if self.tree.kids(id).len() > 0 {
            self.lemma_outline_kids_same(other, id, 0);
        }
    }

    /// Two trees with the same shape are told the same way.
    pub proof fn lemma_outline_kids_same(&self, other: &TopDown, id: int, k: nat)
        requires
            self.tree == other.tree,
        ensures
            self.outline_kids(id, k) == other.outline_kids(id, k),
        decreases self.tree.size() - id, self.tree.kids(id).len() - k,
    {
        if k < self.tree.kids(id).len() {
            let c = self.tree.kids(id)[k as int] as int;
            if id < c < self.tree.size() {
                self.lemma_outline_same(other, c);
            }
            self.lemma_outline_kids_same(other, id, k + 1);
        }
    }

    /// The children of node `id`, in their order.
    pub fn children_of(&self, id: usize) -> (kids: &Vec<usize>)
        requires
            self.wf(),
            id < self.tree.size(),
        ensures
            kids@ == self.tree.kids(id as int),
    {
        &self.tree.children[id]
    }
}

/// The top-down tree of a profile: the chains of its sampled events, in
/// their order, merged by call site, with the root selected. A defect in
/// the tables, or a sum that leaves 64 bits, stops the work.
pub fn make_stack_dirs(info: &MemInfo) -> (res: Result<TopDown, TraceError>)
    ensures
        match records_of(info.data, info.data.allocation_infos.len() as nat) {
            Ok(records) => res matches Ok(t) && t.wf() && t.represents(
                info.data.strings@,
                records,
            ) && t.selected_stack_info_id == 0,
            Err(e) => res matches Err(f) && f == e,
        },
{
    let graph = &info.data;
    let mut t = TopDown::empty();
    let ghost mut done = Seq::<ChainRecord>::empty();
    let mut i: usize = 0;
    while i < graph.allocation_infos.len()
        invariant
            i <= graph.allocation_infos.len(),
            *graph == info.data,
            records_of(*graph, i as nat) == Ok::<Seq<ChainRecord>, TraceError>(done),
            t.wf(),
            t.represents(graph.strings@, done),
            t.selected_stack_info_id == 0,
        decreases graph.allocation_infos.len() - i,
    {
        let event = graph.allocation_infos[i];
        if event.allocation_idx == 0 || event.allocation_idx > graph.allocations.len() as u64 {
            proof {
                lemma_records_error(*graph, i as nat + 1, graph.allocation_infos.len() as nat);
            }
            return Err(TraceError::AllocationIndex(event.allocation_idx));
        }
        let allocation = graph.allocations[(event.allocation_idx - 1) as usize];
        proof {
            lemma_chain_len(*graph, allocation.trace_idx);
        }
        let frames = match reconstruct(graph, allocation.trace_idx) {
            Ok(frames) => frames,
            Err(e) => {
                proof {
                    lemma_records_error(
                        *graph,
                        i as nat + 1,
                        graph.allocation_infos.len() as nat,
                    );
                }
                return Err(e);
            },
        };
        match t.add_chain(&graph.strings, &frames, allocation.data, Ghost(done)) {
            Ok(()) => {},
            Err(e) => {
                proof {
                    lemma_records_error(
                        *graph,
                        i as nat + 1,
                        graph.allocation_infos.len() as nat,
                    );
                }
                return Err(e);
            },
        }
        proof {
            done = done.push(ChainRecord { sites: call_sites(frames@), data: allocation.data });
        }
        i = i + 1;
    }
    Ok(t)
}

} // verus!
