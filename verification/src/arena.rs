//! A tree held in one table: nodes are numbered, node 0 is the root, and a
//! node's parent and children are numbers into the same table.

use vstd::prelude::*;

verus! {

/// The shape of a tree whose nodes are told apart by the keys on the way from
/// the root. The keys themselves live with whoever owns the tree; here each
/// node only knows its path.
pub struct Tree<K> {
    /// The parent of each node; the root is its own parent.
    pub parents: Vec<usize>,
    /// The children of each node, in the order their owner keeps.
    pub children: Vec<Vec<usize>>,
    /// The keys from the root to each node.
    pub paths: Ghost<Seq<Seq<K>>>,
}

impl<K> Tree<K> {
    /// How many nodes the tree has.
    pub open spec fn size(&self) -> nat {
        self.parents@.len()
    }

    /// The keys from the root to node `j`.
    pub open spec fn path(&self, j: int) -> Seq<K> {
        self.paths@[j]
    }

    /// The key that leads from the parent of node `j` to it.
    pub open spec fn key(&self, j: int) -> K {
        self.paths@[j].last()
    }

    /// The children of node `i`.
    pub open spec fn kids(&self, i: int) -> Seq<usize> {
        self.children@[i]@
    }

    /// Node `j` hangs under an earlier node, one key further down, and that
    /// node lists it.
    pub open spec fn linked(&self, j: int) -> bool {
        &&& self.parents@[j] < j
        &&& self.path(j).len() > 0
        &&& self.path(j).drop_last() == self.path(self.parents@[j] as int)
        &&& self.kids(self.parents@[j] as int).contains(j as usize)
    }

    /// The `k`-th child of node `i` is a later node that names `i` as parent.
    pub open spec fn child_ok(&self, i: int, k: int) -> bool {
        let c = self.kids(i)[k];
        i < c < self.size() && self.parents@[c as int] == i
    }

    /// No two children of node `i` are reached by the same key.
    pub open spec fn distinct_keys(&self, i: int) -> bool {
        forall|k1: int, k2: int|
            0 <= k1 < k2 < self.kids(i).len() ==> self.key(#[trigger] self.kids(i)[k1] as int)
                != self.key(#[trigger] self.kids(i)[k2] as int)
    }

    /// The table describes a tree, and no two nodes have the same path.
    pub open spec fn wf(&self) -> bool {
        &&& self.parents@.len() >= 1
        &&& self.children@.len() == self.parents@.len()
        &&& self.paths@.len() == self.parents@.len()
        &&& self.path(0).len() == 0
        &&& self.parents@[0] == 0
        &&& self.paths@.no_duplicates()
        &&& forall|j: int| 0 < j < self.size() ==> self.linked(j)
        &&& forall|i: int, k: int|
            0 <= i < self.size() && 0 <= k < self.kids(i).len() ==> self.child_ok(i, k)
        &&& forall|i: int| 0 <= i < self.size() ==> self.distinct_keys(i)
    }

    /// A tree of the root alone.
    pub fn new() -> (tree: Self)
        ensures
            tree.wf(),
            tree.size() == 1,
            tree.paths@ == seq![Seq::<K>::empty()],
            tree.kids(0).len() == 0,
    {
        let mut parents: Vec<usize> = Vec::new();
        parents.push(0);
        let mut children: Vec<Vec<usize>> = Vec::new();
        children.push(Vec::new());
        let paths: Ghost<Seq<Seq<K>>> = Ghost(Seq::<Seq<K>>::empty().push(Seq::<K>::empty()));
        let tree = Tree { parents, children, paths };
        assert(tree.paths@ =~= seq![Seq::<K>::empty()]);
        tree
    }

    /// A key that none of a node's children has leads to a path that no node has.
    pub proof fn lemma_fresh_path(&self, cur: int, key: K)
        requires
            self.wf(),
            0 <= cur < self.size(),
            forall|k: int|
                0 <= k < self.kids(cur).len() ==> self.key(#[trigger] self.kids(cur)[k] as int)
                    != key,
        ensures
            !self.paths@.contains(self.path(cur).push(key)),
    {
        let p = self.path(cur).push(key);
        if self.paths@.contains(p) {
            let j = choose|j: int| 0 <= j < self.paths@.len() && self.paths@[j] == p;
            assert(j != 0);
            assert(self.linked(j));
            assert(p.drop_last() =~= self.path(cur));
            let parent = self.parents@[j] as int;
            assert(self.paths@[parent] == self.paths@[cur]);
            assert(parent == cur);
            assert(j <= usize::MAX) by {
                assert(self.parents.len() == self.parents@.len());
            }
            let k = choose|k: int| 0 <= k < self.kids(cur).len() && self.kids(cur)[k] == j as usize;
            assert(self.key(self.kids(cur)[k] as int) == key);
        }
    }

    /// The child of `cur` that `key` leads to, where there is one, has the
    /// path of `cur` with `key` behind it.
    pub proof fn lemma_child_path(&self, cur: int, k: int)
        requires
            self.wf(),
            0 <= cur < self.size(),
            0 <= k < self.kids(cur).len(),
        ensures
            self.path(self.kids(cur)[k] as int) == self.path(cur).push(
                self.key(self.kids(cur)[k] as int),
            ),
            self.path(self.kids(cur)[k] as int).len() == self.path(cur).len() + 1,
    {
        let c = self.kids(cur)[k] as int;
        assert(self.child_ok(cur, k));
        assert(self.linked(c));
        assert(self.path(c) =~= self.path(c).drop_last().push(self.path(c).last()));
    }

    /// Hangs a new node under `cur`, as the child at place `pos`, for a key
    /// that no child of `cur` has yet. The new node gets the next number.
    pub fn add_child(&mut self, cur: usize, pos: usize, Ghost(key): Ghost<K>) -> (id: usize)
        requires
            old(self).wf(),
            cur < old(self).size(),
            pos <= old(self).kids(cur as int).len(),
            forall|k: int|
                0 <= k < old(self).kids(cur as int).len() ==> old(self).key(
                    #[trigger] old(self).kids(cur as int)[k] as int,
                ) != key,
        ensures
            final(self).wf(),
            id == old(self).size(),
            !old(self).paths@.contains(old(self).path(cur as int).push(key)),
            final(self).paths@ == old(self).paths@.push(old(self).path(cur as int).push(key)),
            final(self).parents@ == old(self).parents@.push(cur),
            final(self).children@.len() == old(self).children@.len() + 1,
            final(self).kids(cur as int) == old(self).kids(cur as int).insert(pos as int, id),
            final(self).kids(id as int).len() == 0,
            forall|i: int|
                0 <= i < old(self).size() && i != cur ==> final(self).kids(i) == old(self).kids(i),
    {
        let id: usize = self.parents.len();
        let ghost before = *self;
        let ghost p = self.path(cur as int).push(key);
        proof {
            self.lemma_fresh_path(cur as int, key);
        }
        self.parents.push(cur);
        self.children.push(Vec::new());
        self.children[cur].insert(pos, id);
        self.paths = Ghost(self.paths@.push(p));
        proof {
            let old_kids = before.kids(cur as int);
            let new_kids = self.kids(cur as int);
            assert(new_kids == old_kids.insert(pos as int, id));
            assert forall|i: int| 0 <= i < before.size() && i != cur implies self.kids(i)
                == before.kids(i) by {}
            assert forall|j: int| 0 <= j < before.size() implies self.path(j) == before.path(
                j,
            ) && self.parents@[j] == before.parents@[j] by {}
            assert(self.path(id as int) == p);
            assert(p.drop_last() =~= before.path(cur as int));
            assert(p.last() == key);
            // every old child of `cur` is still listed, one place further where it stood behind `pos`
            assert forall|k: int| 0 <= k < old_kids.len() implies new_kids[if k < pos {
                k
            } else {
                k + 1
            }] == old_kids[k] by {}
            assert forall|j: int| 0 < j < self.size() implies self.linked(j) by {
                if j < before.size() {
                    assert(before.linked(j));
                    let parent = before.parents@[j] as int;
                    if parent == cur {
                        let k = choose|k: int| 0 <= k < old_kids.len() && old_kids[k] == j as usize;
                        assert(new_kids[if k < pos {
                            k
                        } else {
                            k + 1
                        }] == j as usize);
                    } else {
                        assert(self.kids(parent) == before.kids(parent));
                    }
                } else {
                    assert(new_kids[pos as int] == id);
                }
            }
            assert forall|i: int, k: int|
                0 <= i < self.size() && 0 <= k < self.kids(i).len() implies self.child_ok(i, k) by {
                if i == cur {
                    if k < pos {
                        assert(before.child_ok(i, k));
                    } else if k > pos {
                        assert(before.child_ok(i, k - 1));
                    }
                } else if i < before.size() {
                    assert(before.child_ok(i, k));
                }
            }
            assert forall|i: int| 0 <= i < self.size() implies self.distinct_keys(i) by {
                if i == cur {
                    assert(before.distinct_keys(i));
                    assert forall|k1: int, k2: int| 0 <= k1 < k2 < new_kids.len() implies self.key(
                        #[trigger] new_kids[k1] as int,
                    ) != self.key(#[trigger] new_kids[k2] as int) by {
                        let o1 = if k1 < pos {
                            k1
                        } else {
                            k1 - 1
                        };
                        let o2 = if k2 < pos {
                            k2
                        } else {
                            k2 - 1
                        };
                        if k1 == pos {
                            assert(before.child_ok(i, o2));
                            assert(new_kids[k2] == old_kids[o2]);
                        } else if k2 == pos {
                            assert(before.child_ok(i, o1));
                            assert(new_kids[k1] == old_kids[o1]);
                        } else {
                            assert(before.child_ok(i, o1));
                            assert(before.child_ok(i, o2));
                            assert(new_kids[k1] == old_kids[o1]);
                            assert(new_kids[k2] == old_kids[o2]);
                        }
                    }
                } else if i < before.size() {
                    assert(before.distinct_keys(i));
                    assert forall|k1: int, k2: int|
                        0 <= k1 < k2 < self.kids(i).len() implies self.key(
                        #[trigger] self.kids(i)[k1] as int,
                    ) != self.key(#[trigger] self.kids(i)[k2] as int) by {
                        assert(before.child_ok(i, k1));
                        assert(before.child_ok(i, k2));
                    }
                }
            }
        }
        id
    }
}

} // verus!
