//! The mathematics of a tree that merges chains by their common prefixes.
//!
//! A chain is a sequence of keys. The tree of a list of chains has one node
//! for every prefix of a chain, the root standing for the empty prefix; nodes
//! are numbered in the order in which the chains first reach them.

use vstd::prelude::*;

verus! {

/// Whether `p` is the beginning of `c`.
pub open spec fn is_prefix<K>(p: Seq<K>, c: Seq<K>) -> bool {
    p.len() <= c.len() && c.take(p.len() as int) =~= p
}

/// `paths`, then the prefixes of `c` of lengths 1 to `k` that it lacks, shortest first.
pub open spec fn add_prefixes<K>(paths: Seq<Seq<K>>, c: Seq<K>, k: nat) -> Seq<Seq<K>>
    decreases k,
{
    if k == 0 {
        paths
    } else {
        let before = add_prefixes(paths, c, (k - 1) as nat);
        let p = c.take(k as int);
        if before.contains(p) {
            before
        } else {
            before.push(p)
        }
    }
}

/// The paths of the nodes of the tree of `chains`, by node number.
pub open spec fn trie_paths<K>(chains: Seq<Seq<K>>) -> Seq<Seq<K>>
    decreases chains.len(),
{
    if chains.len() == 0 {
        seq![Seq::<K>::empty()]
    } else {
        add_prefixes(trie_paths(chains.drop_last()), chains.last(), chains.last().len())
    }
}

/// The sum of `f` over the items of `s`.
pub open spec fn sum_by<R>(s: Seq<R>, f: spec_fn(R) -> int) -> int
    decreases s.len(),
{
    if s.len() == 0 {
        0
    } else {
        sum_by(s.drop_last(), f) + f(s.last())
    }
}

/// Adding the prefixes of a chain keeps every path at its number.
pub proof fn lemma_add_prefixes_extends<K>(paths: Seq<Seq<K>>, c: Seq<K>, k: nat)
    ensures
        paths.len() <= add_prefixes(paths, c, k).len(),
        forall|i: int| 0 <= i < paths.len() ==> add_prefixes(paths, c, k)[i] == paths[i],
    decreases k,
{
    if k > 0 {
        lemma_add_prefixes_extends(paths, c, (k - 1) as nat);
    }
}

/// What the paths hold after the prefixes of a chain were added: what they
/// held, and those prefixes.
pub proof fn lemma_add_prefixes_contains<K>(paths: Seq<Seq<K>>, c: Seq<K>, k: nat, p: Seq<K>)
    requires
        k <= c.len(),
    ensures
        add_prefixes(paths, c, k).contains(p) <==> paths.contains(p) || (1 <= p.len() <= k
            && is_prefix(p, c)),
    decreases k,
{
    if k > 0 {
        let before = add_prefixes(paths, c, (k - 1) as nat);
        let q = c.take(k as int);
        lemma_add_prefixes_contains(paths, c, (k - 1) as nat, p);
        assert(p == q <==> (p.len() == k && is_prefix(p, c))) by {
            if p.len() == k && is_prefix(p, c) {
                assert(p =~= q);
            }
        }
        if before.contains(q) {
        } else {
            assert(before.push(q).contains(p) <==> before.contains(p) || p == q) by {
                if before.contains(p) {
                    let i = choose|i: int| 0 <= i < before.len() && before[i] == p;
                    assert(before.push(q)[i] == p);
                }
                if p == q {
                    assert(before.push(q)[before.len() as int] == p);
                }
            }
        }
    }
}

/// Adding the prefixes of a chain brings no path in twice.
pub proof fn lemma_add_prefixes_no_duplicates<K>(paths: Seq<Seq<K>>, c: Seq<K>, k: nat)
    requires
        paths.no_duplicates(),
    ensures
        add_prefixes(paths, c, k).no_duplicates(),
    decreases k,
{
    if k > 0 {
        lemma_add_prefixes_no_duplicates(paths, c, (k - 1) as nat);
    }
}

/// The root is node 0, and no path stands for two nodes.
pub proof fn lemma_trie_paths_shape<K>(chains: Seq<Seq<K>>)
    ensures
        trie_paths(chains).len() >= 1,
        trie_paths(chains)[0] == Seq::<K>::empty(),
        trie_paths(chains).no_duplicates(),
    decreases chains.len(),
{
    if chains.len() > 0 {
        lemma_trie_paths_shape(chains.drop_last());
        let before = trie_paths(chains.drop_last());
        lemma_add_prefixes_extends(before, chains.last(), chains.last().len());
        lemma_add_prefixes_no_duplicates(before, chains.last(), chains.last().len());
    }
}

/// The tree has a node for a path exactly if the path is empty or begins one
/// of the chains.
pub proof fn lemma_trie_paths_contains<K>(chains: Seq<Seq<K>>, p: Seq<K>)
    ensures
        trie_paths(chains).contains(p) <==> p.len() == 0 || exists|i: int|
            0 <= i < chains.len() && is_prefix(p, #[trigger] chains[i]),
    decreases chains.len(),
{
    if chains.len() == 0 {
        let root = seq![Seq::<K>::empty()];
        if p.len() == 0 {
            assert(p =~= Seq::<K>::empty());
            assert(root[0] == p);
        }
    } else {
        let rest = chains.drop_last();
        let before = trie_paths(rest);
        lemma_trie_paths_contains(rest, p);
        lemma_add_prefixes_contains(before, chains.last(), chains.last().len(), p);
        if trie_paths(chains).contains(p) && p.len() > 0 {
            if before.contains(p) {
                let i = choose|i: int| 0 <= i < rest.len() && is_prefix(p, #[trigger] rest[i]);
                assert(chains[i] == rest[i]);
            } else {
                assert(is_prefix(p, chains[chains.len() - 1]));
            }
        }
        if p.len() > 0 && exists|i: int| 0 <= i < chains.len() && is_prefix(p, #[trigger] chains[i]) {
            let i = choose|i: int| 0 <= i < chains.len() && is_prefix(p, #[trigger] chains[i]);
            if i < rest.len() {
                assert(rest[i] == chains[i]);
            }
        }
    }
}

/// Two lists that hold the same chains give trees with the same paths, and so
/// with equally many nodes, in whatever order the chains stand.
pub proof fn lemma_trie_paths_same_chains<K>(a: Seq<Seq<K>>, b: Seq<Seq<K>>)
    requires
        forall|c: Seq<K>| a.contains(c) <==> b.contains(c),
    ensures
        forall|p: Seq<K>| trie_paths(a).contains(p) <==> trie_paths(b).contains(p),
        trie_paths(a).len() == trie_paths(b).len(),
{
    assert forall|p: Seq<K>| trie_paths(a).contains(p) <==> trie_paths(b).contains(p) by {
        lemma_trie_paths_contains(a, p);
        lemma_trie_paths_contains(b, p);
        if p.len() > 0 && trie_paths(a).contains(p) {
            let i = choose|i: int| 0 <= i < a.len() && is_prefix(p, #[trigger] a[i]);
            assert(a.contains(a[i]));
            let j = choose|j: int| 0 <= j < b.len() && b[j] == a[i];
            assert(is_prefix(p, b[j]));
        }
        if p.len() > 0 && trie_paths(b).contains(p) {
            let i = choose|i: int| 0 <= i < b.len() && is_prefix(p, #[trigger] b[i]);
            assert(b.contains(b[i]));
            let j = choose|j: int| 0 <= j < a.len() && a[j] == b[i];
            assert(is_prefix(p, a[j]));
        }
    }
    lemma_trie_paths_shape(a);
    lemma_trie_paths_shape(b);
    trie_paths(a).unique_seq_to_set();
    trie_paths(b).unique_seq_to_set();
    assert(trie_paths(a).to_set() =~= trie_paths(b).to_set());
}

/// Adding the prefixes of a chain that are all there changes nothing.
pub proof fn lemma_add_prefixes_present<K>(paths: Seq<Seq<K>>, c: Seq<K>, k: nat)
    requires
        k <= c.len(),
        forall|m: int| 1 <= m <= k ==> paths.contains(#[trigger] c.take(m)),
    ensures
        add_prefixes(paths, c, k) == paths,
    decreases k,
{
    if k > 0 {
        lemma_add_prefixes_present(paths, c, (k - 1) as nat);
        assert(paths.contains(c.take(k as int)));
    }
}

/// Chains that the list holds already, added once more behind it, leave the
/// tree as it is, node numbers included.
pub proof fn lemma_trie_paths_absorb<K>(x: Seq<Seq<K>>, y: Seq<Seq<K>>)
    requires
        forall|i: int| 0 <= i < y.len() ==> x.contains(#[trigger] y[i]),
    ensures
        trie_paths(x + y) == trie_paths(x),
    decreases y.len(),
{
    if y.len() == 0 {
        assert(x + y =~= x);
    } else {
        let rest = y.drop_last();
        assert forall|i: int| 0 <= i < rest.len() implies x.contains(#[trigger] rest[i]) by {
            assert(rest[i] == y[i]);
        }
        lemma_trie_paths_absorb(x, rest);
        assert((x + y).drop_last() =~= x + rest);
        assert((x + y).last() == y.last());
        let c = y.last();
        assert(x.contains(y[y.len() - 1]));
        let j = choose|j: int| 0 <= j < x.len() && x[j] == c;
        assert forall|m: int| 1 <= m <= c.len() implies trie_paths(x).contains(
            #[trigger] c.take(m),
        ) by {
            lemma_trie_paths_contains(x, c.take(m));
            assert(is_prefix(c.take(m), x[j])) by {
                assert(x[j].take(c.take(m).len() as int) =~= c.take(m));
            }
        }
        lemma_add_prefixes_present(trie_paths(x), c, c.len());
    }
}

/// The sum over a list with one more item.
pub proof fn lemma_sum_by_push<R>(s: Seq<R>, x: R, f: spec_fn(R) -> int)
    ensures
        sum_by(s.push(x), f) == sum_by(s, f) + f(x),
{
    assert(s.push(x).drop_last() =~= s);
}

/// The sum over two lists, one after the other.
pub proof fn lemma_sum_by_concat<R>(a: Seq<R>, b: Seq<R>, f: spec_fn(R) -> int)
    ensures
        sum_by(a + b, f) == sum_by(a, f) + sum_by(b, f),
    decreases b.len(),
{
    if b.len() == 0 {
        assert(a + b =~= a);
    } else {
        lemma_sum_by_concat(a, b.drop_last(), f);
        assert((a + b).drop_last() =~= a + b.drop_last());
    }
}

/// The sum over a list from which one item was taken out.
pub proof fn lemma_sum_by_remove<R>(s: Seq<R>, i: int, f: spec_fn(R) -> int)
    requires
        0 <= i < s.len(),
    ensures
        sum_by(s.remove(i), f) == sum_by(s, f) - f(s[i]),
{
    let front = s.take(i);
    let back = s.skip(i + 1);
    assert(s.remove(i) =~= front + back);
    assert(s =~= front.push(s[i]) + back);
    lemma_sum_by_concat(front, back, f);
    lemma_sum_by_concat(front.push(s[i]), back, f);
    lemma_sum_by_push(front, s[i], f);
}

/// The sum over a list does not depend on the order of its items.
pub proof fn lemma_sum_by_permutation<R>(a: Seq<R>, b: Seq<R>, f: spec_fn(R) -> int)
    requires
        a.to_multiset() == b.to_multiset(),
    ensures
        sum_by(a, f) == sum_by(b, f),
    decreases a.len(),
{
    broadcast use vstd::seq_lib::group_to_multiset_ensures;

    assert(a.len() == b.len()) by {
        vstd::seq_lib::to_multiset_len(a);
        vstd::seq_lib::to_multiset_len(b);
    }
    if a.len() > 0 {
        let x = a.last();
        assert(a.contains(x));
        assert(b.to_multiset().count(x) > 0);
        assert(b.contains(x));
        let j = choose|j: int| 0 <= j < b.len() && b[j] == x;
        assert(a.drop_last() =~= a.remove(a.len() - 1));
        assert(a.drop_last().to_multiset() =~= b.remove(j).to_multiset());
        lemma_sum_by_permutation(a.drop_last(), b.remove(j), f);
        lemma_sum_by_remove(b, j, f);
    }
}

/// The sum of two functions is the sum of their sums.
pub proof fn lemma_sum_by_add<R>(
    s: Seq<R>,
    f: spec_fn(R) -> int,
    g: spec_fn(R) -> int,
    h: spec_fn(R) -> int,
)
    requires
        forall|i: int| 0 <= i < s.len() ==> h(#[trigger] s[i]) == f(s[i]) + g(s[i]),
    ensures
        sum_by(s, h) == sum_by(s, f) + sum_by(s, g),
    decreases s.len(),
{
    if s.len() > 0 {
        assert(forall|i: int| 0 <= i < s.drop_last().len() ==> s.drop_last()[i] == s[i]);
        lemma_sum_by_add(s.drop_last(), f, g, h);
    }
}

/// A sum of items that are nowhere larger is not larger.
pub proof fn lemma_sum_by_le<R>(s: Seq<R>, f: spec_fn(R) -> int, g: spec_fn(R) -> int)
    requires
        forall|i: int| 0 <= i < s.len() ==> f(#[trigger] s[i]) <= g(s[i]),
    ensures
        sum_by(s, f) <= sum_by(s, g),
    decreases s.len(),
{
    if s.len() > 0 {
        assert(forall|i: int| 0 <= i < s.drop_last().len() ==> s.drop_last()[i] == s[i]);
        lemma_sum_by_le(s.drop_last(), f, g);
    }
}

/// A sum of items that are all zero is zero.
pub proof fn lemma_sum_by_zero<R>(s: Seq<R>, f: spec_fn(R) -> int)
    requires
        forall|i: int| 0 <= i < s.len() ==> f(#[trigger] s[i]) == 0,
    ensures
        sum_by(s, f) == 0,
    decreases s.len(),
{
    if s.len() > 0 {
        assert(forall|i: int| 0 <= i < s.drop_last().len() ==> s.drop_last()[i] == s[i]);
        lemma_sum_by_zero(s.drop_last(), f);
    }
}

/// A sum of items that are nowhere negative is not negative.
pub proof fn lemma_sum_by_nonnegative<R>(s: Seq<R>, f: spec_fn(R) -> int)
    requires
        forall|i: int| 0 <= i < s.len() ==> 0 <= f(#[trigger] s[i]),
    ensures
        0 <= sum_by(s, f),
    decreases s.len(),
{
    if s.len() > 0 {
        assert(forall|i: int| 0 <= i < s.drop_last().len() ==> s.drop_last()[i] == s[i]);
        lemma_sum_by_nonnegative(s.drop_last(), f);
    }
}

} // verus!
