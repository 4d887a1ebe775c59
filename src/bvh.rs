//! The shape of the bounding-volume hierarchy over instances: leaves in
//! Morton order, paired bottom-up into a binary tree.
//!
//! Node 0 is an empty sentinel. Nodes `1..=m`, with `m = ceil(n / 2)`, each
//! join two consecutive leaves (the last one a single leaf when `n` is
//! odd, its right link then 0, the sentinel). After them, the nodes join
//! the oldest two nodes that have no parent yet, until one is left: the
//! root. A link with the top bit set is an index into the leaf array.
use vstd::prelude::*;
use vstd::multiset::Multiset;

verus! {

/// Marks a link as an index into the leaf array.
pub const LEAF_BIT: u32 = 0x8000_0000;

/// The two child links of a hierarchy node.
#[derive(Debug, Clone, Copy)]
pub struct BvhLinks {
    pub left: u32,
    pub right: u32,
}

/// The hierarchy's shape: node links, the root's index, and for each leaf
/// the index of the instance it holds.
pub struct BvhTopology {
    pub root: u32,
    pub nodes: Vec<BvhLinks>,
    pub leaf_order: Vec<usize>,
}

/// `(key, index)` pairs in ascending lexicographic order.
pub open spec fn pair_lt(a: (u64, usize), b: (u64, usize)) -> bool {
    a.0 < b.0 || (a.0 == b.0 && a.1 < b.1)
}

pub open spec fn pairs_sorted(s: Seq<(u64, usize)>) -> bool {
    forall|i: int, j: int| 0 <= i < j < s.len() ==> !pair_lt(#[trigger] s[j], #[trigger] s[i])
}

/// Relies on `slice::sort`: sorts in ascending order, tuples comparing by
/// their first field and then their second; the items are permuted.
#[verifier::external_body]
fn sort_pairs(v: &mut Vec<(u64, usize)>)
    ensures
        final(v)@.to_multiset() == old(v)@.to_multiset(),
        pairs_sorted(final(v)@),
{
    v.sort();
}

/// `order` lists the instances `0..keys.len()` by ascending key, equal
/// keys in their given order.
pub open spec fn is_morton_order(order: Seq<usize>, keys: Seq<u64>) -> bool {
    &&& order.len() == keys.len()
    &&& forall|i: int| 0 <= i < order.len() ==> #[trigger] order[i] < keys.len()
    &&& forall|i: int, j: int|
        0 <= i < j < order.len() ==> pair_lt(
            (keys[#[trigger] order[i] as int], order[i]),
            (keys[#[trigger] order[j] as int], order[j]),
        )
}

/// Number of nodes that pair up leaves: `ceil(n / 2)`.
pub open spec fn pair_count(n: int) -> int {
    (n + 1) / 2
}

/// The link to leaf `i`.
pub open spec fn leaf_link(i: int) -> u32 {
    (i + LEAF_BIT) as u32
}

/// The links of node `k` in the hierarchy over `n` leaves.
pub open spec fn links_of(n: int, k: int) -> BvhLinks {
    let m = pair_count(n);
    if k == 0 {
        BvhLinks { left: 0, right: 0 }
    } else if k <= m {
        let p = k - 1;
        BvhLinks {
            left: leaf_link(2 * p),
            right: if 2 * p + 1 < n {
                leaf_link(2 * p + 1)
            } else {
                0
            },
        }
    } else {
        let t = k - 1 - m;
        BvhLinks { left: (1 + 2 * t) as u32, right: (2 + 2 * t) as u32 }
    }
}

impl BvhTopology {
    /// The hierarchy over `n` leaves in the given order: `2m` nodes, each
    /// linked as `links_of` says, the last of them the root.
    pub open spec fn is_hierarchy(&self, keys: Seq<u64>) -> bool {
        let n = keys.len() as int;
        let m = pair_count(n);
        &&& is_morton_order(self.leaf_order@, keys)
        &&& self.nodes@.len() == 2 * m
        &&& self.root == 2 * m - 1
        &&& forall|k: int| 0 <= k < 2 * m ==> #[trigger] self.nodes@[k] == links_of(n, k)
    }

    /// Builds the hierarchy over instances with the given Morton keys.
    pub fn build(keys: &Vec<u64>) -> (r: BvhTopology)
        requires
            1 <= keys@.len() < LEAF_BIT,
        ensures
            r.is_hierarchy(keys@),
    {
        let n = keys.len();
        let leaf_order = morton_order(keys);
        let mut nodes: Vec<BvhLinks> = Vec::new();
        nodes.push(BvhLinks { left: 0, right: 0 });
        let empty_node_idx: u32 = 0;
        let ghost m = pair_count(n as int);
        let mut i: usize = 0;
        while i < n
            invariant
                n == keys@.len(),
                1 <= n < LEAF_BIT,
                m == pair_count(n as int),
                i % 2 == 0,
                empty_node_idx == 0,
                i <= n + 1,
                nodes@.len() == 1 + i / 2,
                forall|k: int| 0 <= k < nodes@.len() ==> #[trigger] nodes@[k] == links_of(n as int, k),
            decreases n + 1 - i,
        {
            let left_child = i as u32 | LEAF_BIT;
            let right_child = if i == n - 1 {
                empty_node_idx
            } else {
                (i + 1) as u32 | LEAF_BIT
            };
            proof {
                lemma_leaf_link(i as u32);
                if i + 1 < n {
                    lemma_leaf_link((i + 1) as u32);
                }
            }
            let ghost before = nodes@;
            nodes.push(BvhLinks { left: left_child, right: right_child });
            proof {
                let k = 1 + i / 2;
                assert(2 * (k - 1) == i);
                if i + 1 < n {
                    assert(right_child == leaf_link(i + 1));
                }
                assert(nodes@[k] == links_of(n as int, k));
                assert(forall|k: int| 0 <= k < before.len() ==> nodes@[k] == before[k]);
            }
            i += 2;
        }
        let mut head: usize = 1;
        let ghost merged: int = 0;
        while nodes.len() - head > 1
            invariant
                n == keys@.len(),
                1 <= n < LEAF_BIT,
                m == pair_count(n as int),
                m >= 1,
                nodes@.len() == 1 + m + merged,
                head == 1 + 2 * merged,
                0 <= merged <= m - 1,
                forall|k: int| 0 <= k < nodes@.len() ==> #[trigger] nodes@[k] == links_of(n as int, k),
            decreases nodes@.len() - head,
        {
            let left_child = head;
            let right_child = head + 1;
            nodes.push(BvhLinks { left: left_child as u32, right: right_child as u32 });
            head += 2;
            proof {
                merged = merged + 1;
            }
        }
        let root = head as u32;
        BvhTopology { root, nodes, leaf_order }
    }
}

proof fn lemma_leaf_link(i: u32)
    by (bit_vector)
    requires
        i < 0x8000_0000,
    ensures
        i | 0x8000_0000 == i + 0x8000_0000,
{
}

/// The instances `0..keys.len()` ordered by ascending key, equal keys in
/// their given order.
pub fn morton_order(keys: &Vec<u64>) -> (order: Vec<usize>)
    ensures
        is_morton_order(order@, keys@),
{
    let mut pairs: Vec<(u64, usize)> = Vec::new();
    let mut i: usize = 0;
    while i < keys.len()
        invariant
            i <= keys@.len(),
            pairs@.len() == i,
            forall|k: int| 0 <= k < i ==> #[trigger] pairs@[k] == (keys@[k], k as usize),
        decreases keys@.len() - i,
    {
        pairs.push((keys[i], i));
        i += 1;
    }
    let ghost given = pairs@;
    assert(given.no_duplicates()) by {
        assert forall|a: int, b: int| 0 <= a < given.len() && 0 <= b < given.len() && a != b implies given[a]
            != given[b] by {
            assert(given[a].1 == a);
            assert(given[b].1 == b);
        }
    }
    sort_pairs(&mut pairs);
    proof {
        given.lemma_multiset_has_no_duplicates();
        assert forall|x: (u64, usize)| pairs@.to_multiset().contains(x) implies pairs@.to_multiset().count(x)
            == 1 by {
            assert(given.to_multiset().contains(x));
        }
        pairs@.lemma_multiset_has_no_duplicates_conv();
        assert forall|k: int| 0 <= k < pairs@.len() implies (#[trigger] pairs@[k]).1 < keys@.len()
            && pairs@[k].0 == keys@[pairs@[k].1 as int] by {
            pairs@.to_multiset_ensures();
            given.to_multiset_ensures();
            assert(pairs@.contains(pairs@[k]));
            assert(pairs@.to_multiset().count(pairs@[k]) > 0);
            assert(given.contains(pairs@[k]));
        }
    }
    proof {
        pairs@.to_multiset_ensures();
        given.to_multiset_ensures();
    }
    let mut order: Vec<usize> = Vec::new();
    let mut j: usize = 0;
    while j < pairs.len()
        invariant
            j <= pairs@.len(),
            pairs@.len() == keys@.len(),
            order@.len() == j,
            forall|k: int| 0 <= k < j ==> #[trigger] order@[k] == pairs@[k].1,
        decreases pairs@.len() - j,
    {
        order.push(pairs[j].1);
        j += 1;
    }
    proof {
        assert forall|a: int, b: int| 0 <= a < b < order@.len() implies pair_lt(
            (keys@[#[trigger] order@[a] as int], order@[a]),
            (keys@[#[trigger] order@[b] as int], order@[b]),
        ) by {
            assert(pairs@[a] != pairs@[b]);
            assert(!pair_lt(pairs@[b], pairs@[a]));
            assert(pairs@[a].0 == keys@[pairs@[a].1 as int]);
            assert(pairs@[b].0 == keys@[pairs@[b].1 as int]);
        }
    }
    order
}

/// Leaf `leaf` hangs below node `j`: a link of `j` names the leaf, or names
/// an earlier node below which it hangs.
pub open spec fn hangs_below(nodes: Seq<BvhLinks>, j: int, leaf: int) -> bool
    decreases j,
{
    if j <= 0 || j >= nodes.len() {
        false
    } else {
        let l = nodes[j].left as int;
        let r = nodes[j].right as int;
        ||| l == leaf + LEAF_BIT
        ||| r == leaf + LEAF_BIT
        ||| (0 < l < j && hangs_below(nodes, l, leaf))
        ||| (0 < r < j && hangs_below(nodes, r, leaf))
    }
}

/// Whatever hangs below a node hangs below the root.
proof fn lemma_climb(t: &BvhTopology, keys: Seq<u64>, j: int, leaf: int)
    requires
        t.is_hierarchy(keys),
        1 <= keys.len() < LEAF_BIT,
        1 <= j <= t.root,
        hangs_below(t.nodes@, j, leaf),
    ensures
        hangs_below(t.nodes@, t.root as int, leaf),
    decreases t.root - j,
{
    let n = keys.len() as int;
    let m = pair_count(n);
    if j < t.root {
        let q = m + 1 + (j - 1) / 2;
        assert(t.nodes@[q] == links_of(n, q));
        assert(t.nodes@[q].left == j || t.nodes@[q].right == j);
        assert(hangs_below(t.nodes@, q, leaf));
        lemma_climb(t, keys, q, leaf);
    }
}

/// Every leaf of the hierarchy hangs below its root: a path of inner nodes
/// leads from the root to each instance.
pub proof fn lemma_every_leaf_below_root(t: &BvhTopology, keys: Seq<u64>, leaf: int)
    requires
        t.is_hierarchy(keys),
        1 <= keys.len() < LEAF_BIT,
        0 <= leaf < keys.len(),
    ensures
        hangs_below(t.nodes@, t.root as int, leaf),
{
    let n = keys.len() as int;
    let j = 1 + leaf / 2;
    assert(t.nodes@[j] == links_of(n, j));
    assert(hangs_below(t.nodes@, j, leaf));
    lemma_climb(t, keys, j, leaf);
}

} // verus!
