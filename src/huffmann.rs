//! Frequency counting, Huffman tree construction over an arena of nodes, and
//! the code table read off the tree.

use vstd::prelude::*;

verus! {

/// A node of a Huffman tree. Internal nodes name their children by their
/// index in the arena that holds the tree.
pub enum TreeNode {
    Leaf { symbol: u8, weight: u64 },
    Internal { weight: u64, left: usize, right: usize },
}

/// A Huffman tree as an arena: every internal node stands after its children.
pub struct HuffmanTree {
    pub nodes: Vec<TreeNode>,
    pub root: usize,
}

/// The min-priority structure of the construction: a forest of subtrees in an
/// arena, with the roots still to be merged and the weight of each.
pub struct MinQueue {
    pub nodes: Vec<TreeNode>,
    pub weights: Vec<u64>,
    pub roots: Vec<usize>,
}

/// One row of a code table: a symbol and its code, one `bool` per bit.
pub struct CodeEntry {
    pub symbol: u8,
    pub code: Vec<bool>,
}

/// Number of occurrences of `s` in `data`.
pub open spec fn count(data: Seq<u8>, s: u8) -> nat
    decreases data.len(),
{
    if data.len() == 0 {
        0
    } else {
        count(data.drop_last(), s) + if data.last() == s { 1nat } else { 0nat }
    }
}

pub open spec fn sum(s: Seq<u64>) -> nat
    decreases s.len(),
{
    if s.len() == 0 {
        0
    } else {
        sum(s.drop_last()) + s.last() as nat
    }
}

/// Children stand before their parents, so every path down the arena ends.
pub open spec fn nodes_wf(nodes: Seq<TreeNode>) -> bool {
    forall|k: int|
        0 <= k < nodes.len() ==> match #[trigger] nodes[k] {
            TreeNode::Internal { left, right, .. } => left < k && right < k,
            TreeNode::Leaf { .. } => true,
        }
}

pub open spec fn node_weight(n: TreeNode) -> u64 {
    match n {
        TreeNode::Leaf { weight, .. } => weight,
        TreeNode::Internal { weight, .. } => weight,
    }
}

/// The weight of each internal node is the sum of its children's weights, so
/// the weight of every node is the sum of the weights of the leaves under it.
pub open spec fn weights_wf(nodes: Seq<TreeNode>) -> bool {
    forall|k: int|
        0 <= k < nodes.len() ==> match #[trigger] nodes[k] {
            TreeNode::Internal { weight, left, right } => 0 <= left < nodes.len() && 0 <= right
                < nodes.len() && weight == node_weight(nodes[left as int]) + node_weight(
                nodes[right as int],
            ),
            TreeNode::Leaf { .. } => true,
        }
}

/// The node reached from node `i` by following `path`: `false` goes left,
/// `true` goes right.
pub open spec fn walk(nodes: Seq<TreeNode>, i: int, path: Seq<bool>) -> Option<int>
    decreases path.len(),
{
    if !(0 <= i < nodes.len()) {
        None
    } else if path.len() == 0 {
        Some(i)
    } else {
        match nodes[i] {
            TreeNode::Internal { left, right, .. } => walk(
                nodes,
                if path[0] { right as int } else { left as int },
                path.drop_first(),
            ),
            TreeNode::Leaf { .. } => None,
        }
    }
}

/// The symbol of the leaf at the end of `path` from node `i`, if it ends on a leaf.
pub open spec fn leaf_at(nodes: Seq<TreeNode>, i: int, path: Seq<bool>) -> Option<u8> {
    match walk(nodes, i, path) {
        Some(j) => match nodes[j] {
            TreeNode::Leaf { symbol, .. } => Some(symbol),
            TreeNode::Internal { .. } => None,
        },
        None => None,
    }
}

/// The subtree under node `i` has a leaf for `s`.
pub open spec fn has_leaf(nodes: Seq<TreeNode>, i: int, s: u8) -> bool {
    exists|p: Seq<bool>| leaf_at(nodes, i, p) == Some(s)
}

pub open spec fn is_leaf_of(n: TreeNode, s: u8) -> bool {
    match n {
        TreeNode::Leaf { symbol, .. } => symbol == s,
        TreeNode::Internal { .. } => false,
    }
}

pub open spec fn leaf_symbol(n: TreeNode) -> u8 {
    match n {
        TreeNode::Leaf { symbol, .. } => symbol,
        TreeNode::Internal { .. } => 0,
    }
}

pub open spec fn is_internal(n: TreeNode) -> bool {
    n is Internal
}

/// `s` has a leaf in the subtree of one of `roots`.
pub open spec fn forest_has(nodes: Seq<TreeNode>, roots: Seq<usize>, s: u8) -> bool {
    exists|r: usize| roots.contains(r) && has_leaf(nodes, r as int, s)
}

impl MinQueue {
    pub open spec fn wf(&self) -> bool {
        &&& nodes_wf(self.nodes@)
        &&& weights_wf(self.nodes@)
        &&& self.weights.len() == self.roots.len()
        &&& forall|r: usize| self.roots@.contains(r) ==> r < self.nodes.len()
        &&& forall|k: int|
            0 <= k < self.roots.len() ==> #[trigger] self.weights@[k] == node_weight(
                self.nodes@[self.roots@[k] as int],
            )
        &&& sum(self.weights@) <= u64::MAX
    }
}

impl HuffmanTree {
    pub open spec fn wf(&self) -> bool {
        &&& nodes_wf(self.nodes@)
        &&& weights_wf(self.nodes@)
        &&& self.root < self.nodes.len()
    }
}

/// A symbol is counted at least once exactly when it occurs.
pub proof fn lemma_count_pos(data: Seq<u8>, s: u8)
    ensures
        count(data, s) > 0 <==> data.contains(s),
    decreases data.len(),
{
    if data.len() > 0 {
        let d = data.drop_last();
        lemma_count_pos(d, s);
        if d.contains(s) {
            let k = choose|k: int| 0 <= k < d.len() && d[k] == s;
            assert(data[k] == s);
        }
        if data.contains(s) {
            let k = choose|k: int| 0 <= k < data.len() && data[k] == s;
            if k < data.len() - 1 {
                assert(d[k] == s);
            }
        }
    }
}

pub proof fn lemma_sum_update(s: Seq<u64>, i: int, v: u64)
    requires
        0 <= i < s.len(),
    ensures
        sum(s.update(i, v)) == sum(s) - s[i] + v,
    decreases s.len(),
{
    if i == s.len() - 1 {
        assert(s.update(i, v).drop_last() == s.drop_last());
    } else {
        lemma_sum_update(s.drop_last(), i, v);
        assert(s.update(i, v).drop_last() == s.drop_last().update(i, v));
    }
}

pub proof fn lemma_sum_push(s: Seq<u64>, v: u64)
    ensures
        sum(s.push(v)) == sum(s) + v,
{
    assert(s.push(v).drop_last() == s);
}

pub proof fn lemma_sum_ge(s: Seq<u64>, i: int)
    requires
        0 <= i < s.len(),
    ensures
        s[i] <= sum(s),
    decreases s.len(),
{
    if i < s.len() - 1 {
        lemma_sum_ge(s.drop_last(), i);
    }
}

/// Following `p` then `q` is following `p + q`.
pub proof fn lemma_walk_append(nodes: Seq<TreeNode>, i: int, p: Seq<bool>, q: Seq<bool>)
    ensures
        walk(nodes, i, p + q) == match walk(nodes, i, p) {
            Some(j) => walk(nodes, j, q),
            None => None,
        },
    decreases p.len(),
{
    if p.len() == 0 {
        assert(p + q == q);
    } else if 0 <= i < nodes.len() {
        assert((p + q).drop_first() == p.drop_first() + q);
        assert((p + q)[0] == p[0]);
        match nodes[i] {
            TreeNode::Internal { left, right, .. } => {
                let c = if p[0] { right as int } else { left as int };
                lemma_walk_append(nodes, c, p.drop_first(), q);
            },
            TreeNode::Leaf { .. } => {},
        }
    }
}

pub proof fn lemma_walk_in_arena(nodes: Seq<TreeNode>, i: int, p: Seq<bool>)
    ensures
        walk(nodes, i, p) matches Some(j) ==> 0 <= j < nodes.len(),
    decreases p.len(),
{
    if 0 <= i < nodes.len() && p.len() > 0 {
        match nodes[i] {
            TreeNode::Internal { left, right, .. } => {
                lemma_walk_in_arena(nodes, if p[0] { right as int } else { left as int }, p.drop_first());
            },
            TreeNode::Leaf { .. } => {},
        }
    }
}

/// Adding a node to the arena changes no path from an existing node.
pub proof fn lemma_walk_push(nodes: Seq<TreeNode>, x: TreeNode, i: int, p: Seq<bool>)
    requires
        nodes_wf(nodes),
        0 <= i < nodes.len(),
    ensures
        walk(nodes.push(x), i, p) == walk(nodes, i, p),
        leaf_at(nodes.push(x), i, p) == leaf_at(nodes, i, p),
    decreases p.len(),
{
    lemma_walk_in_arena(nodes, i, p);
    if p.len() > 0 {
        assert(nodes.push(x)[i] == nodes[i]);
        match nodes[i] {
            TreeNode::Internal { left, right, .. } => {
                lemma_walk_push(nodes, x, if p[0] { right as int } else { left as int }, p.drop_first());
            },
            TreeNode::Leaf { .. } => {},
        }
    }
}

/// A path that ends on a leaf is no proper prefix of another path from the same node.
pub proof fn lemma_leaf_paths_prefix(nodes: Seq<TreeNode>, i: int, p: Seq<bool>, q: Seq<bool>)
    requires
        leaf_at(nodes, i, p) is Some,
        leaf_at(nodes, i, q) is Some,
        p.len() <= q.len(),
        q.subrange(0, p.len() as int) == p,
    ensures
        p == q,
{
    let rest = q.subrange(p.len() as int, q.len() as int);
    assert(q == p + rest);
    lemma_walk_append(nodes, i, p, rest);
    lemma_walk_in_arena(nodes, i, p);
    if rest.len() > 0 {
        let j = walk(nodes, i, p).unwrap();
        assert(nodes[j] is Leaf);
        assert(walk(nodes, j, rest) is None);
    }
    assert(rest.len() == 0);
    assert(q == p);
}

/// A path that ends on a leaf for `s` passes through an arena node that is that leaf.
pub proof fn lemma_leaf_in_arena(nodes: Seq<TreeNode>, i: int, p: Seq<bool>, s: u8)
    requires
        leaf_at(nodes, i, p) == Some(s),
    ensures
        exists|k: int| 0 <= k < nodes.len() && is_leaf_of(#[trigger] nodes[k], s),
{
    lemma_walk_in_arena(nodes, i, p);
    let k = walk(nodes, i, p).unwrap();
    assert(is_leaf_of(nodes[k], s));
}

/// Counts how often each byte value occurs in `data`; entry `s` of the result
/// is the count of byte `s`.
pub fn count_frequencies(data: &Vec<u8>) -> (freqs: Vec<u64>)
    ensures
        freqs.len() == 256,
        forall|s: u8| #[trigger] freqs@[s as int] == count(data@, s),
        sum(freqs@) == data.len(),
{
    let mut freqs: Vec<u64> = Vec::new();
    let mut k: usize = 0;
    while k < 256
        invariant
            k <= 256,
            freqs.len() == k,
            forall|j: int| 0 <= j < k ==> freqs@[j] == 0,
            sum(freqs@) == 0,
        decreases 256 - k,
    {
        proof {
            lemma_sum_push(freqs@, 0);
        }
        freqs.push(0);
        k = k + 1;
    }
    let mut i: usize = 0;
    while i < data.len()
        invariant
            i <= data.len(),
            freqs.len() == 256,
            forall|s: u8| #[trigger] freqs@[s as int] == count(data@.subrange(0, i as int), s),
            sum(freqs@) == i,
        decreases data.len() - i,
    {
        let b = data[i];
        proof {
            lemma_sum_ge(freqs@, b as int);
            lemma_sum_update(freqs@, b as int, (freqs@[b as int] + 1) as u64);
            assert(data@.subrange(0, i + 1).drop_last() == data@.subrange(0, i as int));
        }
        freqs.set(b as usize, freqs[b as usize] + 1);
        i = i + 1;
        assert(forall|s: u8| #[trigger] freqs@[s as int] == count(data@.subrange(0, i as int), s));
    }
    assert(data@.subrange(0, i as int) == data@);
    freqs
}

/// One leaf per symbol that occurs, each its own root, weighted by its count.
pub fn construct_min_heap_with_nodes(freqs: &Vec<u64>) -> (q: MinQueue)
    requires
        freqs.len() == 256,
        sum(freqs@) <= u64::MAX,
    ensures
        q.wf(),
        sum(q.weights@) == sum(freqs@),
        forall|k: int|
            0 <= k < q.nodes.len() ==> match #[trigger] q.nodes@[k] {
                TreeNode::Leaf { symbol, weight } => weight == freqs@[symbol as int] && weight > 0,
                TreeNode::Internal { .. } => false,
            },
        forall|s: u8| forest_has(q.nodes@, q.roots@, s) <==> freqs@[s as int] > 0,
        forall|a: int, b: int|
            0 <= a < b < q.nodes.len() ==> !is_leaf_of(
                #[trigger] q.nodes@[a],
                leaf_symbol(#[trigger] q.nodes@[b]),
            ),
        (exists|s: u8| freqs@[s as int] > 0) ==> q.roots.len() >= 1,
        q.nodes.len() == q.roots.len(),
        q.roots.len() <= 256,
{
    let mut nodes: Vec<TreeNode> = Vec::new();
    let mut weights: Vec<u64> = Vec::new();
    let mut roots: Vec<usize> = Vec::new();
    let mut s: usize = 0;
    while s < 256
        invariant
            s <= 256,
            freqs.len() == 256,
            sum(freqs@) <= u64::MAX,
            nodes.len() == roots.len(),
            nodes.len() <= s,
            weights.len() == roots.len(),
            forall|k: int| 0 <= k < roots.len() ==> roots@[k] == k,
            forall|k: int|
                0 <= k < nodes.len() ==> match #[trigger] nodes@[k] {
                    TreeNode::Leaf { symbol, weight } => weight == freqs@[symbol as int]
                        && weight > 0 && symbol < s,
                    TreeNode::Internal { .. } => false,
                },
            forall|a: int, b: int|
                0 <= a < b < nodes.len() ==> leaf_symbol(#[trigger] nodes@[a]) < leaf_symbol(
                    #[trigger] nodes@[b],
                ),
            forall|k: int| 0 <= k < nodes.len() ==> #[trigger] weights@[k] == freqs@[match nodes@[k] {
                TreeNode::Leaf { symbol, .. } => symbol as int,
                TreeNode::Internal { .. } => 0,
            }],
            sum(weights@) == sum(freqs@.subrange(0, s as int)),
            forall|t: u8|
                t < s && freqs@[t as int] > 0 ==> exists|k: int|
                    0 <= k < nodes.len() && is_leaf_of(#[trigger] nodes@[k], t),
        decreases 256 - s,
    {
        let f = freqs[s];
        let ghost nodes_before = nodes@;
        proof {
            assert(freqs@.subrange(0, s + 1).drop_last() == freqs@.subrange(0, s as int));
        }
        if f > 0 {
            let k = nodes.len();
            proof {
                lemma_sum_push(weights@, f);
            }
            nodes.push(TreeNode::Leaf { symbol: s as u8, weight: f });
            weights.push(f);
            roots.push(k);
            assert(is_leaf_of(nodes@[k as int], s as u8));
        }
        assert forall|t: u8| t < s + 1 && freqs@[t as int] > 0 implies exists|k: int|
            0 <= k < nodes.len() && is_leaf_of(#[trigger] nodes@[k], t) by {
            if t == s {
                assert(is_leaf_of(nodes@[nodes.len() - 1], t));
            } else {
                let k = choose|k: int|
                    0 <= k < nodes_before.len() && is_leaf_of(#[trigger] nodes_before[k], t);
                assert(nodes@[k] == nodes_before[k]);
            }
        }
        s = s + 1;
    }
    assert(freqs@.subrange(0, 256) == freqs@);
    assert(nodes_wf(nodes@));
    assert(weights_wf(nodes@));
    assert forall|k: int| 0 <= k < roots.len() implies #[trigger] weights@[k] == node_weight(
        nodes@[roots@[k] as int],
    ) by {
        assert(roots@[k] == k);
    }
    assert forall|r: usize| roots@.contains(r) implies r < nodes.len() by {}
    assert forall|t: u8| forest_has(nodes@, roots@, t) <==> freqs@[t as int] > 0 by {
        if freqs@[t as int] > 0 {
            let k = choose|k: int| 0 <= k < nodes.len() && is_leaf_of(#[trigger] nodes@[k], t);
            assert(leaf_at(nodes@, k, Seq::empty()) == Some(t));
            assert(roots@[k] == k);
            assert(roots@.contains(k as usize));
            assert(has_leaf(nodes@, k, t));
        }
        if forest_has(nodes@, roots@, t) {
            let r = choose|r: usize| roots@.contains(r) && has_leaf(nodes@, r as int, t);
            let p = choose|p: Seq<bool>| leaf_at(nodes@, r as int, p) == Some(t);
            lemma_leaf_in_arena(nodes@, r as int, p, t);
        }
    }
    MinQueue { nodes, weights, roots }
}

/// Removes a root of least weight, with its weight, from the queue.
fn take_min(weights: &mut Vec<u64>, roots: &mut Vec<usize>, Ghost(nodes): Ghost<Seq<TreeNode>>) -> (res: (
    u64,
    usize,
))
    requires
        old(weights).len() == old(roots).len(),
        old(weights).len() > 0,
        forall|k: int|
            0 <= k < old(roots).len() ==> #[trigger] old(weights)@[k] == node_weight(
                nodes[old(roots)@[k] as int],
            ),
    ensures
        forall|k: int|
            0 <= k < final(roots).len() ==> #[trigger] final(weights)@[k] == node_weight(
                nodes[final(roots)@[k] as int],
            ),
        res.0 == node_weight(nodes[res.1 as int]),
        final(weights).len() == old(weights).len() - 1,
        final(roots).len() == final(weights).len(),
        old(roots)@.contains(res.1),
        forall|x: usize| #[trigger]
            old(roots)@.contains(x) ==> x == res.1 || final(roots)@.contains(x),
        forall|x: usize| #[trigger] final(roots)@.contains(x) ==> old(roots)@.contains(x),
        sum(final(weights)@) + res.0 == sum(old(weights)@),
        forall|j: int| 0 <= j < old(weights).len() ==> res.0 <= #[trigger] old(weights)@[j],
        exists|i: int|
            0 <= i < old(weights).len() && res.0 == old(weights)@[i] && res.1 == old(roots)@[i],
{
    let ghost w0 = weights@;
    let ghost r0 = roots@;
    let mut best: usize = 0;
    let mut i: usize = 1;
    while i < weights.len()
        invariant
            weights@ == w0,
            best < i <= weights.len(),
            forall|j: int| 0 <= j < i ==> weights@[best as int] <= #[trigger] weights@[j],
        decreases weights.len() - i,
    {
        if weights[i] < weights[best] {
            best = i;
        }
        i = i + 1;
    }
    let n = weights.len() - 1;
    let w = weights[best];
    let r = roots[best];
    let lw = weights[n];
    let lr = roots[n];
    weights.set(best, lw);
    roots.set(best, lr);
    proof {
        lemma_sum_update(w0, best as int, lw);
        assert(weights@.drop_last().push(lw) == weights@);
        lemma_sum_push(weights@.drop_last(), lw);
    }
    weights.truncate(n);
    roots.truncate(n);
    assert(weights@ == w0.update(best as int, lw).drop_last());
    assert(roots@ == r0.update(best as int, lr).drop_last());
    assert forall|k: int| 0 <= k < roots.len() implies #[trigger] weights@[k] == node_weight(
        nodes[roots@[k] as int],
    ) by {
        if k == best {
            assert(w0[n as int] == node_weight(nodes[r0[n as int] as int]));
        } else {
            assert(w0[k] == node_weight(nodes[r0[k] as int]));
        }
    }
    assert(r0.contains(r));
    assert forall|x: usize| #[trigger] r0.contains(x) implies x == r || roots@.contains(x) by {
        let j = choose|j: int| 0 <= j < r0.len() && r0[j] == x;
        if j == best {
        } else if j == n {
            assert(roots@[best as int] == x);
        } else {
            assert(roots@[j] == x);
        }
    }
    assert forall|x: usize| #[trigger] roots@.contains(x) implies r0.contains(x) by {
        let j = choose|j: int| 0 <= j < roots@.len() && roots@[j] == x;
        if j == best {
            assert(r0[n as int] == x);
        } else {
            assert(r0[j] == x);
        }
    }
    (w, r)
}

/// A merge keeps every symbol of the forest: those under the two merged roots
/// are now under the new internal node.
proof fn lemma_merge_keeps(
    nodes: Seq<TreeNode>,
    roots0: Seq<usize>,
    roots2: Seq<usize>,
    a: usize,
    b: usize,
    w: u64,
    s: u8,
)
    requires
        nodes_wf(nodes),
        nodes.len() < usize::MAX,
        forall|x: usize| roots0.contains(x) ==> x < nodes.len(),
        forall|x: usize| #[trigger] roots0.contains(x) ==> x == a || x == b || roots2.contains(x),
        forest_has(nodes, roots0, s),
    ensures
        forest_has(
            nodes.push(TreeNode::Internal { weight: w, left: a, right: b }),
            roots2.push(nodes.len() as usize),
            s,
        ),
{
    let m = nodes.len() as usize;
    let x = TreeNode::Internal { weight: w, left: a, right: b };
    let nn = nodes.push(x);
    let rr = roots2.push(m);
    let r = choose|r: usize| roots0.contains(r) && has_leaf(nodes, r as int, s);
    let p = choose|p: Seq<bool>| leaf_at(nodes, r as int, p) == Some(s);
    lemma_walk_push(nodes, x, r as int, p);
    assert(rr.contains(m)) by {
        assert(rr[rr.len() - 1] == m);
    }
    if r == a || r == b {
        let q = seq![r == b] + p;
        assert(q.drop_first() == p);
        assert(nn[m as int] == x);
        assert(leaf_at(nn, m as int, q) == Some(s));
        assert(has_leaf(nn, m as int, s));
    } else {
        assert(roots2.contains(r));
        let j = choose|j: int| 0 <= j < roots2.len() && roots2[j] == r;
        assert(rr[j] == r);
        assert(rr.contains(r));
        assert(has_leaf(nn, r as int, s));
    }
}

/// Merges the two lightest roots into a new internal node until one root is
/// left, and returns the tree under it.
#[verifier::rlimit(40)]
pub fn build_huffman_tree(q: MinQueue) -> (t: HuffmanTree)
    requires
        q.wf(),
        q.roots.len() >= 1,
        q.nodes.len() + q.roots.len() <= usize::MAX,
    ensures
        t.wf(),
        t.nodes.len() == q.nodes.len() + q.roots.len() - 1,
        t.nodes@.subrange(0, q.nodes.len() as int) == q.nodes@,
        forall|k: int| q.nodes.len() <= k < t.nodes.len() ==> is_internal(#[trigger] t.nodes@[k]),
        forall|s: u8| forest_has(q.nodes@, q.roots@, s) ==> has_leaf(t.nodes@, t.root as int, s),
        node_weight(t.nodes@[t.root as int]) == sum(q.weights@),
        q.roots.len() > 1 ==> t.root == t.nodes.len() - 1,
        forall|a: int, b: int|
            q.nodes.len() <= a < b < t.nodes.len() ==> node_weight(#[trigger] t.nodes@[a])
                <= node_weight(#[trigger] t.nodes@[b]),
{
    let ghost n0 = q.nodes@;
    let ghost r0 = q.roots@;
    let ghost total = sum(q.weights@);
    let MinQueue { mut nodes, mut weights, mut roots } = q;
    let ghost mut lo: int = 0;
    let ghost mut last: int = 0;
    while roots.len() > 1
        invariant
            forall|k: int| 0 <= k < roots.len() ==> #[trigger] weights@[k] >= lo,
            0 <= lo,
            last <= 2 * lo,
            forall|k: int| n0.len() <= k < nodes.len() ==> node_weight(#[trigger] nodes@[k]) <= last,
            forall|a: int, b: int|
                n0.len() <= a < b < nodes.len() ==> node_weight(#[trigger] nodes@[a]) <= node_weight(
                    #[trigger] nodes@[b],
                ),
            nodes_wf(nodes@),
            weights_wf(nodes@),
            forall|k: int|
                0 <= k < roots.len() ==> #[trigger] weights@[k] == node_weight(
                    nodes@[roots@[k] as int],
                ),
            weights.len() == roots.len(),
            roots.len() >= 1,
            forall|r: usize| roots@.contains(r) ==> r < nodes.len(),
            sum(weights@) == total,
            total <= u64::MAX,
            nodes.len() > n0.len() ==> roots@.contains((nodes.len() - 1) as usize),
            nodes.len() >= n0.len(),
            nodes.len() + roots.len() == n0.len() + r0.len(),
            n0.len() + r0.len() <= usize::MAX,
            nodes@.subrange(0, n0.len() as int) == n0,
            forall|k: int| n0.len() <= k < nodes.len() ==> is_internal(#[trigger] nodes@[k]),
            forall|s: u8| forest_has(n0, r0, s) ==> forest_has(nodes@, roots@, s),
        decreases roots.len(),
    {
        let ghost nodes_before = nodes@;
        let ghost roots_before = roots@;
        let ghost weights_before = weights@;
        let (wa, a) = take_min(&mut weights, &mut roots, Ghost(nodes@));
        let ghost w1 = weights@;
        let ghost r1 = roots@;
        let (wb, b) = take_min(&mut weights, &mut roots, Ghost(nodes@));
        let m = nodes.len();
        let w = wa + wb;
        let node = TreeNode::Internal { weight: w, left: a, right: b };
        proof {
            assert(nodes_before.len() + roots_before.len() <= usize::MAX);
            assert(nodes_before.len() < usize::MAX);
            lemma_sum_push(weights@, w);
            assert forall|s: u8| forest_has(n0, r0, s) implies forest_has(
                nodes@.push(node),
                roots@.push(m),
                s,
            ) by {
                lemma_merge_keeps(nodes_before, roots_before, roots@, a, b, w, s);
            }
            assert(nodes@.push(node).subrange(0, n0.len() as int) == nodes@.subrange(0, n0.len() as int));
        }
        let ghost roots_mid = roots@;
        let ghost weights_mid = weights@;
        proof {
            let kb = choose|kb: int| 0 <= kb < roots_before.len() && roots_before[kb] == b;
            assert(roots_before[kb] == b);
            assert(wa <= weights_before[kb]);
            assert(weights_before[kb] == node_weight(nodes_before[b as int]));
            assert(wa <= wb);
            assert forall|k: int| 0 <= k < roots_mid.len() implies #[trigger] weights_mid[k] >= wb by {
                assert(roots_mid.contains(roots_mid[k]));
                let j = choose|j: int| 0 <= j < r1.len() && r1[j] == roots_mid[k];
                assert(w1[j] == node_weight(nodes_before[r1[j] as int]));
            }
            lo = wb as int;
            last = (wa + wb) as int;
        }
        nodes.push(node);
        weights.push(w);
        roots.push(m);
        assert forall|k: int| 0 <= k < nodes.len() implies match #[trigger] nodes@[k] {
            TreeNode::Internal { weight, left, right } => 0 <= left < nodes.len() && 0 <= right
                < nodes.len() && weight == node_weight(nodes@[left as int]) + node_weight(
                nodes@[right as int],
            ),
            TreeNode::Leaf { .. } => true,
        } by {
            if k < m {
                assert(nodes@[k] == nodes_before[k]);
                match nodes_before[k] {
                    TreeNode::Internal { left, right, .. } => {
                        assert(nodes@[left as int] == nodes_before[left as int]);
                        assert(nodes@[right as int] == nodes_before[right as int]);
                    },
                    TreeNode::Leaf { .. } => {},
                }
            } else {
                assert(nodes@[a as int] == nodes_before[a as int]);
                assert(nodes@[b as int] == nodes_before[b as int]);
            }
        }
        assert forall|k: int| 0 <= k < roots.len() implies #[trigger] weights@[k] == node_weight(
            nodes@[roots@[k] as int],
        ) by {
            if k < roots.len() - 1 {
                assert(weights@[k] == weights_mid[k]);
                assert(roots@[k] == roots_mid[k]);
                assert(roots_mid.contains(roots_mid[k]));
                assert(nodes@[roots@[k] as int] == nodes_before[roots_mid[k] as int]);
            }
        }
        assert(roots@[roots.len() - 1] == m);
        assert forall|r: usize| roots@.contains(r) implies r < nodes.len() by {
            if r != m {
                let j = choose|j: int| 0 <= j < roots@.len() && roots@[j] == r;
                assert(roots_mid[j] == r);
                assert(roots_mid.contains(r));
            }
        }
    }
    let root = roots[0];
    assert(roots@.contains(root));
    proof {
        if r0.len() > 1 {
            let last_root = (nodes.len() - 1) as usize;
            assert(roots@.contains(last_root));
            assert(root == last_root);
        }
    }
    assert(weights@.drop_last() =~= Seq::<u64>::empty());
    assert(weights@[0] == node_weight(nodes@[root as int]));
    assert(sum(weights@.drop_last()) == 0);
    assert(sum(weights@) == weights@[0]);
    assert forall|s: u8| forest_has(n0, r0, s) implies has_leaf(nodes@, root as int, s) by {
        let r = choose|r: usize| roots@.contains(r) && has_leaf(nodes@, r as int, s);
    }
    HuffmanTree { nodes, root }
}

/// A code table as a sequence of (symbol, code) pairs.
pub open spec fn table_view(t: Seq<CodeEntry>) -> Seq<(u8, Seq<bool>)> {
    Seq::new(t.len(), |i: int| (t[i].symbol, t[i].code@))
}

pub open spec fn is_prefix(a: Seq<bool>, b: Seq<bool>) -> bool {
    a.len() <= b.len() && b.subrange(0, a.len() as int) == a
}

/// No code of the table is a prefix of another code of it (nor equal to it).
pub open spec fn prefix_free(t: Seq<(u8, Seq<bool>)>) -> bool {
    forall|i: int, j: int|
        0 <= i < t.len() && 0 <= j < t.len() && i != j ==> !is_prefix(#[trigger] t[i].1, #[trigger] t[j].1)
}

pub open spec fn distinct_symbols(t: Seq<(u8, Seq<bool>)>) -> bool {
    forall|i: int, j: int|
        0 <= i < t.len() && 0 <= j < t.len() && i != j ==> #[trigger] t[i].0 != #[trigger] t[j].0
}

pub open spec fn codes_nonempty(t: Seq<(u8, Seq<bool>)>) -> bool {
    forall|i: int| 0 <= i < t.len() ==> (#[trigger] t[i]).1.len() > 0
}

pub open spec fn has_symbol(t: Seq<(u8, Seq<bool>)>, s: u8) -> bool {
    exists|i: int| 0 <= i < t.len() && (#[trigger] t[i]).0 == s
}

/// Each code is the path from the root to the leaf of its symbol; a tree that
/// is a single leaf gives its symbol the one-bit code `0`.
pub open spec fn codes_follow_tree(t: Seq<(u8, Seq<bool>)>, nodes: Seq<TreeNode>, root: int) -> bool {
    match nodes[root] {
        TreeNode::Leaf { symbol, .. } => t == seq![(symbol, seq![false])],
        TreeNode::Internal { .. } => forall|i: int|
            0 <= i < t.len() ==> leaf_at(nodes, root, (#[trigger] t[i]).1) == Some(t[i].0),
    }
}

/// `c` extends `prefix` by a path from node `i` to the leaf of `s`.
pub open spec fn code_ok(nodes: Seq<TreeNode>, i: int, prefix: Seq<bool>, c: Seq<bool>, s: u8) -> bool {
    &&& prefix.len() <= c.len()
    &&& c.subrange(0, prefix.len() as int) == prefix
    &&& leaf_at(nodes, i, c.subrange(prefix.len() as int, c.len() as int)) == Some(s)
}

/// The codes of a table read off a tree, one per symbol, are prefix-free.
pub proof fn lemma_tree_codes_prefix_free(nodes: Seq<TreeNode>, root: int, t: Seq<(u8, Seq<bool>)>)
    requires
        0 <= root < nodes.len(),
        codes_follow_tree(t, nodes, root),
        distinct_symbols(t),
    ensures
        prefix_free(t),
{
    match nodes[root] {
        TreeNode::Leaf { .. } => {},
        TreeNode::Internal { .. } => {
            assert forall|i: int, j: int|
                0 <= i < t.len() && 0 <= j < t.len() && i != j implies !is_prefix(
                #[trigger] t[i].1,
                #[trigger] t[j].1,
            ) by {
                if is_prefix(t[i].1, t[j].1) {
                    lemma_leaf_paths_prefix(nodes, root, t[i].1, t[j].1);
                }
            }
        },
    }
}

/// A path of `p.len()` steps goes down by at least that many arena positions.
pub proof fn lemma_walk_depth(nodes: Seq<TreeNode>, i: int, p: Seq<bool>)
    requires
        nodes_wf(nodes),
    ensures
        walk(nodes, i, p) matches Some(j) ==> j + p.len() <= i,
    decreases p.len(),
{
    if 0 <= i < nodes.len() && p.len() > 0 {
        match nodes[i] {
            TreeNode::Internal { left, right, .. } => {
                lemma_walk_depth(nodes, if p[0] { right as int } else { left as int }, p.drop_first());
            },
            TreeNode::Leaf { .. } => {},
        }
    }
}

proof fn lemma_code_ok_lift(
    nodes: Seq<TreeNode>,
    i: int,
    prefix: Seq<bool>,
    bit: bool,
    c: Seq<bool>,
    s: u8,
)
    requires
        0 <= i < nodes.len(),
        nodes[i] is Internal,
        code_ok(
            nodes,
            match nodes[i] {
                TreeNode::Internal { left, right, .. } => if bit { right as int } else { left as int },
                TreeNode::Leaf { .. } => 0,
            },
            prefix.push(bit),
            c,
            s,
        ),
    ensures
        code_ok(nodes, i, prefix, c, s),
{
    let n = prefix.len() as int;
    let rest = c.subrange(n, c.len() as int);
    assert(c.subrange(0, n) == prefix.push(bit).subrange(0, n));
    assert(prefix.push(bit).subrange(0, n) == prefix);
    assert(c[n] == c.subrange(0, n + 1)[n]);
    assert(rest[0] == bit);
    assert(rest.drop_first() == c.subrange(n + 1, c.len() as int));
}

fn copy_bits(v: &Vec<bool>) -> (r: Vec<bool>)
    ensures
        r@ == v@,
{
    let mut r: Vec<bool> = Vec::new();
    let mut i: usize = 0;
    while i < v.len()
        invariant
            i <= v.len(),
            r@ == v@.subrange(0, i as int),
        decreases v.len() - i,
    {
        r.push(v[i]);
        assert(v@.subrange(0, i + 1) == v@.subrange(0, i as int).push(v@[i as int]));
        i = i + 1;
    }
    assert(v@.subrange(0, i as int) == v@);
    r
}

/// Depth-first walk from node `i`, reached by `code_bits`: records in `codes`
/// the code of every leaf below, extending `code_bits` by `0` for each left
/// step and `1` for each right step.
pub fn traverse_huffmann_tree(
    nodes: &Vec<TreeNode>,
    i: usize,
    code_bits: &mut Vec<bool>,
    codes: &mut Vec<Option<Vec<bool>>>,
)
    requires
        nodes_wf(nodes@),
        i < nodes.len(),
        old(codes).len() == 256,
    ensures
        final(code_bits)@ == old(code_bits)@,
        final(codes).len() == 256,
        forall|s: int| 0 <= s < 256 && old(codes)@[s] is Some ==> (#[trigger] final(codes)@[s]) is Some,
        forall|s: int|
            0 <= s < 256 && (#[trigger] final(codes)@[s]) is Some ==> final(codes)@[s] == old(codes)@[s]
                || code_ok(nodes@, i as int, old(code_bits)@, final(codes)@[s].unwrap()@, s as u8),
        forall|p: Seq<bool>| #[trigger]
            leaf_at(nodes@, i as int, p) is Some ==> final(codes)@[leaf_at(
                nodes@,
                i as int,
                p,
            ).unwrap() as int] is Some && code_ok(
                nodes@,
                i as int,
                old(code_bits)@,
                final(codes)@[leaf_at(nodes@, i as int, p).unwrap() as int].unwrap()@,
                leaf_at(nodes@, i as int, p).unwrap(),
            ),
    decreases i,
{
    match &nodes[i] {
        TreeNode::Leaf { symbol, .. } => {
            let c = copy_bits(code_bits);
            codes.set(*symbol as usize, Some(c));
            assert(code_bits@.subrange(0, code_bits@.len() as int) == code_bits@);
            assert forall|p: Seq<bool>| #[trigger]
                leaf_at(nodes@, i as int, p) is Some implies codes@[leaf_at(
                nodes@,
                i as int,
                p,
            ).unwrap() as int] is Some && code_ok(
                nodes@,
                i as int,
                old(code_bits)@,
                codes@[leaf_at(nodes@, i as int, p).unwrap() as int].unwrap()@,
                leaf_at(nodes@, i as int, p).unwrap(),
            ) by {
                if p.len() > 0 {
                    assert(walk(nodes@, i as int, p) is None);
                }
                assert(code_bits@.subrange(code_bits@.len() as int, code_bits@.len() as int)
                    =~= Seq::<bool>::empty());
            }
        },
        TreeNode::Internal { left, right, .. } => {
            let ghost cb = code_bits@;
            let ghost c0 = codes@;
            code_bits.push(false);
            traverse_huffmann_tree(nodes, *left, code_bits, codes);
            let ghost c1 = codes@;
            code_bits.pop();
            assert(code_bits@ == cb);
            code_bits.push(true);
            traverse_huffmann_tree(nodes, *right, code_bits, codes);
            code_bits.pop();
            assert(code_bits@ == cb);
            assert forall|s: int|
                0 <= s < 256 && (#[trigger] codes@[s]) is Some implies codes@[s] == c0[s]
                || code_ok(nodes@, i as int, cb, codes@[s].unwrap()@, s as u8) by {
                if codes@[s] != c1[s] {
                    lemma_code_ok_lift(nodes@, i as int, cb, true, codes@[s].unwrap()@, s as u8);
                } else if c1[s] != c0[s] {
                    lemma_code_ok_lift(nodes@, i as int, cb, false, codes@[s].unwrap()@, s as u8);
                }
            }
            assert forall|p: Seq<bool>| #[trigger]
                leaf_at(nodes@, i as int, p) is Some implies codes@[leaf_at(
                nodes@,
                i as int,
                p,
            ).unwrap() as int] is Some && code_ok(
                nodes@,
                i as int,
                cb,
                codes@[leaf_at(nodes@, i as int, p).unwrap() as int].unwrap()@,
                leaf_at(nodes@, i as int, p).unwrap(),
            ) by {
                let s = leaf_at(nodes@, i as int, p).unwrap();
                assert(p.len() > 0);
                let c = codes@[s as int].unwrap()@;
                if p[0] {
                    assert(leaf_at(nodes@, *right as int, p.drop_first()) == Some(s));
                    lemma_code_ok_lift(nodes@, i as int, cb, true, c, s);
                } else {
                    assert(leaf_at(nodes@, *left as int, p.drop_first()) == Some(s));
                    assert(c1[s as int] is Some);
                    if codes@[s as int] != c1[s as int] {
                        lemma_code_ok_lift(nodes@, i as int, cb, true, c, s);
                    } else {
                        lemma_code_ok_lift(nodes@, i as int, cb, false, c, s);
                    }
                }
            }
        },
    }
}

/// The code table of a tree: one entry per leaf, in increasing symbol order,
/// holding the path from the root to that leaf. A tree that is a single leaf
/// gives its symbol the code `0`.
pub fn encode_symbol_table(tree: &HuffmanTree) -> (r: Vec<CodeEntry>)
    requires
        tree.wf(),
    ensures
        r.len() <= 256,
        codes_follow_tree(table_view(r@), tree.nodes@, tree.root as int),
        distinct_symbols(table_view(r@)),
        prefix_free(table_view(r@)),
        codes_nonempty(table_view(r@)),
        forall|k: int| 0 <= k < r.len() ==> (#[trigger] r@[k]).code.len() <= tree.nodes.len(),
        forall|s: u8| has_symbol(table_view(r@), s) <==> has_leaf(tree.nodes@, tree.root as int, s),
{
    let ghost nodes = tree.nodes@;
    let ghost root = tree.root as int;
    match &tree.nodes[tree.root] {
        TreeNode::Leaf { symbol, .. } => {
            let mut code: Vec<bool> = Vec::new();
            code.push(false);
            let mut r: Vec<CodeEntry> = Vec::new();
            r.push(CodeEntry { symbol: *symbol, code });
            assert(table_view(r@) == seq![(*symbol, seq![false])]);
            assert forall|s: u8| has_symbol(table_view(r@), s) <==> has_leaf(nodes, root, s) by {
                if has_leaf(nodes, root, s) {
                    let p = choose|p: Seq<bool>| leaf_at(nodes, root, p) == Some(s);
                    if p.len() > 0 {
                        assert(walk(nodes, root, p) is None);
                    }
                    assert(table_view(r@)[0].0 == s);
                }
                if has_symbol(table_view(r@), s) {
                    assert(leaf_at(nodes, root, Seq::empty()) == Some(s));
                    assert(has_leaf(nodes, root, s));
                }
            }
            r
        },
        TreeNode::Internal { .. } => {
            let mut codes: Vec<Option<Vec<bool>>> = Vec::new();
            let mut k: usize = 0;
            while k < 256
                invariant
                    k <= 256,
                    codes.len() == k,
                    forall|j: int| 0 <= j < k ==> codes@[j] is None,
                decreases 256 - k,
            {
                codes.push(None);
                k = k + 1;
            }
            let mut code_bits: Vec<bool> = Vec::new();
            traverse_huffmann_tree(&tree.nodes, tree.root, &mut code_bits, &mut codes);
            assert(code_bits@ == Seq::<bool>::empty());
            let mut r: Vec<CodeEntry> = Vec::new();
            let mut s: usize = 0;
            while s < 256
                invariant
                    s <= 256,
                    r.len() <= s,
                    codes.len() == 256,
                    forall|j: int| 0 <= j < r.len() ==> (#[trigger] r@[j]).symbol < s,
                    forall|a: int, b: int| 0 <= a < b < r.len() ==> #[trigger] r@[a].symbol < #[trigger] r@[b].symbol,
                    forall|j: int|
                        0 <= j < r.len() ==> codes@[(#[trigger] r@[j]).symbol as int] == Some(
                            r@[j].code,
                        ) || (codes@[r@[j].symbol as int] is Some && codes@[r@[j].symbol as int].unwrap()@
                            == r@[j].code@),
                    forall|t: int|
                        0 <= t < s && (#[trigger] codes@[t]) is Some ==> has_symbol(table_view(r@), t as u8),
                decreases 256 - s,
            {
                let ghost before = r@;
                match &codes[s] {
                    Some(c) => {
                        let c2 = copy_bits(c);
                        r.push(CodeEntry { symbol: s as u8, code: c2 });
                        assert(table_view(r@)[r.len() - 1].0 == s as u8);
                    },
                    None => {},
                }
                assert forall|t: int|
                    0 <= t < s + 1 && (#[trigger] codes@[t]) is Some implies has_symbol(
                    table_view(r@),
                    t as u8,
                ) by {
                    if t < s {
                        let i = choose|i: int|
                            0 <= i < before.len() && (#[trigger] table_view(before)[i]).0 == t as u8;
                        assert(table_view(r@)[i] == table_view(before)[i]);
                    } else {
                        assert(table_view(r@)[r.len() - 1].0 == t as u8);
                    }
                }
                s = s + 1;
            }
            let ghost tv = table_view(r@);
            assert forall|j: int| 0 <= j < tv.len() implies leaf_at(nodes, root, (#[trigger] tv[j]).1)
                == Some(tv[j].0) by {
                let c = codes@[r@[j].symbol as int].unwrap()@;
                assert(code_ok(nodes, root, Seq::empty(), c, r@[j].symbol));
                assert(c.subrange(0, c.len() as int) == c);
            }
            assert forall|j: int| 0 <= j < tv.len() implies (#[trigger] tv[j]).1.len() > 0 by {
                if tv[j].1.len() == 0 {
                    assert(leaf_at(nodes, root, tv[j].1) is None);
                }
            }
            assert forall|j: int| 0 <= j < r.len() implies (#[trigger] r@[j]).code.len()
                <= tree.nodes.len() by {
                assert(tv[j].1 == r@[j].code@);
                assert(leaf_at(nodes, root, tv[j].1) is Some);
                lemma_walk_depth(nodes, root, tv[j].1);
                lemma_walk_in_arena(nodes, root, tv[j].1);
            }
            assert(distinct_symbols(tv)) by {
                assert forall|a: int, b: int|
                    0 <= a < tv.len() && 0 <= b < tv.len() && a != b implies #[trigger] tv[a].0
                    != #[trigger] tv[b].0 by {
                    if a < b {
                        assert(r@[a].symbol < r@[b].symbol);
                    } else {
                        assert(r@[b].symbol < r@[a].symbol);
                    }
                }
            }
            proof {
                lemma_tree_codes_prefix_free(nodes, root, tv);
            }
            assert forall|t: u8| has_symbol(tv, t) <==> has_leaf(nodes, root, t) by {
                if has_leaf(nodes, root, t) {
                    let p = choose|p: Seq<bool>| leaf_at(nodes, root, p) == Some(t);
                    assert(leaf_at(nodes, root, p) is Some);
                    assert(codes@[t as int] is Some);
                }
                if has_symbol(tv, t) {
                    let i = choose|i: int| 0 <= i < tv.len() && (#[trigger] tv[i]).0 == t;
                    assert(leaf_at(nodes, root, tv[i].1) == Some(t));
                }
            }
            r
        },
    }
}

} // verus!
