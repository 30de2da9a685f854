//! Huffman tree construction.
//!
//! The tree is an arena of nodes addressed by index: each internal node
//! stores the indices of its two children, and children always come before
//! their parent, so the structure is acyclic by construction.  Building
//! seeds one leaf per frequency entry, keeps a merge candidate list sorted
//! ascending by weight, and repeatedly merges the two lowest-weight
//! candidates until one root remains.
//!
//! Of the two candidates taken in a merge, the first (lowest) becomes the
//! right child and the second the left child.  Of two candidates with equal
//! weight the earlier one is taken first, and a merged node is inserted
//! after all candidates of the same weight, so construction is fully
//! deterministic.  The spec functions `spec_seed`, `spec_merge_step` and
//! `spec_build` state this construction mathematically, and the builder's
//! contract pins its result to them.

use vstd::prelude::*;
use vstd::multiset::Multiset;
use vstd::seq_lib::lemma_multiset_commutative;

use crate::errors::HuffError;
use crate::freq::FreqTable;
use crate::freq::total_count;

verus! {

/// A node of the Huffman tree.
#[derive(Clone, Copy, Debug)]
pub enum HuffNode {
    /// Holds a symbol and its frequency.
    Leaf { symbol: char, weight: u64 },
    /// Owns two children by arena index and carries the sum of their
    /// weights.
    Internal { left: usize, right: usize, weight: u64 },
}

/// A completed Huffman tree: an arena of nodes and the index of its root.
pub struct HuffTree {
    /// The node arena; children always come before their parent.
    pub nodes: Vec<HuffNode>,
    /// Index of the root node.
    pub root: usize,
}

/// The weight a node carries.
pub open spec fn weight_of(n: HuffNode) -> u64 {
    match n {
        HuffNode::Leaf { weight, .. } => weight,
        HuffNode::Internal { weight, .. } => weight,
    }
}

/// Node `i` of the arena points only at strictly earlier nodes and, if
/// internal, carries the sum of its children's weights.
pub open spec fn node_ok(nodes: Seq<HuffNode>, i: int) -> bool {
    match nodes[i] {
        HuffNode::Internal { left, right, weight } => {
            &&& left < i
            &&& right < i
            &&& weight == weight_of(nodes[left as int]) + weight_of(nodes[right as int])
        },
        HuffNode::Leaf { .. } => true,
    }
}

/// An arena is well formed when every node is.
pub open spec fn wf_arena(nodes: Seq<HuffNode>) -> bool {
    forall|i: int| 0 <= i < nodes.len() ==> #[trigger] node_ok(nodes, i)
}

/// The symbols at the leaves of the subtree rooted at `i`, left to right.
pub open spec fn leaves(nodes: Seq<HuffNode>, i: int) -> Seq<char>
    decreases i when 0 <= i
{
    if 0 <= i < nodes.len() {
        match nodes[i] {
            HuffNode::Leaf { symbol, .. } => seq![symbol],
            HuffNode::Internal { left, right, .. } => {
                if left < i && right < i {
                    leaves(nodes, left as int) + leaves(nodes, right as int)
                } else {
                    Seq::empty()
                }
            },
        }
    } else {
        Seq::empty()
    }
}

/// The leaf symbols of all candidate subtrees, in candidate order.
pub open spec fn all_leaves(nodes: Seq<HuffNode>, cands: Seq<usize>) -> Seq<char>
    decreases cands.len(),
{
    if cands.len() == 0 {
        Seq::empty()
    } else {
        leaves(nodes, cands[0] as int) + all_leaves(nodes, cands.drop_first())
    }
}

/// The sum of the weights of all candidate subtrees.
pub open spec fn cand_weight_sum(nodes: Seq<HuffNode>, cands: Seq<usize>) -> int
    decreases cands.len(),
{
    if cands.len() == 0 {
        0
    } else {
        weight_of(nodes[cands[0] as int]) + cand_weight_sum(nodes, cands.drop_first())
    }
}

impl HuffTree {
    /// Well-formedness: the arena is well formed and the root is a node.
    pub open spec fn wf(self) -> bool {
        &&& wf_arena(self.nodes@)
        &&& self.root < self.nodes@.len()
    }

    /// The leaf symbols of the whole tree, left to right.
    pub open spec fn leaf_symbols(self) -> Seq<char> {
        leaves(self.nodes@, self.root as int)
    }
}

/// Appending a node to the arena changes no existing subtree.
proof fn lemma_leaves_push(nodes: Seq<HuffNode>, n: HuffNode, i: int)
    requires
        0 <= i < nodes.len(),
    ensures
        leaves(nodes.push(n), i) == leaves(nodes, i),
    decreases i,
{
    match nodes[i] {
        HuffNode::Leaf { .. } => {},
        HuffNode::Internal { left, right, .. } => {
            if left < i && right < i {
                lemma_leaves_push(nodes, n, left as int);
                lemma_leaves_push(nodes, n, right as int);
            }
        },
    }
}

/// Appending a node to the arena changes neither the candidate leaves nor
/// the candidate weight sum.
proof fn lemma_all_leaves_push(nodes: Seq<HuffNode>, n: HuffNode, cands: Seq<usize>)
    requires
        forall|k: int| 0 <= k < cands.len() ==> (#[trigger] cands[k]) < nodes.len(),
    ensures
        all_leaves(nodes.push(n), cands) == all_leaves(nodes, cands),
        cand_weight_sum(nodes.push(n), cands) == cand_weight_sum(nodes, cands),
    decreases cands.len(),
{
    if cands.len() > 0 {
        lemma_leaves_push(nodes, n, cands[0] as int);
        assert(forall|k: int|
            0 <= k < cands.drop_first().len() ==> (#[trigger] cands.drop_first()[k])
                < nodes.len());
        lemma_all_leaves_push(nodes, n, cands.drop_first());
    }
}

/// Candidate leaves and weights distribute over concatenation of
/// candidate lists.
proof fn lemma_all_leaves_add(nodes: Seq<HuffNode>, c1: Seq<usize>, c2: Seq<usize>)
    ensures
        all_leaves(nodes, c1 + c2) == all_leaves(nodes, c1) + all_leaves(nodes, c2),
        cand_weight_sum(nodes, c1 + c2) == cand_weight_sum(nodes, c1) + cand_weight_sum(
            nodes,
            c2,
        ),
    decreases c1.len(),
{
    if c1.len() == 0 {
        assert(c1 + c2 =~= c2);
        assert(all_leaves(nodes, c1) + all_leaves(nodes, c2) =~= all_leaves(nodes, c2));
    } else {
        assert((c1 + c2).drop_first() =~= c1.drop_first() + c2);
        lemma_all_leaves_add(nodes, c1.drop_first(), c2);
        assert(all_leaves(nodes, c1 + c2) =~= all_leaves(nodes, c1) + all_leaves(nodes, c2));
    }
}

/// A candidate list of one element contributes exactly that subtree.
proof fn lemma_all_leaves_singleton(nodes: Seq<HuffNode>, c: usize)
    ensures
        all_leaves(nodes, seq![c]) =~= leaves(nodes, c as int),
        cand_weight_sum(nodes, seq![c]) == weight_of(nodes[c as int]),
{
    let s = seq![c];
    assert(s[0] == c);
    assert(s.drop_first() =~= Seq::<usize>::empty());
    assert(all_leaves(nodes, s.drop_first()) =~= Seq::<char>::empty());
    assert(cand_weight_sum(nodes, s.drop_first()) == 0);
}

/// Every weight sum of candidates is non-negative.
proof fn lemma_cand_weight_sum_nonneg(nodes: Seq<HuffNode>, cands: Seq<usize>)
    ensures
        cand_weight_sum(nodes, cands) >= 0,
    decreases cands.len(),
{
    if cands.len() > 0 {
        lemma_cand_weight_sum_nonneg(nodes, cands.drop_first());
    }
}

/// Pushing a node whose children (if any) lie in the arena and whose
/// weight is the sum of theirs keeps the arena well formed.
proof fn lemma_wf_push(nodes: Seq<HuffNode>, n: HuffNode)
    requires
        wf_arena(nodes),
        match n {
            HuffNode::Internal { left, right, weight } => {
                &&& left < nodes.len()
                &&& right < nodes.len()
                &&& weight == weight_of(nodes[left as int]) + weight_of(nodes[right as int])
            },
            HuffNode::Leaf { .. } => true,
        },
    ensures
        wf_arena(nodes.push(n)),
{
    let ns = nodes.push(n);
    assert forall|i: int| 0 <= i < ns.len() implies #[trigger] node_ok(ns, i) by {
        if i < nodes.len() {
            assert(node_ok(nodes, i));
            assert(ns[i] == nodes[i]);
            match nodes[i] {
                HuffNode::Internal { left, right, .. } => {
                    assert(ns[left as int] == nodes[left as int]);
                    assert(ns[right as int] == nodes[right as int]);
                },
                HuffNode::Leaf { .. } => {},
            }
        } else {
            assert(ns[i] == n);
            match n {
                HuffNode::Internal { left, right, .. } => {
                    assert(ns[left as int] == nodes[left as int]);
                    assert(ns[right as int] == nodes[right as int]);
                },
                HuffNode::Leaf { .. } => {},
            }
        }
    }
}

/// Pushing a node to the arena keeps a candidate list sorted and in
/// bounds.
proof fn lemma_push_preserves(nodes: Seq<HuffNode>, n: HuffNode, cands: Seq<usize>)
    requires
        forall|k: int| 0 <= k < cands.len() ==> (#[trigger] cands[k]) < nodes.len(),
        sorted_by_weight(nodes, cands),
    ensures
        sorted_by_weight(nodes.push(n), cands),
        forall|k: int| 0 <= k < cands.len() ==> (#[trigger] cands[k]) < nodes.push(n).len(),
{
    let ns = nodes.push(n);
    assert forall|k1: int, k2: int| 0 <= k1 <= k2 < cands.len() implies weight_of(
        ns[#[trigger] cands[k1] as int],
    ) <= weight_of(ns[#[trigger] cands[k2] as int]) by {
        assert(ns[cands[k1] as int] == nodes[cands[k1] as int]);
        assert(ns[cands[k2] as int] == nodes[cands[k2] as int]);
        assert(weight_of(nodes[cands[k1] as int]) <= weight_of(nodes[cands[k2] as int]));
    }
}

/// Reads entry `i` of a frequency table.
fn entry_at(freq: &FreqTable, i: usize) -> (e: (char, u64))
    requires
        i < freq.entries@.len(),
    ensures
        e == freq.entries@[i as int],
{
    freq.entries[i]
}

/// Reads the weight of node `i`.
fn node_weight(nodes: &Vec<HuffNode>, i: usize) -> (w: u64)
    requires
        i < nodes@.len(),
    ensures
        w == weight_of(nodes@[i as int]),
{
    match nodes[i] {
        HuffNode::Leaf { weight, .. } => weight,
        HuffNode::Internal { weight, .. } => weight,
    }
}

/// Candidates sorted ascending by the weight of the subtree they root.
pub open spec fn sorted_by_weight(nodes: Seq<HuffNode>, cands: Seq<usize>) -> bool {
    forall|k1: int, k2: int|
        0 <= k1 <= k2 < cands.len() ==> weight_of(nodes[#[trigger] cands[k1] as int]) <= weight_of(
            nodes[#[trigger] cands[k2] as int],
        )
}

/// Where a candidate of weight `w` lands in a candidate list: after the
/// leading run of candidates whose weight does not exceed `w`.
pub open spec fn spec_insert_pos(nodes: Seq<HuffNode>, cands: Seq<usize>, w: u64) -> int
    decreases cands.len(),
{
    if cands.len() == 0 {
        0
    } else if weight_of(nodes[cands[0] as int]) <= w {
        1 + spec_insert_pos(nodes, cands.drop_first(), w)
    } else {
        0
    }
}

/// One seeding step of the documented construction: a leaf for
/// `(sym, wt)` goes to the end of the arena and its index into the
/// candidate list, after every candidate of weight at most `wt`.
pub open spec fn spec_seed_step(
    nodes: Seq<HuffNode>,
    cands: Seq<usize>,
    sym: char,
    wt: u64,
) -> (Seq<HuffNode>, Seq<usize>) {
    let leaf = HuffNode::Leaf { symbol: sym, weight: wt };
    let grown = nodes.push(leaf);
    (grown, cands.insert(spec_insert_pos(grown, cands, wt), nodes.len() as usize))
}

/// The seeded state of the construction: one leaf per frequency entry,
/// taken in entry order.
pub open spec fn spec_seed(entries: Seq<(char, u64)>) -> (Seq<HuffNode>, Seq<usize>)
    decreases entries.len(),
{
    if entries.len() == 0 {
        (Seq::empty(), Seq::empty())
    } else {
        let prev = spec_seed(entries.drop_last());
        spec_seed_step(prev.0, prev.1, entries.last().0, entries.last().1)
    }
}

/// One merge step of the documented construction: the two lowest-weight
/// candidates come out, the first taken becomes the right child and the
/// second the left child of a fresh internal node carrying their summed
/// weight, and that node goes back in after candidates of equal weight.
pub open spec fn spec_merge_step(nodes: Seq<HuffNode>, cands: Seq<usize>) -> (
    Seq<HuffNode>,
    Seq<usize>,
)
    recommends
        cands.len() >= 2,
{
    let a = cands[0];
    let b = cands[1];
    let rest = cands.subrange(2, cands.len() as int);
    let w = (weight_of(nodes[a as int]) + weight_of(nodes[b as int])) as u64;
    let merged = HuffNode::Internal { left: b, right: a, weight: w };
    let grown = nodes.push(merged);
    (grown, rest.insert(spec_insert_pos(grown, rest, w), nodes.len() as usize))
}

/// The insertion position lies within the list.
pub proof fn lemma_insert_pos_range(nodes: Seq<HuffNode>, cands: Seq<usize>, w: u64)
    ensures
        0 <= spec_insert_pos(nodes, cands, w) <= cands.len(),
    decreases cands.len(),
{
    if cands.len() > 0 && weight_of(nodes[cands[0] as int]) <= w {
        lemma_insert_pos_range(nodes, cands.drop_first(), w);
    }
}

#[via_fn]
proof fn spec_merge_all_dec(nodes: Seq<HuffNode>, cands: Seq<usize>) {
    if cands.len() > 1 {
        let rest = cands.subrange(2, cands.len() as int);
        let stepped = spec_merge_step(nodes, cands);
        lemma_insert_pos_range(stepped.0, rest, weight_of(stepped.0[nodes.len() as int]));
        assert(stepped.1.len() == cands.len() - 1);
    }
}

/// Merging run to completion: one candidate remains.
pub open spec fn spec_merge_all(nodes: Seq<HuffNode>, cands: Seq<usize>) -> (
    Seq<HuffNode>,
    Seq<usize>,
)
    decreases cands.len() via spec_merge_all_dec
{
    if cands.len() <= 1 {
        (nodes, cands)
    } else {
        let stepped = spec_merge_step(nodes, cands);
        spec_merge_all(stepped.0, stepped.1)
    }
}

/// The completed construction over a frequency table: the arena and the
/// one remaining candidate, the root.  This is the normative definition
/// of the tree the builder produces; the builder's contract pins its
/// result to it, which makes construction a pure function of the table.
pub open spec fn spec_build(entries: Seq<(char, u64)>) -> (Seq<HuffNode>, Seq<usize>) {
    let seeded = spec_seed(entries);
    spec_merge_all(seeded.0, seeded.1)
}

/// The position the insertion scan stops at is the spec-level one.
proof fn lemma_insert_pos_exact(nodes: Seq<HuffNode>, cands: Seq<usize>, w: u64, p: int)
    requires
        0 <= p <= cands.len(),
        forall|k: int| 0 <= k < p ==> weight_of(nodes[(#[trigger] cands[k]) as int]) <= w,
        p == cands.len() || weight_of(nodes[cands[p] as int]) > w,
    ensures
        spec_insert_pos(nodes, cands, w) == p,
    decreases p,
{
    if p == 0 {
    } else {
        assert(weight_of(nodes[cands[0] as int]) <= w);
        assert forall|k: int| 0 <= k < p - 1 implies weight_of(
            nodes[(#[trigger] cands.drop_first()[k]) as int],
        ) <= w by {
            assert(cands.drop_first()[k] == cands[k + 1]);
        }
        if p - 1 < cands.drop_first().len() {
            assert(cands.drop_first()[p - 1] == cands[p]);
        }
        lemma_insert_pos_exact(nodes, cands.drop_first(), w, p - 1);
    }
}

/// Inserts candidate `idx` into the sorted list, after every candidate of
/// weight less than or equal to its own, keeping the list sorted.
fn insert_sorted(nodes: &Vec<HuffNode>, cands: &mut Vec<usize>, idx: usize) -> (p: usize)
    requires
        idx < nodes@.len(),
        forall|k: int| 0 <= k < old(cands)@.len() ==> (#[trigger] old(cands)@[k]) < nodes@.len(),
        sorted_by_weight(nodes@, old(cands)@),
    ensures
        p <= old(cands)@.len(),
        final(cands)@ == old(cands)@.insert(p as int, idx),
        forall|k: int|
            0 <= k < p ==> weight_of(nodes@[#[trigger] old(cands)@[k] as int]) <= weight_of(
                nodes@[idx as int],
            ),
        forall|k: int|
            p <= k < old(cands)@.len() ==> weight_of(nodes@[#[trigger] old(cands)@[k] as int])
                > weight_of(nodes@[idx as int]),
        sorted_by_weight(nodes@, final(cands)@),
        forall|k: int| 0 <= k < final(cands)@.len() ==> (#[trigger] final(cands)@[k]) < nodes@.len(),
        p == spec_insert_pos(nodes@, old(cands)@, weight_of(nodes@[idx as int])),
{
    let w = node_weight(nodes, idx);
    let mut p: usize = 0;
    while p < cands.len() && node_weight(nodes, cands[p]) <= w
        invariant
            0 <= p <= cands@.len(),
            idx < nodes@.len(),
            forall|k: int| 0 <= k < cands@.len() ==> (#[trigger] cands@[k]) < nodes@.len(),
            w == weight_of(nodes@[idx as int]),
            forall|k: int|
                0 <= k < p ==> weight_of(nodes@[#[trigger] cands@[k] as int]) <= w,
        decreases cands@.len() - p,
    {
        p += 1;
    }
    let ghost before = cands@;
    proof {
        lemma_insert_pos_exact(nodes@, before, w, p as int);
        if p < before.len() {
            assert forall|k: int|
                p <= k < before.len() implies weight_of(nodes@[#[trigger] before[k] as int])
                > w by {
                assert(weight_of(nodes@[before[p as int] as int]) <= weight_of(
                    nodes@[before[k] as int],
                ));
            }
        }
    }
    cands.insert(p, idx);
    proof {
        let after = cands@;
        assert forall|k1: int, k2: int| 0 <= k1 <= k2 < after.len() implies weight_of(
            nodes@[#[trigger] after[k1] as int],
        ) <= weight_of(nodes@[#[trigger] after[k2] as int]) by {
            let a1 = if k1 < p { before[k1] } else if k1 == p { idx } else { before[k1 - 1] };
            let a2 = if k2 < p { before[k2] } else if k2 == p { idx } else { before[k2 - 1] };
            assert(after[k1] == a1);
            assert(after[k2] == a2);
        }
    }
    p
}

/// Seeds one leaf candidate: appends a leaf node for `(sym, wt)` to the
/// arena and inserts it into the sorted candidate list.
fn push_leaf_candidate(nodes: &mut Vec<HuffNode>, cands: &mut Vec<usize>, sym: char, wt: u64)
    requires
        wf_arena(old(nodes)@),
        forall|k: int|
            0 <= k < old(cands)@.len() ==> (#[trigger] old(cands)@[k]) < old(nodes)@.len(),
        sorted_by_weight(old(nodes)@, old(cands)@),
    ensures
        final(nodes)@ == old(nodes)@.push(HuffNode::Leaf { symbol: sym, weight: wt }),
        final(nodes)@.len() == old(nodes)@.len() + 1,
        wf_arena(final(nodes)@),
        forall|k: int|
            0 <= k < final(cands)@.len() ==> (#[trigger] final(cands)@[k]) < final(nodes)@.len(),
        sorted_by_weight(final(nodes)@, final(cands)@),
        final(cands)@.len() == old(cands)@.len() + 1,
        all_leaves(final(nodes)@, final(cands)@).to_multiset() == all_leaves(
            old(nodes)@,
            old(cands)@,
        ).to_multiset().insert(sym),
        cand_weight_sum(final(nodes)@, final(cands)@) == cand_weight_sum(
            old(nodes)@,
            old(cands)@,
        ) + wt,
        forall|es: Seq<(char, u64)>|
            leaf_weights_from(old(nodes)@, es) && es.contains((sym, wt))
                ==> #[trigger] leaf_weights_from(final(nodes)@, es),
        final(nodes)@ == spec_seed_step(old(nodes)@, old(cands)@, sym, wt).0,
        final(cands)@ == spec_seed_step(old(nodes)@, old(cands)@, sym, wt).1,
{
    let ghost nodes0 = nodes@;
    let ghost cands0 = cands@;
    let leaf = HuffNode::Leaf { symbol: sym, weight: wt };
    nodes.push(leaf);
    proof {
        lemma_wf_push(nodes0, leaf);
        lemma_all_leaves_push(nodes0, leaf, cands0);
        lemma_push_preserves(nodes0, leaf, cands0);
    }
    let idx = nodes.len() - 1;
    let ghost cands1 = cands@;
    let p = insert_sorted(nodes, cands, idx);
    proof {
        assert(nodes@[idx as int] == leaf);
        assert(leaves(nodes@, idx as int) =~= seq![sym]);
        lemma_insert_split(nodes@, cands1, idx, p as int);
        assert(seq![sym] =~= Seq::<char>::empty().push(sym));
        Seq::<char>::empty().to_multiset_ensures();
        assert(seq![sym].to_multiset() =~= Multiset::<char>::empty().insert(sym));
        assert(all_leaves(nodes@, cands@).to_multiset() =~= all_leaves(
            nodes0,
            cands0,
        ).to_multiset().insert(sym));
        assert(weight_of(nodes@[idx as int]) == wt);
        // the step lands exactly where the documented construction says
        assert(idx == nodes0.len());
        assert(nodes@ == spec_seed_step(nodes0, cands0, sym, wt).0);
        assert(p == spec_insert_pos(nodes@, cands0, wt));
        assert(cands@ == spec_seed_step(nodes0, cands0, sym, wt).1);
        assert forall|es: Seq<(char, u64)>|
            leaf_weights_from(nodes0, es) && es.contains((sym, wt)) implies #[trigger] leaf_weights_from(
            nodes@,
            es,
        ) by {
            assert forall|j: int| 0 <= j < nodes@.len() implies match #[trigger] nodes@[j] {
                HuffNode::Leaf { symbol, weight } => es.contains((symbol, weight)),
                HuffNode::Internal { .. } => true,
            } by {
                if j < nodes0.len() {
                    assert(nodes@[j] == nodes0[j]);
                } else {
                    assert(nodes@[j] == leaf);
                }
            }
        }
    }
}

/// One merge step: takes the two lowest-weight candidates out, merges
/// them under a fresh internal node, and inserts it back.  The candidate
/// leaves and the candidate weight sum are unchanged.
fn merge_lowest(nodes: &mut Vec<HuffNode>, cands: &mut Vec<usize>)
    requires
        old(cands)@.len() >= 2,
        wf_arena(old(nodes)@),
        forall|k: int|
            0 <= k < old(cands)@.len() ==> (#[trigger] old(cands)@[k]) < old(nodes)@.len(),
        sorted_by_weight(old(nodes)@, old(cands)@),
        cand_weight_sum(old(nodes)@, old(cands)@) <= u64::MAX,
    ensures
        wf_arena(final(nodes)@),
        forall|k: int|
            0 <= k < final(cands)@.len() ==> (#[trigger] final(cands)@[k]) < final(nodes)@.len(),
        sorted_by_weight(final(nodes)@, final(cands)@),
        final(cands)@.len() == old(cands)@.len() - 1,
        all_leaves(final(nodes)@, final(cands)@).to_multiset() == all_leaves(
            old(nodes)@,
            old(cands)@,
        ).to_multiset(),
        cand_weight_sum(final(nodes)@, final(cands)@) == cand_weight_sum(
            old(nodes)@,
            old(cands)@,
        ),
        forall|es: Seq<(char, u64)>|
            leaf_weights_from(old(nodes)@, es) ==> #[trigger] leaf_weights_from(
                final(nodes)@,
                es,
            ),
        final(nodes)@ == spec_merge_step(old(nodes)@, old(cands)@).0,
        final(cands)@ == spec_merge_step(old(nodes)@, old(cands)@).1,
{
    let ghost nodes0 = nodes@;
    let ghost cands0 = cands@;
    let a = cands.remove(0);
    let b = cands.remove(0);
    let ghost rest = cands@;
    proof {
        assert(cands0[0] == a);
        assert(cands0.drop_first() =~= cands0.remove(0));
        assert(cands0.drop_first()[0] == b);
        assert(rest =~= cands0.drop_first().drop_first());
        assert(b < nodes0.len()) by {
            assert(cands0[1] == b);
        }
        // weight decomposition of the candidate list taken apart
        assert(cand_weight_sum(nodes0, cands0) == weight_of(nodes0[a as int])
            + cand_weight_sum(nodes0, cands0.drop_first()));
        assert(cand_weight_sum(nodes0, cands0.drop_first()) == weight_of(nodes0[b as int])
            + cand_weight_sum(nodes0, rest));
        lemma_cand_weight_sum_nonneg(nodes0, rest);
        assert forall|k: int| 0 <= k < rest.len() implies (#[trigger] rest[k])
            < nodes0.len() by {
            assert(rest[k] == cands0[k + 2]);
        }
        assert(sorted_by_weight(nodes0, rest)) by {
            assert forall|k1: int, k2: int| 0 <= k1 <= k2 < rest.len() implies weight_of(
                nodes0[#[trigger] rest[k1] as int],
            ) <= weight_of(nodes0[#[trigger] rest[k2] as int]) by {
                assert(rest[k1] == cands0[k1 + 2]);
                assert(rest[k2] == cands0[k2 + 2]);
            }
        }
    }
    let wa = node_weight(nodes, a);
    let wb = node_weight(nodes, b);
    let w = wa + wb;
    // the first candidate taken becomes the right child, the second the
    // left child
    let merged = HuffNode::Internal { left: b, right: a, weight: w };
    nodes.push(merged);
    proof {
        lemma_wf_push(nodes0, merged);
        lemma_all_leaves_push(nodes0, merged, rest);
        lemma_push_preserves(nodes0, merged, rest);
        lemma_leaves_push(nodes0, merged, a as int);
        lemma_leaves_push(nodes0, merged, b as int);
    }
    let idx = nodes.len() - 1;
    proof {
        assert(nodes@[idx as int] == merged);
        assert(b < idx && a < idx);
        assert(leaves(nodes@, idx as int) =~= leaves(nodes0, b as int) + leaves(
            nodes0,
            a as int,
        ));
    }
    let ghost cands1 = cands@;
    let p = insert_sorted(nodes, cands, idx);
    proof {
        lemma_insert_split(nodes@, cands1, idx, p as int);
        // multisets: the two subtrees taken out reappear under the merged
        // node
        let la = leaves(nodes0, a as int);
        let lb = leaves(nodes0, b as int);
        let lrest = all_leaves(nodes0, rest);
        assert(all_leaves(nodes0, cands0) == la + all_leaves(nodes0, cands0.drop_first()));
        assert(all_leaves(nodes0, cands0.drop_first()) == lb + lrest);
        lemma_multiset_commutative(la, lb + lrest);
        lemma_multiset_commutative(lb, lrest);
        lemma_multiset_commutative(lb, la);
        assert(all_leaves(nodes@, cands1) == lrest);
        assert(leaves(nodes@, idx as int).to_multiset() =~= lb.to_multiset().add(
            la.to_multiset(),
        ));
        assert(all_leaves(nodes@, cands@).to_multiset() =~= all_leaves(
            nodes0,
            cands0,
        ).to_multiset());
        // weights: the merged node carries what the two taken out did
        assert(cand_weight_sum(nodes@, cands@) == cand_weight_sum(nodes0, rest) + w);
        // the step lands exactly where the documented construction says
        assert(rest =~= cands0.subrange(2, cands0.len() as int));
        assert((weight_of(nodes0[a as int]) + weight_of(nodes0[b as int])) as u64 == w);
        assert(nodes@ == spec_merge_step(nodes0, cands0).0);
        assert(idx == nodes0.len());
        assert(weight_of(nodes@[idx as int]) == w);
        assert(p == spec_insert_pos(nodes@, rest, w));
        assert(cands@ == spec_merge_step(nodes0, cands0).1);
    }
}

/// Every leaf of the arena carries a symbol and weight that stand as an
/// entry of the frequency table.
pub open spec fn leaf_weights_from(nodes: Seq<HuffNode>, entries: Seq<(char, u64)>) -> bool {
    forall|j: int|
        0 <= j < nodes.len() ==> match #[trigger] nodes[j] {
            HuffNode::Leaf { symbol, weight } => entries.contains((symbol, weight)),
            HuffNode::Internal { .. } => true,
        }
}

/// Builds the Huffman tree of a non-empty frequency table by repeatedly
/// merging the two lowest-weight candidates.  The result is pinned to
/// the documented construction: the arena and root equal `spec_build` of
/// the entries, so building is a pure function of the frequency table
/// and equal runs yield the identical tree.  The leaves are exactly the
/// table's symbols with their counts as weights.  Fails with
/// `EmptyInput` if and only if the table is empty.
#[verifier::rlimit(100)]
pub fn build_huffman_tree(freq: &FreqTable) -> (r: Result<HuffTree, HuffError>)
    requires
        freq.wf(),
        total_count(freq.entries@) <= u64::MAX,
    ensures
        match r {
            Ok(t) => {
                &&& t.wf()
                &&& t.nodes@ == spec_build(freq.entries@).0
                &&& spec_build(freq.entries@).1 == seq![t.root]
                &&& t.leaf_symbols().to_multiset() == freq.symbols().to_multiset()
                &&& weight_of(t.nodes@[t.root as int]) == total_count(freq.entries@)
                &&& leaf_weights_from(t.nodes@, freq.entries@)
                &&& freq.entries@.len() > 0
            },
            Err(e) => {
                &&& e == HuffError::EmptyInput
                &&& freq.entries@.len() == 0
            },
        },
{
    if freq.len() == 0 {
        return Err(HuffError::EmptyInput);
    }
    let mut nodes: Vec<HuffNode> = Vec::new();
    let mut cands: Vec<usize> = Vec::new();
    let n = freq.len();
    proof {
        assert(all_leaves(nodes@, cands@) =~= Seq::<char>::empty());
        assert(freq.symbols().take(0) =~= Seq::<char>::empty());
        assert(cand_weight_sum(nodes@, cands@) == 0);
        assert(freq.entries@.take(0) =~= Seq::<(char, u64)>::empty());
        assert(total_count(freq.entries@.take(0)) == 0);
        assert(spec_seed(Seq::<(char, u64)>::empty()) == (
            Seq::<HuffNode>::empty(),
            Seq::<usize>::empty(),
        ));
        assert(nodes@ =~= Seq::<HuffNode>::empty());
        assert(cands@ =~= Seq::<usize>::empty());
    }
    let mut i: usize = 0;
    while i < n
        invariant
            0 <= i <= n,
            n == freq.entries@.len(),
            freq.wf(),
            total_count(freq.entries@) <= u64::MAX,
            nodes@.len() == i,
            wf_arena(nodes@),
            cands@.len() == i,
            forall|k: int| 0 <= k < cands@.len() ==> (#[trigger] cands@[k]) < nodes@.len(),
            sorted_by_weight(nodes@, cands@),
            all_leaves(nodes@, cands@).to_multiset() == freq.symbols().take(
                i as int,
            ).to_multiset(),
            cand_weight_sum(nodes@, cands@) == total_count(freq.entries@.take(i as int)),
            leaf_weights_from(nodes@, freq.entries@),
            nodes@ == spec_seed(freq.entries@.take(i as int)).0,
            cands@ == spec_seed(freq.entries@.take(i as int)).1,
        decreases n - i,
    {
        let e = entry_at(freq, i);
        let ghost c = freq.entries@[i as int].0;
        let ghost w = freq.entries@[i as int].1;
        let ghost leaves0 = all_leaves(nodes@, cands@);
        proof {
            assert(freq.entries@.contains((c, w))) by {
                assert(freq.entries@[i as int] == (c, w));
            }
        }
        push_leaf_candidate(&mut nodes, &mut cands, e.0, e.1);
        proof {
            assert(freq.symbols().take(i + 1) =~= freq.symbols().take(i as int).push(c));
            freq.symbols().take(i as int).to_multiset_ensures();
            assert(freq.symbols().take(i + 1).to_multiset() =~= freq.symbols().take(
                i as int,
            ).to_multiset().insert(c));
            assert(freq.entries@.take(i + 1).drop_last() =~= freq.entries@.take(i as int));
            assert(freq.entries@.take(i + 1).last() == (c, w));
            assert(total_count(freq.entries@.take(i + 1)) == total_count(
                freq.entries@.take(i as int),
            ) + w);
            assert(spec_seed(freq.entries@.take(i + 1)) == spec_seed_step(
                spec_seed(freq.entries@.take(i as int)).0,
                spec_seed(freq.entries@.take(i as int)).1,
                c,
                w,
            ));
        }
        i += 1;
    }
    proof {
        assert(freq.symbols().take(n as int) =~= freq.symbols());
        assert(freq.entries@.take(n as int) =~= freq.entries@);
        assert(spec_build(freq.entries@) == spec_merge_all(nodes@, cands@));
    }
    while cands.len() > 1
        invariant
            freq.wf(),
            total_count(freq.entries@) <= u64::MAX,
            cands@.len() >= 1,
            wf_arena(nodes@),
            forall|k: int| 0 <= k < cands@.len() ==> (#[trigger] cands@[k]) < nodes@.len(),
            sorted_by_weight(nodes@, cands@),
            all_leaves(nodes@, cands@).to_multiset() == freq.symbols().to_multiset(),
            cand_weight_sum(nodes@, cands@) == total_count(freq.entries@),
            leaf_weights_from(nodes@, freq.entries@),
            spec_merge_all(nodes@, cands@) == spec_build(freq.entries@),
        decreases cands@.len(),
    {
        let ghost nodes0 = nodes@;
        let ghost cands0 = cands@;
        merge_lowest(&mut nodes, &mut cands);
        proof {
            assert(spec_merge_all(nodes0, cands0) == spec_merge_all(
                spec_merge_step(nodes0, cands0).0,
                spec_merge_step(nodes0, cands0).1,
            ));
        }
    }
    let root = cands[0];
    proof {
        assert(cands@ =~= seq![root]);
        lemma_all_leaves_singleton(nodes@, root);
        assert(all_leaves(nodes@, cands@) == leaves(nodes@, root as int));
        assert(spec_merge_all(nodes@, cands@) == (nodes@, cands@));
        assert(spec_build(freq.entries@).0 == nodes@);
        assert(spec_build(freq.entries@).1 == seq![root]);
    }
    Ok(HuffTree { nodes, root })
}

/// After inserting `idx` at position `p`, the candidate leaves are those
/// of the list before, plus the leaves under `idx`; likewise for weights.
proof fn lemma_insert_split(nodes: Seq<HuffNode>, cands: Seq<usize>, idx: usize, p: int)
    requires
        0 <= p <= cands.len(),
    ensures
        all_leaves(nodes, cands.insert(p, idx)).to_multiset() == all_leaves(
            nodes,
            cands,
        ).to_multiset().add(leaves(nodes, idx as int).to_multiset()),
        cand_weight_sum(nodes, cands.insert(p, idx)) == cand_weight_sum(nodes, cands) + weight_of(
            nodes[idx as int],
        ),
{
    let pre = cands.take(p);
    let post = cands.skip(p);
    assert(cands.insert(p, idx) =~= pre + (seq![idx] + post));
    assert(cands =~= pre + post);
    lemma_all_leaves_add(nodes, pre, seq![idx] + post);
    lemma_all_leaves_add(nodes, seq![idx], post);
    lemma_all_leaves_add(nodes, pre, post);
    lemma_all_leaves_singleton(nodes, idx);
    lemma_multiset_commutative(all_leaves(nodes, pre), all_leaves(nodes, seq![idx] + post));
    lemma_multiset_commutative(all_leaves(nodes, seq![idx]), all_leaves(nodes, post));
    lemma_multiset_commutative(all_leaves(nodes, pre), all_leaves(nodes, post));
    assert(all_leaves(nodes, cands.insert(p, idx)).to_multiset() =~= all_leaves(
        nodes,
        cands,
    ).to_multiset().add(leaves(nodes, idx as int).to_multiset()));
}

} // verus!
