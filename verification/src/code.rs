//! Code table derivation.
//!
//! A depth-first walk of the completed tree assigns each leaf the bit
//! path that reaches it: `false` for a left edge, `true` for a right
//! edge.  Codes of distinct leaves are never prefixes of one another,
//! which is what makes greedy decoding unambiguous.  A tree that is a
//! single leaf gets the one-bit code `false` (written `0` in the header),
//! since a zero-length code could not be decoded.

use vstd::prelude::*;

use crate::tree::HuffNode;
use crate::tree::HuffTree;
use crate::tree::leaves;
use crate::tree::node_ok;
use crate::tree::wf_arena;

verus! {

/// `a` is a prefix of `b` (possibly all of it).
pub open spec fn is_prefix(a: Seq<bool>, b: Seq<bool>) -> bool {
    a.len() <= b.len() && b.take(a.len() as int) == a
}

/// The symbols of a list of table entries, in entry order.
pub open spec fn table_keys(t: Seq<(char, Seq<bool>)>) -> Seq<char> {
    t.map_values(|e: (char, Seq<bool>)| e.0)
}

/// No entry's code is a prefix of another entry's code.
pub open spec fn prefix_free(t: Seq<(char, Seq<bool>)>) -> bool {
    forall|i: int, j: int|
        0 <= i < t.len() && 0 <= j < t.len() && i != j ==> !is_prefix(
            (#[trigger] t[i]).1,
            (#[trigger] t[j]).1,
        )
}

/// A usable code table: distinct symbols, non-empty codes, and no code a
/// prefix of another.
pub open spec fn wf_table(t: Seq<(char, Seq<bool>)>) -> bool {
    &&& table_keys(t).no_duplicates()
    &&& forall|i: int| 0 <= i < t.len() ==> (#[trigger] t[i]).1.len() > 0
    &&& prefix_free(t)
}

/// Mapping from symbol to bit code, one entry per distinct symbol of the
/// input.  Entries stand in depth-first order of the tree walk, which is
/// also the order the header writes them in.
pub struct CodeTable {
    /// The `(symbol, code)` pairs.
    pub entries: Vec<(char, Vec<bool>)>,
}

impl CodeTable {
    /// The entries as a mathematical sequence of `(symbol, code)` pairs.
    pub open spec fn table(self) -> Seq<(char, Seq<bool>)> {
        self.entries@.map_values(|e: (char, Vec<bool>)| (e.0, e.1@))
    }

    /// Number of entries.
    pub fn len(&self) -> (n: usize)
        ensures
            n == self.table().len(),
    {
        self.entries.len()
    }
}

/// The `(symbol, path)` pairs of every leaf under node `i`, where `path`
/// is the bit path from the walk's starting point down to `i`.
pub open spec fn path_codes(nodes: Seq<HuffNode>, i: int, path: Seq<bool>) -> Seq<
    (char, Seq<bool>),
>
    decreases i when 0 <= i
{
    if 0 <= i < nodes.len() {
        match nodes[i] {
            HuffNode::Leaf { symbol, .. } => seq![(symbol, path)],
            HuffNode::Internal { left, right, .. } => {
                if left < i && right < i {
                    path_codes(nodes, left as int, path.push(false)) + path_codes(
                        nodes,
                        right as int,
                        path.push(true),
                    )
                } else {
                    Seq::empty()
                }
            },
        }
    } else {
        Seq::empty()
    }
}

/// The code table a well-formed arena and root determine: the leaf
/// paths, except that a tree that is a single leaf assigns the code
/// `false`.
pub open spec fn table_of(nodes: Seq<HuffNode>, root: int) -> Seq<(char, Seq<bool>)> {
    match nodes[root] {
        HuffNode::Leaf { symbol, .. } => seq![(symbol, seq![false])],
        HuffNode::Internal { .. } => path_codes(nodes, root, Seq::empty()),
    }
}

/// The code table a well-formed tree determines.
pub open spec fn table_of_tree(t: HuffTree) -> Seq<(char, Seq<bool>)> {
    table_of(t.nodes@, t.root as int)
}

/// The keys of the path codes under a node are exactly its leaf symbols,
/// and every code extends the path the walk started with.
pub proof fn lemma_path_codes_shape(nodes: Seq<HuffNode>, i: int, path: Seq<bool>)
    requires
        wf_arena(nodes),
        0 <= i < nodes.len(),
    ensures
        table_keys(path_codes(nodes, i, path)) =~= leaves(nodes, i),
        forall|k: int|
            0 <= k < path_codes(nodes, i, path).len() ==> is_prefix(
                path,
                (#[trigger] path_codes(nodes, i, path)[k]).1,
            ),
    decreases i,
{
    assert(node_ok(nodes, i));
    match nodes[i] {
        HuffNode::Leaf { symbol, .. } => {
            assert(path_codes(nodes, i, path) =~= seq![(symbol, path)]);
            assert(table_keys(seq![(symbol, path)]) =~= seq![symbol]);
            assert(path.take(path.len() as int) =~= path);
        },
        HuffNode::Internal { left, right, .. } => {
            let lt = path_codes(nodes, left as int, path.push(false));
            let rt = path_codes(nodes, right as int, path.push(true));
            lemma_path_codes_shape(nodes, left as int, path.push(false));
            lemma_path_codes_shape(nodes, right as int, path.push(true));
            assert(table_keys(lt + rt) =~= table_keys(lt) + table_keys(rt));
            assert forall|k: int| 0 <= k < (lt + rt).len() implies is_prefix(
                path,
                (#[trigger] (lt + rt)[k]).1,
            ) by {
                if k < lt.len() {
                    assert((lt + rt)[k] == lt[k]);
                    assert(is_prefix(path.push(false), lt[k].1));
                    lemma_prefix_of_push(path, false, lt[k].1);
                } else {
                    assert((lt + rt)[k] == rt[k - lt.len()]);
                    assert(is_prefix(path.push(true), rt[k - lt.len()].1));
                    lemma_prefix_of_push(path, true, rt[k - lt.len()].1);
                }
            }
        },
    }
}

/// If `path + [b]` is a prefix of `c`, so is `path`.
proof fn lemma_prefix_of_push(path: Seq<bool>, b: bool, c: Seq<bool>)
    requires
        is_prefix(path.push(b), c),
    ensures
        is_prefix(path, c),
        c.len() > path.len(),
        c[path.len() as int] == b,
{
    assert(c.take(path.push(b).len() as int) == path.push(b));
    assert(c.take(path.len() as int) =~= path);
    assert(c[path.len() as int] == path.push(b)[path.len() as int]);
}

/// The path codes under any node form a prefix-free list.
pub proof fn lemma_path_codes_prefix_free(nodes: Seq<HuffNode>, i: int, path: Seq<bool>)
    requires
        wf_arena(nodes),
        0 <= i < nodes.len(),
    ensures
        prefix_free(path_codes(nodes, i, path)),
    decreases i,
{
    assert(node_ok(nodes, i));
    match nodes[i] {
        HuffNode::Leaf { symbol, .. } => {
            assert(path_codes(nodes, i, path) =~= seq![(symbol, path)]);
        },
        HuffNode::Internal { left, right, .. } => {
            let lt = path_codes(nodes, left as int, path.push(false));
            let rt = path_codes(nodes, right as int, path.push(true));
            let t = lt + rt;
            lemma_path_codes_prefix_free(nodes, left as int, path.push(false));
            lemma_path_codes_prefix_free(nodes, right as int, path.push(true));
            lemma_path_codes_shape(nodes, left as int, path.push(false));
            lemma_path_codes_shape(nodes, right as int, path.push(true));
            assert forall|a: int, b: int|
                0 <= a < t.len() && 0 <= b < t.len() && a != b implies !is_prefix(
                (#[trigger] t[a]).1,
                (#[trigger] t[b]).1,
            ) by {
                if a < lt.len() && b < lt.len() {
                    assert(t[a] == lt[a]);
                    assert(t[b] == lt[b]);
                    assert(!is_prefix(lt[a].1, lt[b].1));
                } else if a >= lt.len() && b >= lt.len() {
                    assert(t[a] == rt[a - lt.len()]);
                    assert(t[b] == rt[b - lt.len()]);
                    assert(!is_prefix(rt[a - lt.len()].1, rt[b - lt.len()].1));
                } else if a < lt.len() {
                    assert(t[a] == lt[a]);
                    assert(t[b] == rt[b - lt.len()]);
                    lemma_prefix_of_push(path, false, lt[a].1);
                    lemma_prefix_of_push(path, true, rt[b - lt.len()].1);
                    if is_prefix(t[a].1, t[b].1) {
                        assert(t[b].1.take(t[a].1.len() as int) == t[a].1);
                        assert(t[b].1[path.len() as int] == t[a].1[path.len() as int]);
                    }
                } else {
                    assert(t[a] == rt[a - lt.len()]);
                    assert(t[b] == lt[b]);
                    lemma_prefix_of_push(path, true, rt[a - lt.len()].1);
                    lemma_prefix_of_push(path, false, lt[b].1);
                    if is_prefix(t[a].1, t[b].1) {
                        assert(t[b].1.take(t[a].1.len() as int) == t[a].1);
                        assert(t[b].1[path.len() as int] == t[a].1[path.len() as int]);
                    }
                }
            }
        },
    }
}

/// Every code under an internal node is strictly longer than the path
/// the walk started with.
pub proof fn lemma_path_codes_nonempty(nodes: Seq<HuffNode>, i: int, path: Seq<bool>)
    requires
        wf_arena(nodes),
        0 <= i < nodes.len(),
        nodes[i] is Internal,
    ensures
        forall|k: int|
            0 <= k < path_codes(nodes, i, path).len() ==> (#[trigger] path_codes(
                nodes,
                i,
                path,
            )[k]).1.len() > path.len(),
{
    assert(node_ok(nodes, i));
    match nodes[i] {
        HuffNode::Leaf { .. } => {},
        HuffNode::Internal { left, right, .. } => {
            let lt = path_codes(nodes, left as int, path.push(false));
            let rt = path_codes(nodes, right as int, path.push(true));
            lemma_path_codes_shape(nodes, left as int, path.push(false));
            lemma_path_codes_shape(nodes, right as int, path.push(true));
            assert forall|k: int| 0 <= k < (lt + rt).len() implies (#[trigger] (lt + rt)[k]).1.len()
                > path.len() by {
                if k < lt.len() {
                    assert((lt + rt)[k] == lt[k]);
                    assert(is_prefix(path.push(false), lt[k].1));
                } else {
                    assert((lt + rt)[k] == rt[k - lt.len()]);
                    assert(is_prefix(path.push(true), rt[k - lt.len()].1));
                }
            }
        },
    }
}

/// Copies a bit string.
fn copy_bits(src: &Vec<bool>) -> (r: Vec<bool>)
    ensures
        r@ == src@,
{
    let mut r: Vec<bool> = Vec::new();
    let mut i: usize = 0;
    while i < src.len()
        invariant
            0 <= i <= src@.len(),
            r@ =~= src@.take(i as int),
        decreases src@.len() - i,
    {
        r.push(src[i]);
        proof {
            assert(r@ =~= src@.take(i + 1));
        }
        i += 1;
    }
    proof {
        assert(src@.take(src@.len() as int) =~= src@);
    }
    r
}

/// Reads node `i` of the arena.
fn node_at(nodes: &Vec<HuffNode>, i: usize) -> (n: HuffNode)
    requires
        i < nodes@.len(),
    ensures
        n == nodes@[i as int],
{
    nodes[i]
}

/// Walks the subtree under `i`, appending one `(symbol, code)` pair per
/// leaf, where the code extends `path` by the edges walked.
fn walk_codes(
    nodes: &Vec<HuffNode>,
    i: usize,
    path: &Vec<bool>,
    out: &mut Vec<(char, Vec<bool>)>,
)
    requires
        wf_arena(nodes@),
        i < nodes@.len(),
    ensures
        final(out)@.map_values(|e: (char, Vec<bool>)| (e.0, e.1@)) == old(out)@.map_values(
            |e: (char, Vec<bool>)| (e.0, e.1@),
        ) + path_codes(nodes@, i as int, path@),
    decreases i,
{
    proof {
        assert(node_ok(nodes@, i as int));
    }
    let n = node_at(nodes, i);
    match n {
        HuffNode::Leaf { symbol, .. } => {
            let code = copy_bits(path);
            let ghost out0 = out@;
            out.push((symbol, code));
            proof {
                assert(path_codes(nodes@, i as int, path@) =~= seq![(symbol, path@)]);
                assert(out@.map_values(|e: (char, Vec<bool>)| (e.0, e.1@)) =~= out0.map_values(
                    |e: (char, Vec<bool>)| (e.0, e.1@),
                ) + seq![(symbol, path@)]);
            }
        },
        HuffNode::Internal { left, right, .. } => {
            let ghost out0 = out@;
            let mut lp = copy_bits(path);
            lp.push(false);
            walk_codes(nodes, left, &lp, out);
            let mut rp = copy_bits(path);
            rp.push(true);
            walk_codes(nodes, right, &rp, out);
            proof {
                assert(lp@ =~= path@.push(false));
                assert(rp@ =~= path@.push(true));
                assert(out@.map_values(|e: (char, Vec<bool>)| (e.0, e.1@)) =~= out0.map_values(
                    |e: (char, Vec<bool>)| (e.0, e.1@),
                ) + path_codes(nodes@, i as int, path@));
            }
        },
    }
}

/// Derives the code table of a well-formed tree: one entry per leaf, in
/// depth-first order, carrying the leaf's bit path; a single-leaf tree
/// yields the one-bit code `false`.  The result is prefix-free with
/// non-empty codes, and its symbols are the tree's leaf symbols.
pub fn derive_codes(tree: &HuffTree) -> (t: CodeTable)
    requires
        tree.wf(),
    ensures
        t.table() == table_of_tree(*tree),
        table_keys(t.table()) =~= tree.leaf_symbols(),
        prefix_free(t.table()),
        forall|k: int| 0 <= k < t.table().len() ==> (#[trigger] t.table()[k]).1.len() > 0,
        tree.leaf_symbols().no_duplicates() ==> wf_table(t.table()),
{
    let mut entries: Vec<(char, Vec<bool>)> = Vec::new();
    let n = node_at(&tree.nodes, tree.root);
    match n {
        HuffNode::Leaf { symbol, .. } => {
            let mut code: Vec<bool> = Vec::new();
            code.push(false);
            entries.push((symbol, code));
            proof {
                assert(code@ =~= seq![false]);
                assert(table_of_tree(*tree) =~= seq![(symbol, seq![false])]);
                let t = entries@.map_values(|e: (char, Vec<bool>)| (e.0, e.1@));
                assert(t =~= seq![(symbol, seq![false])]);
                assert(leaves(tree.nodes@, tree.root as int) =~= seq![symbol]);
                assert(table_keys(t) =~= seq![symbol]);
            }
        },
        HuffNode::Internal { .. } => {
            let empty_path: Vec<bool> = Vec::new();
            let ghost e0 = entries@;
            walk_codes(&tree.nodes, tree.root, &empty_path, &mut entries);
            proof {
                let t = entries@.map_values(|e: (char, Vec<bool>)| (e.0, e.1@));
                assert(Seq::<(char, Seq<bool>)>::empty() + path_codes(
                    tree.nodes@,
                    tree.root as int,
                    Seq::empty(),
                ) =~= path_codes(tree.nodes@, tree.root as int, Seq::empty()));
                assert(e0.map_values(|e: (char, Vec<bool>)| (e.0, e.1@)) =~= Seq::<
                    (char, Seq<bool>),
                >::empty());
                assert(empty_path@ =~= Seq::<bool>::empty());
                lemma_path_codes_shape(tree.nodes@, tree.root as int, Seq::empty());
                lemma_path_codes_prefix_free(tree.nodes@, tree.root as int, Seq::empty());
                lemma_path_codes_nonempty(tree.nodes@, tree.root as int, Seq::empty());
            }
        },
    }
    CodeTable { entries }
}

/// Every subtree of a well-formed arena holds at least one leaf.
pub proof fn lemma_leaves_nonempty(nodes: Seq<HuffNode>, i: int)
    requires
        wf_arena(nodes),
        0 <= i < nodes.len(),
    ensures
        leaves(nodes, i).len() >= 1,
    decreases i,
{
    assert(node_ok(nodes, i));
    match nodes[i] {
        HuffNode::Leaf { .. } => {},
        HuffNode::Internal { left, right, .. } => {
            lemma_leaves_nonempty(nodes, left as int);
            lemma_leaves_nonempty(nodes, right as int);
        },
    }
}

/// The degenerate case pinned down: a well-formed tree with exactly one
/// leaf symbol is that single leaf, and its table assigns the symbol the
/// valid one-bit code `0`.
pub proof fn lemma_single_symbol_one_bit(t: HuffTree, c: char)
    requires
        t.wf(),
        t.leaf_symbols() == seq![c],
    ensures
        table_of_tree(t) == seq![(c, seq![false])],
{
    assert(node_ok(t.nodes@, t.root as int));
    match t.nodes@[t.root as int] {
        HuffNode::Leaf { symbol, .. } => {
            assert(leaves(t.nodes@, t.root as int) =~= seq![symbol]);
            assert(seq![symbol][0] == symbol);
            assert(symbol == c);
        },
        HuffNode::Internal { left, right, .. } => {
            lemma_leaves_nonempty(t.nodes@, left as int);
            lemma_leaves_nonempty(t.nodes@, right as int);
            assert(leaves(t.nodes@, t.root as int).len() >= 2);
            assert(false);
        },
    }
}

} // verus!
