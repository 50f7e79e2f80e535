//! Layered trees: every layer pairs neighbours left to right, a trailing odd
//! node is paired with itself, and the last layer holds the root alone.

use vstd::prelude::*;
use crate::digest::{hash_leaf, hash_pair, leaf_digest, node_digest};

verus! {

/// The digests of raw leaves, in order.
pub open spec fn leaf_digests(leaves: Seq<Seq<char>>) -> Seq<Seq<char>> {
    leaves.map_values(|l: Seq<char>| leaf_digest(l))
}

/// The partner of the node at position `i` when pairs are formed: the next
/// node, or the node itself when it is the odd tail of the layer.
pub open spec fn pair_partner(layer: Seq<Seq<char>>, i: int) -> Seq<char> {
    if i + 1 < layer.len() {
        layer[i + 1]
    } else {
        layer[i]
    }
}

/// The layer above `layer`: one parent for each pair, ceil(n / 2) in all.
pub open spec fn parent_layer(layer: Seq<Seq<char>>) -> Seq<Seq<char>> {
    Seq::new(
        ((layer.len() + 1) / 2) as nat,
        |k: int| node_digest(layer[2 * k], pair_partner(layer, 2 * k)),
    )
}

/// All layers of the tree over `layer`, from `layer` itself up to the layer
/// that holds the root; no layers at all when `layer` is empty.
pub open spec fn tree_layers(layer: Seq<Seq<char>>) -> Seq<Seq<Seq<char>>>
    decreases layer.len(),
{
    if layer.len() == 0 {
        Seq::empty()
    } else if layer.len() == 1 {
        seq![layer]
    } else {
        seq![layer] + tree_layers(parent_layer(layer))
    }
}

/// The root of the tree over a non-empty layer.
pub open spec fn merkle_root(layer: Seq<Seq<char>>) -> Seq<char>
    decreases layer.len(),
{
    if layer.len() <= 1 {
        layer[0]
    } else {
        merkle_root(parent_layer(layer))
    }
}

/// The commitment over raw leaves: the root over their digests, or the empty
/// text when there are no leaves.
pub open spec fn commitment(leaves: Seq<Seq<char>>) -> Seq<char> {
    if leaves.len() == 0 {
        Seq::empty()
    } else {
        merkle_root(leaf_digests(leaves))
    }
}

/// Every layer of a tree is followed by exactly the layers of the tree built
/// over it.
pub proof fn lemma_layer_suffix(layer: Seq<Seq<char>>, j: int)
    requires
        0 <= j < tree_layers(layer).len(),
    ensures
        tree_layers(layer).subrange(j, tree_layers(layer).len() as int)
            == tree_layers(tree_layers(layer)[j]),
    decreases layer.len(),
{
    let t = tree_layers(layer);
    if j == 0 {
        assert(t.subrange(0, t.len() as int) =~= t);
    } else {
        let p = parent_layer(layer);
        assert(layer.len() > 1);
        lemma_layer_suffix(p, j - 1);
        assert(t.subrange(j, t.len() as int) =~= tree_layers(p).subrange(j - 1, tree_layers(p).len() as int));
    }
}

/// Two to the power `k`.
pub open spec fn pow2(k: nat) -> nat
    decreases k,
{
    if k == 0 {
        1
    } else {
        2 * pow2((k - 1) as nat)
    }
}

/// The last layer of the tree over a non-empty layer holds the root alone.
pub proof fn lemma_last_layer_is_root(layer: Seq<Seq<char>>)
    requires
        layer.len() >= 1,
    ensures
        tree_layers(layer).len() >= 1,
        tree_layers(layer).last() == seq![merkle_root(layer)],
    decreases layer.len(),
{
    if layer.len() == 1 {
        assert(layer =~= seq![layer[0]]);
    } else {
        let p = parent_layer(layer);
        lemma_last_layer_is_root(p);
        assert(tree_layers(layer).last() == tree_layers(p).last());
    }
}

/// For every non-empty list of raw leaves, the commitment is the one element
/// of the last layer of the tree built over the leaves' digests.
pub proof fn law_root_is_top_of_tree(leaves: Seq<Seq<char>>)
    requires
        leaves.len() >= 1,
    ensures
        tree_layers(leaf_digests(leaves)).last().len() == 1,
        commitment(leaves) == tree_layers(leaf_digests(leaves)).last()[0],
{
    lemma_last_layer_is_root(leaf_digests(leaves));
}

/// For n >= 1 nodes, the tree has ceil(log2(n)) + 1 layers: with k layers
/// above the first, n <= 2^k, and 2^(k-1) < n when k > 0. Each layer after
/// the first has ceil(m / 2) nodes, m being the length of the layer below,
/// and the last layer has one node.
pub proof fn law_layer_count(layer: Seq<Seq<char>>)
    requires
        layer.len() >= 1,
    ensures
        tree_layers(layer).len() >= 1,
        layer.len() <= pow2((tree_layers(layer).len() - 1) as nat),
        tree_layers(layer).len() > 1 ==> pow2((tree_layers(layer).len() - 2) as nat) < layer.len(),
        forall|j: int|
            0 <= j < tree_layers(layer).len() - 1 ==> #[trigger] tree_layers(layer)[j + 1].len()
                == (tree_layers(layer)[j].len() + 1) / 2,
        tree_layers(layer).last().len() == 1,
    decreases layer.len(),
{
    let t = tree_layers(layer);
    if layer.len() == 1 {
        assert(t.len() == 1);
    } else {
        let p = parent_layer(layer);
        law_layer_count(p);
        let tp = tree_layers(p);
        assert(t == seq![layer] + tp);
        let k = (tp.len() - 1) as nat;
        assert(pow2(k + 1) == 2 * pow2(k));
        if k > 0 {
            assert(pow2(k) == 2 * pow2((k - 1) as nat));
        }
        assert forall|j: int| 0 <= j < t.len() - 1 implies #[trigger] t[j + 1].len() == (t[j].len() + 1) / 2 by {
            if j > 0 {
                assert(t[j] == tp[j - 1]);
                assert(t[j + 1] == tp[j]);
                assert(tp[(j - 1) + 1].len() == (tp[j - 1].len() + 1) / 2);
            } else {
                assert(t[0] == layer);
                assert(p.len() >= 1);
                assert(tp[0] == p);
                assert(t[1] == tp[0]);
            }
        }
    }
}

/// Hashes every raw leaf.
pub(crate) fn hash_leaves(leaves: &Vec<String>) -> (r: Vec<String>)
    ensures
        r.deep_view() == leaf_digests(leaves.deep_view()),
{
    let mut out: Vec<String> = Vec::new();
    let mut i: usize = 0;
    while i < leaves.len()
        invariant
            i <= leaves.len(),
            out.len() == i,
            forall|k: int| 0 <= k < i ==> #[trigger] out[k]@ == leaf_digest(leaves[k]@),
        decreases leaves.len() - i,
    {
        out.push(hash_leaf(leaves[i].clone()));
        i = i + 1;
    }
    assert(out.deep_view() =~= leaf_digests(leaves.deep_view()));
    out
}

/// Computes the layer above `layer`.
pub(crate) fn parent_of(layer: &Vec<String>) -> (r: Vec<String>)
    ensures
        r.deep_view() == parent_layer(layer.deep_view()),
{
    let ghost s = layer.deep_view();
    let n = layer.len();
    let pairs = n / 2 + n % 2;
    let mut out: Vec<String> = Vec::new();
    let mut k: usize = 0;
    while k < pairs
        invariant
            n == layer.len(),
            pairs == n / 2 + n % 2,
            s == layer.deep_view(),
            k <= pairs,
            out.len() == k,
            forall|j: int| 0 <= j < k ==> #[trigger] out[j]@ == parent_layer(s)[j],
        decreases pairs - k,
    {
        let i = 2 * k;
        let parent = if i + 1 < n {
            hash_pair(&layer[i], &layer[i + 1])
        } else {
            hash_pair(&layer[i], &layer[i])
        };
        out.push(parent);
        k = k + 1;
    }
    assert(out.deep_view() =~= parent_layer(s));
    out
}

/// Builds every layer of the tree over already hashed leaves, from the leaf
/// layer up to the root layer.
pub fn build_tree(hashed_leaves: Vec<String>) -> (r: Vec<Vec<String>>)
    ensures
        r.deep_view() == tree_layers(hashed_leaves.deep_view()),
{
    let ghost s = hashed_leaves.deep_view();
    if hashed_leaves.len() == 0 {
        let empty: Vec<Vec<String>> = Vec::new();
        assert(empty.deep_view() =~= tree_layers(s));
        return empty;
    }
    let mut layers: Vec<Vec<String>> = Vec::new();
    layers.push(hashed_leaves);
    let mut done = layers[0].len() <= 1;
    while !done
        invariant
            layers.len() >= 1,
            layers[layers.len() - 1].len() >= 1,
            done == (layers[layers.len() - 1].len() <= 1),
            layers.deep_view().drop_last() + tree_layers(layers.deep_view().last()) == tree_layers(s),
        decreases layers[layers.len() - 1].len(),
    {
        let ghost before = layers.deep_view();
        let last = layers.len() - 1;
        let next = parent_of(&layers[last]);
        done = next.len() <= 1;
        layers.push(next);
        assert(layers.deep_view().drop_last() =~= before);
        assert(before =~= before.drop_last() + seq![before.last()]);
        assert(tree_layers(before.last()) == seq![before.last()] + tree_layers(parent_layer(before.last())));
        assert(layers.deep_view().drop_last() + tree_layers(layers.deep_view().last()) =~= tree_layers(s));
    }
    let ghost fin = layers.deep_view();
    assert(tree_layers(fin.last()) == seq![fin.last()]);
    assert(fin =~= fin.drop_last() + seq![fin.last()]);
    layers
}

/// Derives the commitment over raw leaves, keeping only the current layer;
/// the empty text when there are no leaves.
pub fn compute_root(leaves: Vec<String>) -> (r: String)
    ensures
        r@ == commitment(leaves.deep_view()),
{
    if leaves.len() == 0 {
        return String::new();
    }
    let mut nodes = hash_leaves(&leaves);
    let ghost start = nodes.deep_view();
    assert(nodes.deep_view().len() == nodes@.len());
    while nodes.len() > 1
        invariant
            nodes.len() >= 1,
            merkle_root(nodes.deep_view()) == merkle_root(start),
        decreases nodes.len(),
    {
        nodes = parent_of(&nodes);
        assert(nodes.deep_view().len() == nodes@.len());
    }
    nodes[0].clone()
}

} // verus!
