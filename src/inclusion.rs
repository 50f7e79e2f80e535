//! Inclusion proofs: the sibling path from one leaf up to the root, and its
//! replay against an expected root.

use vstd::prelude::*;
use crate::digest::{hash_leaf, hash_pair, leaf_digest, node_digest};
use crate::tree::{
    build_tree, commitment, hash_leaves, leaf_digests, merkle_root, pair_partner, parent_layer, tree_layers,
    lemma_layer_suffix,
};

verus! {

/// The proof step for the node at position `i` of `layer`: its sibling and
/// whether that sibling stands on the left. The odd tail of a layer is its
/// own sibling, on the right.
pub open spec fn proof_step(layer: Seq<Seq<char>>, i: int) -> (Seq<char>, bool) {
    if i % 2 == 0 {
        (pair_partner(layer, i), false)
    } else {
        (layer[i - 1], true)
    }
}

/// The steps from position `i` of the first layer of `layers` up to the
/// last layer, leaf side first.
pub open spec fn sibling_path(layers: Seq<Seq<Seq<char>>>, i: int) -> Seq<(Seq<char>, bool)>
    decreases layers.len(),
{
    if layers.len() <= 1 {
        Seq::empty()
    } else {
        seq![proof_step(layers[0], i)] + sibling_path(layers.drop_first(), i / 2)
    }
}

/// The proof that generation yields for `target` among raw `leaves`: the
/// sibling path of the first leaf whose digest is the target's, or no steps
/// when no leaf has that digest.
pub open spec fn inclusion_proof(leaves: Seq<Seq<char>>, target: Seq<char>) -> Seq<(Seq<char>, bool)> {
    match leaf_digests(leaves).index_of_first(leaf_digest(target)) {
        Some(i) => sibling_path(tree_layers(leaf_digests(leaves)), i),
        None => Seq::empty(),
    }
}

/// One replay step: the parent of `current` and the step's sibling.
pub open spec fn apply_step(current: Seq<char>, step: (Seq<char>, bool)) -> Seq<char> {
    if step.1 {
        node_digest(step.0, current)
    } else {
        node_digest(current, step.0)
    }
}

/// The digest reached from `current` by applying every step in order.
pub open spec fn replay(current: Seq<char>, steps: Seq<(Seq<char>, bool)>) -> Seq<char>
    decreases steps.len(),
{
    if steps.len() == 0 {
        current
    } else {
        replay(apply_step(current, steps[0]), steps.drop_first())
    }
}

/// Whether replaying `steps` from the digest of `leaf` reaches `root`.
pub open spec fn proof_accepted(leaf: Seq<char>, steps: Seq<(Seq<char>, bool)>, root: Seq<char>) -> bool {
    replay(leaf_digest(leaf), steps) == root
}

/// Replaying the sibling path of any position reaches the root.
proof fn lemma_path_reaches_root(layer: Seq<Seq<char>>, i: int)
    requires
        0 <= i < layer.len(),
    ensures
        replay(layer[i], sibling_path(tree_layers(layer), i)) == merkle_root(layer),
    decreases layer.len(),
{
    if layer.len() > 1 {
        let p = parent_layer(layer);
        let t = tree_layers(layer);
        let path = sibling_path(t, i);
        assert(t.drop_first() == tree_layers(p));
        assert(path.drop_first() =~= sibling_path(tree_layers(p), i / 2));
        assert(apply_step(layer[i], proof_step(layer, i)) == p[i / 2]);
        lemma_path_reaches_root(p, i / 2);
    }
}

/// For every list of raw leaves and every leaf in it, the proof generated for
/// that leaf is accepted against the list's commitment.
pub proof fn law_generated_proof_verifies(leaves: Seq<Seq<char>>, target: Seq<char>)
    requires
        leaves.contains(target),
    ensures
        proof_accepted(target, inclusion_proof(leaves, target), commitment(leaves)),
{
    let h = leaf_digests(leaves);
    let x = leaf_digest(target);
    let j = choose|j: int| 0 <= j < leaves.len() && leaves[j] == target;
    assert(h[j] == x);
    h.index_of_first_ensures(x);
    let i = h.index_of_first(x)->0;
    lemma_path_reaches_root(h, i);
}

/// Replays a proof from the digest of `leaf` and compares the outcome with
/// `root`.
pub fn verify_proof(leaf: String, path: Vec<(String, bool)>, root: String) -> (r: bool)
    ensures
        r == proof_accepted(leaf@, path.deep_view(), root@),
{
    let ghost p = path.deep_view();
    let mut current = hash_leaf(leaf);
    let ghost start = current@;
    let mut k: usize = 0;
    assert(p.skip(0) =~= p);
    while k < path.len()
        invariant
            p == path.deep_view(),
            k <= path.len(),
            replay(current@, p.skip(k as int)) == replay(start, p),
        decreases path.len() - k,
    {
        let step = &path[k];
        let ghost before = current@;
        current = if step.1 {
            hash_pair(&step.0, &current)
        } else {
            hash_pair(&current, &step.0)
        };
        assert(p.skip(k as int)[0] == p[k as int]);
        assert(p.skip(k as int).drop_first() =~= p.skip(k + 1));
        assert(current@ == apply_step(before, p[k as int]));
        k = k + 1;
    }
    assert(p.skip(k as int).len() == 0);
    current == root
}

/// The position of the first element of `v` whose text is `x`, if any.
fn find_first(v: &Vec<String>, x: &String) -> (r: Option<usize>)
    ensures
        match r {
            Some(i) => i < v.len() && v.deep_view().index_of_first(x@) == Some(i as int),
            None => v.deep_view().index_of_first(x@) is None,
        },
{
    let ghost s = v.deep_view();
    let mut i: usize = 0;
    while i < v.len()
        invariant
            s == v.deep_view(),
            i <= v.len(),
            forall|j: int| 0 <= j < i ==> s[j] != x@,
        decreases v.len() - i,
    {
        if v[i] == *x {
            assert(s[i as int] == x@);
            assert(s.contains(x@));
            proof {
                s.index_of_first_ensures(x@);
            }
            assert(s.index_of_first(x@) == Some(i as int)) by {
                let f = s.index_of_first(x@)->0;
                if f < i {
                    assert(s[f] != x@);
                } else if f > i {
                    assert(s[i as int] != x@);
                }
            }
            return Some(i);
        }
        i = i + 1;
    }
    proof {
        s.index_of_first_ensures(x@);
    }
    None
}

/// Generates the inclusion proof for `target_leaf` among raw `leaves`; no
/// steps when the target's digest is not among the leaves' digests.
pub fn generate_proof(leaves: Vec<String>, target_leaf: String) -> (r: Vec<(String, bool)>)
    ensures
        r.deep_view() == inclusion_proof(leaves.deep_view(), target_leaf@),
{
    let hashed = hash_leaves(&leaves);
    let target_hash = hash_leaf(target_leaf);
    let ghost h = hashed.deep_view();
    let start = match find_first(&hashed, &target_hash) {
        Some(i) => i,
        None => {
            let none: Vec<(String, bool)> = Vec::new();
            assert(none.deep_view() =~= Seq::<(Seq<char>, bool)>::empty());
            return none;
        },
    };
    let tree = build_tree(hashed);
    let ghost t = tree.deep_view();
    let ghost want = sibling_path(t, start as int);
    assert(t.len() >= 1);
    proof {
        lemma_layer_suffix(h, 0);
        assert(t.subrange(0, t.len() as int) =~= t);
    }
    let mut path: Vec<(String, bool)> = Vec::new();
    let mut idx: usize = start;
    let mut layer_idx: usize = 0;
    while layer_idx < tree.len() - 1
        invariant
            t == tree.deep_view(),
            t.len() == tree.len(),
            t == tree_layers(h),
            t.len() >= 1,
            layer_idx < t.len(),
            idx < t[layer_idx as int].len(),
            path.deep_view() + sibling_path(tree_layers(t[layer_idx as int]), idx as int) == want,
        decreases t.len() - layer_idx,
    {
        let ghost cur = t[layer_idx as int];
        proof {
            lemma_layer_suffix(h, layer_idx as int);
            lemma_layer_suffix(h, layer_idx + 1);
            assert(tree_layers(cur).len() == t.len() - layer_idx);
            assert(tree_layers(cur)[1] == t[layer_idx + 1]);
        }
        let layer = &tree[layer_idx];
        let n = layer.len();
        let step = if idx % 2 == 0 {
            if idx + 1 < n {
                (layer[idx + 1].clone(), false)
            } else {
                (layer[idx].clone(), false)
            }
        } else {
            (layer[idx - 1].clone(), true)
        };
        let ghost before_step = path.deep_view();
        path.push(step);
        proof {
            assert(cur.len() > 1);
            assert(tree_layers(cur).drop_first() == tree_layers(parent_layer(cur)));
            assert(path.deep_view() =~= before_step.push(proof_step(cur, idx as int)));
            assert(t[layer_idx + 1] == parent_layer(cur));
        }
        idx = idx / 2;
        layer_idx = layer_idx + 1;
    }
    proof {
        lemma_layer_suffix(h, layer_idx as int);
    }
    assert(path.deep_view() =~= want);
    path
}

} // verus!
