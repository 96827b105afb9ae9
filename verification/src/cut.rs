//! The visible cut at every zoom is a partition of the world: each file, and each empty
//! directory, lies under exactly one node of the cut.

use vstd::prelude::*;
use crate::tile::FeatureKind;
use crate::tree::{shaped, visible_children, visible_from, Node};

verus! {

/// Node `k` lies in the subtree of node `v`: it is `v`, or its parent chain reaches `v`.
pub open spec fn within(a: Seq<Node>, v: int, k: int) -> bool
    decreases k,
{
    if k == v {
        true
    } else if 1 <= k < a.len() && (a[k].parent as int) < k {
        within(a, v, a[k].parent as int)
    } else {
        false
    }
}

/// How many entries of `s` are nodes whose subtree holds node `k`.
pub open spec fn covering(a: Seq<Node>, s: Seq<usize>, k: int) -> nat
    decreases s.len(),
{
    if s.len() == 0 {
        0
    } else {
        covering(a, s.drop_last(), k) + if within(a, s.last() as int, k) { 1nat } else { 0nat }
    }
}

/// A node the cut never splits: a file, or a directory with no children.
pub open spec fn is_leaf(a: Seq<Node>, k: int) -> bool {
    a[k].kind == FeatureKind::File || a[k].children@.len() == 0
}

/// Some of the first `x` children of `idx` holds `k` in its subtree.
spec fn child_holds(a: Seq<Node>, idx: int, x: int, k: int) -> bool {
    exists|j: int| 0 <= j < x && within(a, #[trigger] a[idx].children@[j] as int, k)
}

proof fn lemma_within_le(a: Seq<Node>, v: int, k: int)
    requires
        within(a, v, k),
    ensures
        v <= k,
    decreases k,
{
    if k != v {
        lemma_within_le(a, v, a[k].parent as int);
    }
}

proof fn lemma_within_trans(a: Seq<Node>, u: int, v: int, k: int)
    requires
        within(a, u, v),
        within(a, v, k),
    ensures
        within(a, u, k),
    decreases k,
{
    if k != v {
        lemma_within_trans(a, u, v, a[k].parent as int);
    }
}

proof fn lemma_within_chain(a: Seq<Node>, u: int, w: int, k: int)
    requires
        within(a, u, k),
        within(a, w, k),
    ensures
        within(a, u, w) || within(a, w, u),
    decreases k,
{
    if k != u && k != w {
        lemma_within_chain(a, u, w, a[k].parent as int);
    }
}

proof fn lemma_within_root(a: Seq<Node>, k: int)
    requires
        shaped(a),
        0 <= k < a.len(),
    ensures
        within(a, 0, k),
    decreases k,
{
    if k != 0 {
        assert(a[k].parent < k);
        lemma_within_root(a, a[k].parent as int);
    }
}

/// A node strictly inside the subtree of `idx` lies under one of its children.
proof fn lemma_path_child(a: Seq<Node>, idx: int, k: int)
    requires
        shaped(a),
        a.len() <= usize::MAX,
        0 <= idx < a.len(),
        within(a, idx, k),
        k != idx,
    ensures
        child_holds(a, idx, a[idx].children@.len() as int, k),
    decreases k,
{
    let p = a[k].parent as int;
    assert(1 <= k < a.len() && p < k);
    if p == idx {
        assert(a[idx].children@.contains(k as usize));
        let j = choose|j: int| 0 <= j < a[idx].children@.len() && a[idx].children@[j] == k as usize;
        assert(a[idx].children@[j] as int == k);
        assert(within(a, a[idx].children@[j] as int, k));
    } else {
        lemma_path_child(a, idx, p);
        let j = choose|j: int| 0 <= j < a[idx].children@.len() && within(a, #[trigger] a[idx].children@[j] as int, p);
        let c = a[idx].children@[j] as int;
        assert(within(a, c, p));
        assert(within(a, p, p));
        assert(within(a, p, k));
        lemma_within_trans(a, c, p, k);
    }
}

/// Two different children of one node never hold the same node.
proof fn lemma_siblings_apart(a: Seq<Node>, idx: int, x: int, y: int, k: int)
    requires
        shaped(a),
        0 <= idx < a.len(),
        0 <= x < a[idx].children@.len(),
        0 <= y < a[idx].children@.len(),
        x != y,
        within(a, a[idx].children@[x] as int, k),
    ensures
        !within(a, a[idx].children@[y] as int, k),
{
    let c1 = a[idx].children@[x] as int;
    let c2 = a[idx].children@[y] as int;
    if within(a, c2, k) {
        if x < y {
            assert(c1 < c2);
        } else {
            assert(c2 < c1);
        }
        assert(a[c1].parent == idx && a[c2].parent == idx);
        lemma_within_chain(a, c1, c2, k);
        if within(a, c1, c2) {
            assert(within(a, c1, idx));
            lemma_within_le(a, c1, idx);
        } else {
            assert(within(a, c2, idx));
            lemma_within_le(a, c2, idx);
        }
    }
}

proof fn lemma_covering_push(a: Seq<Node>, s: Seq<usize>, c: usize, k: int)
    ensures
        covering(a, s.push(c), k) == covering(a, s, k) + if within(a, c as int, k) { 1nat } else { 0nat },
{
    assert(s.push(c).drop_last() =~= s);
}

proof fn lemma_covering_concat(a: Seq<Node>, s: Seq<usize>, t: Seq<usize>, k: int)
    ensures
        covering(a, s + t, k) == covering(a, s, k) + covering(a, t, k),
    decreases t.len(),
{
    if t.len() == 0 {
        assert(s + t =~= s);
    } else {
        assert((s + t).drop_last() =~= s + t.drop_last());
        lemma_covering_concat(a, s, t.drop_last(), k);
    }
}

/// Under `idx`, the cut covers a leaf once if the leaf lies strictly inside the subtree of
/// `idx`, and not at all otherwise.
proof fn lemma_cut_covers(a: Seq<Node>, idx: int, z: u8, k: int)
    requires
        shaped(a),
        a.len() <= usize::MAX,
        0 <= idx < a.len(),
        1 <= k < a.len(),
        is_leaf(a, k),
    ensures
        covering(a, visible_from(a, idx, z), k) == if within(a, idx, k) && k != idx { 1nat } else { 0nat },
    decreases a.len() - idx, 1int, 0int,
{
    let n = a[idx].children@.len() as int;
    lemma_children_cover(a, idx, z, k, n);
    if within(a, idx, k) && k != idx {
        lemma_path_child(a, idx, k);
    } else if child_holds(a, idx, n, k) {
        let j = choose|j: int| 0 <= j < n && within(a, #[trigger] a[idx].children@[j] as int, k);
        let c = a[idx].children@[j] as int;
        assert(1 <= c < a.len() && a[c].parent == idx);
        assert(a[c].parent < c);
        assert(within(a, idx, idx));
        assert(within(a, idx, c));
        lemma_within_trans(a, idx, c, k);
        lemma_within_le(a, c, k);
    }
}

/// The first `x` children of `idx` contribute one cover of a leaf if one of them holds it.
proof fn lemma_children_cover(a: Seq<Node>, idx: int, z: u8, k: int, x: int)
    requires
        shaped(a),
        a.len() <= usize::MAX,
        0 <= idx < a.len(),
        1 <= k < a.len(),
        is_leaf(a, k),
        0 <= x <= a[idx].children@.len(),
    ensures
        covering(a, visible_children(a, idx, z, x), k) == if child_holds(a, idx, x, k) { 1nat } else { 0nat },
    decreases a.len() - idx, 0int, x,
{
    if x == 0 {
        assert(visible_children(a, idx, z, 0) =~= Seq::<usize>::empty());
    } else {
        lemma_children_cover(a, idx, z, k, x - 1);
        let c = a[idx].children@[x - 1] as int;
        let before = visible_children(a, idx, z, x - 1);
        assert(1 <= c < a.len() && a[c].parent == idx);
        assert(idx < c);
        if a[c].kind == FeatureKind::File || z < a[c].split_z || a[c].children@.len() == 0 {
            lemma_covering_push(a, before, c as usize, k);
        } else {
            lemma_cut_covers(a, c, z, k);
            lemma_covering_concat(a, before, visible_from(a, c, z), k);
            if within(a, c, k) {
                assert(k != c);
            }
        }
        if within(a, c, k) {
            assert forall|j: int| 0 <= j < x - 1 implies !within(a, #[trigger] a[idx].children@[j] as int, k) by {
                lemma_siblings_apart(a, idx, x - 1, j, k);
            }
        }
        if child_holds(a, idx, x, k) && !within(a, c, k) {
            let j = choose|j: int| 0 <= j < x && within(a, #[trigger] a[idx].children@[j] as int, k);
            assert(j < x - 1);
        }
    }
}

/// At any zoom, every file (and every empty directory) lies under exactly one node of the
/// visible cut: the cut is a partition of the world.
pub proof fn law_visible_cut_covers_each_file_once(a: Seq<Node>, z: u8, k: int)
    requires
        shaped(a),
        a.len() <= usize::MAX,
        1 <= k < a.len(),
        is_leaf(a, k),
    ensures
        covering(a, visible_from(a, 0, z), k) == 1,
{
    lemma_within_root(a, k);
    lemma_cut_covers(a, 0, z, k);
}

} // verus!
