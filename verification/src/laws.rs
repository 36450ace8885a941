//! Properties of the tree as a whole, across its operations.
use vstd::prelude::*;
use crate::seqs::{
    from_key, lemma_from_key_rank, lemma_rank, lemma_remove_insert, lemma_same_map_same_seq,
    lemma_to_map_dom, lemma_to_map_insert, lemma_to_map_len, lemma_to_map_value, rank, sorted,
    sorted_insert, sorted_remove,
};
use crate::node::Node;
use crate::tree::BTree;

verus! {

/// What `find(k)` gives on a tree (without the reference).
pub open spec fn lookup<V>(t: BTree<V>, k: i64) -> Option<V> {
    if t@.dom().contains(k) {
        Some(t@[k])
    } else {
        None
    }
}

/// Iterating a well-formed tree visits every key it holds exactly once, in
/// strictly increasing order, each beside the value the tree maps it to.
pub proof fn law_entries_are_the_map<V>(t: BTree<V>)
    requires
        t.wf(),
    ensures
        sorted(t.entries()),
        forall|i: int|
            0 <= i < t.entries().len() ==> t@.dom().contains(#[trigger] t.entries()[i].0)
                && t@[t.entries()[i].0] == t.entries()[i].1,
        forall|k: i64|
            #[trigger] t@.dom().contains(k) ==> exists|i: int|
                0 <= i < t.entries().len() && #[trigger] t.entries()[i].0 == k,
        t@.dom().finite(),
        t@.dom().len() == t.entries().len(),
{
    let s = t.entries();
    assert forall|i: int| 0 <= i < s.len() implies t@.dom().contains(#[trigger] s[i].0)
        && t@[s[i].0] == s[i].1 by {
        lemma_to_map_value(s, i);
    }
    assert forall|k: i64| #[trigger] t@.dom().contains(k) implies exists|i: int|
        0 <= i < s.len() && #[trigger] s[i].0 == k by {
        lemma_to_map_dom(s, k);
    }
    lemma_to_map_len(s);
}

/// Successive calls of `next` on a fresh iterator over a tree give its
/// entries one by one in order: after `j` calls that each gave an entry, the
/// calls gave the first `j` entries and the rest are still to come.
pub proof fn law_iteration_yields_entries<V>(
    t: BTree<V>,
    rests: Seq<Seq<(i64, V)>>,
    outs: Seq<(i64, V)>,
)
    requires
        t.wf(),
        rests.len() == outs.len() + 1,
        rests[0] == t.entries(),
        forall|j: int|
            0 <= j < outs.len() ==> (#[trigger] rests[j]).len() > 0 && outs[j] == rests[j][0]
                && rests[j + 1] == rests[j].drop_first(),
    ensures
        outs.len() <= t.entries().len(),
        outs == t.entries().take(outs.len() as int),
        rests[outs.len() as int] == t.entries().skip(outs.len() as int),
    decreases outs.len(),
{
    let e = t.entries();
    if outs.len() > 0 {
        let n = outs.len() - 1;
        let o2 = outs.drop_last();
        let r2 = rests.drop_last();
        assert forall|j: int| 0 <= j < o2.len() implies (#[trigger] r2[j]).len() > 0 && o2[j]
            == r2[j][0] && r2[j + 1] == r2[j].drop_first() by {
            assert(rests[j].len() > 0 && outs[j] == rests[j][0] && rests[j + 1]
                == rests[j].drop_first());
        }
        law_iteration_yields_entries(t, r2, o2);
        assert(rests[n] == e.skip(n as int));
        assert(rests[n].len() > 0 && outs[n] == rests[n][0] && rests[n + 1] == rests[n].drop_first());
        assert(outs =~= e.take(outs.len() as int));
        assert(rests[outs.len() as int] =~= e.skip(outs.len() as int));
    } else {
        assert(e.skip(0) =~= e);
    }
}

/// After `insert(x, v)`, finding `x` gives `v` and every other key finds
/// what it found before.
pub proof fn law_find_after_insert<V>(before: BTree<V>, after: BTree<V>, x: i64, v: V, y: i64)
    requires
        after@ == before@.insert(x, v),
    ensures
        lookup(after, x) == Some(v),
        y != x ==> lookup(after, y) == lookup(before, y),
{
}

/// Inserting a fresh key and then removing it gives back the inserted value
/// and the tree's entries as they were before the insertion.
pub proof fn law_remove_undoes_insert<V>(
    before: BTree<V>,
    inserted: BTree<V>,
    removed: BTree<V>,
    x: i64,
    v: V,
)
    requires
        before.wf(),
        !before@.dom().contains(x),
        inserted.entries() == sorted_insert(before.entries(), x, v),
        removed.entries() == sorted_remove(inserted.entries(), x),
    ensures
        lookup(inserted, x) == Some(v),
        removed.entries() == before.entries(),
        removed@ == before@,
{
    lemma_to_map_insert(before.entries(), x, v);
    lemma_remove_insert(before.entries(), x, v);
}

/// Removing a key that is absent leaves every node as it was, and so the
/// entries and the map.
pub proof fn law_remove_absent<V>(before: BTree<V>, after: BTree<V>, x: i64)
    requires
        before.wf(),
        !before@.dom().contains(x),
        after.root.same_tree(before.root, before.root.height()),
    ensures
        after.entries() == before.entries(),
        after@ == before@,
{
    before.root.lemma_same_tree_refl(before.root.height());
    lemma_same_tree_sym(after.root, before.root, before.root.height());
    before.root.lemma_same_tree_items(after.root, before.root.height());
}

proof fn lemma_same_tree_sym<V>(a: crate::node::Node<V>, b: crate::node::Node<V>, h: nat)
    requires
        a.same_tree(b, h),
    ensures
        b.same_tree(a, h),
    decreases h,
{
    if h > 0 {
        assert forall|i: int| 0 <= i < b.ns@.len() implies (#[trigger] b.ns@[i]).same_tree(
            a.ns@[i],
            (h - 1) as nat,
        ) by {
            lemma_same_tree_sym(a.ns@[i], b.ns@[i], (h - 1) as nat);
        }
    }
}

/// Two well-formed trees that hold the same map iterate alike; in
/// particular inserting two different keys in either order gives trees that
/// iterate alike.
pub proof fn law_insert_order_irrelevant<V>(
    a: BTree<V>,
    c: BTree<V>,
    e: BTree<V>,
    x: i64,
    v: V,
    y: i64,
    w: V,
)
    requires
        c.wf(),
        e.wf(),
        x != y,
        c@ == a@.insert(x, v).insert(y, w),
        e@ == a@.insert(y, w).insert(x, v),
    ensures
        c.entries() == e.entries(),
{
    assert(c@ =~= e@);
    lemma_same_map_same_seq(c.entries(), e.entries());
}

/// Iterating from key `x` yields the whole iteration from its first key not
/// below `x` on: everything before that point has a smaller key, everything
/// from it on a key at least `x`.
pub proof fn law_iter_from_is_suffix<V>(t: BTree<V>, x: i64)
    requires
        t.wf(),
    ensures
        from_key(t.entries(), x) == t.entries().subrange(
            rank(t.entries(), x),
            t.entries().len() as int,
        ),
        forall|i: int| 0 <= i < rank(t.entries(), x) ==> #[trigger] t.entries()[i].0 < x,
        forall|i: int|
            rank(t.entries(), x) <= i < t.entries().len() ==> #[trigger] t.entries()[i].0 >= x,
{
    lemma_rank(t.entries(), x);
    lemma_from_key_rank(t.entries(), x);
}

/// Refilling child `pos` from its right sibling rotates a key through the
/// separator exactly when the sibling can spare one (a leaf with at least two
/// keys; an inner node with more than half as many keys as the order), and
/// else merges the two: the node keeps its key count or loses one key, the
/// refilled child gains one key or the whole sibling and the separator.
pub proof fn law_refill_from_right_lends_when_spare<V>(o: Node<V>, n: Node<V>, pos: int, m: usize)
    requires
        0 <= pos < o.ks@.len(),
        pos + 1 < o.ns@.len(),
        n.refilled_from_right(o, pos, m),
    ensures
        o.ns@[pos + 1].ns@.len() == 0 ==> (n.ks@.len() == o.ks@.len() <==> o.ns@[pos
            + 1].ks@.len() >= 2),
        o.ns@[pos + 1].ns@.len() > 0 ==> (n.ks@.len() == o.ks@.len() <==> 2 * o.ns@[pos
            + 1].ks@.len() > m),
        n.ks@.len() == o.ks@.len() || n.ks@.len() + 1 == o.ks@.len(),
        n.ks@.len() == o.ks@.len() ==> n.ns@.len() == o.ns@.len() && n.ns@[pos].ks@.len()
            == o.ns@[pos].ks@.len() + 1 && n.ns@[pos + 1].ks@.len() + 1 == o.ns@[pos + 1].ks@.len(),
        n.ks@.len() + 1 == o.ks@.len() ==> n.ns@.len() + 1 == o.ns@.len() && n.ns@[pos].ks@.len()
            == o.ns@[pos].ks@.len() + 1 + o.ns@[pos + 1].ks@.len(),
{
}

/// Refilling child `pos` from its left sibling rotates a key through the
/// separator exactly when the sibling can spare one (a leaf with at least two
/// keys; an inner node with more than half as many keys as the order), and
/// else merges the two: the node keeps its key count or loses one key, the
/// refilled child gains one key or is merged into the sibling with the
/// separator.
pub proof fn law_refill_from_left_lends_when_spare<V>(o: Node<V>, n: Node<V>, pos: int, m: usize)
    requires
        1 <= pos <= o.ks@.len(),
        pos < o.ns@.len(),
        n.refilled_from_left(o, pos, m),
    ensures
        o.ns@[pos - 1].ns@.len() == 0 ==> (n.ks@.len() == o.ks@.len() <==> o.ns@[pos
            - 1].ks@.len() >= 2),
        o.ns@[pos - 1].ns@.len() > 0 ==> (n.ks@.len() == o.ks@.len() <==> 2 * o.ns@[pos
            - 1].ks@.len() > m),
        n.ks@.len() == o.ks@.len() || n.ks@.len() + 1 == o.ks@.len(),
        n.ks@.len() == o.ks@.len() ==> n.ns@.len() == o.ns@.len() && n.ns@[pos].ks@.len()
            == o.ns@[pos].ks@.len() + 1 && n.ns@[pos - 1].ks@.len() + 1 == o.ns@[pos - 1].ks@.len(),
        n.ks@.len() + 1 == o.ks@.len() ==> n.ns@.len() + 1 == o.ns@.len() && n.ns@[pos - 1].ks@.len()
            == o.ns@[pos - 1].ks@.len() + 1 + o.ns@[pos].ks@.len(),
{
}

} // verus!
