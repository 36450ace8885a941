//! What the level-by-level listing of a tree shows: on every level the keys
//! increase from left to right, each is a key of the tree, and the levels
//! together hold every entry's key once.
use vstd::prelude::*;
use crate::node::{Node, lemma_flat_extend, lemma_key_position};
use crate::seqs::{after, flat, inter, sorted, sorted_keys};
use crate::tree::{BTree, children_of, level};

verus! {

/// The keys of a sequence of nodes, node after node.
pub open spec fn keys_of<V>(nodes: Seq<Node<V>>) -> Seq<i64>
    decreases nodes.len(),
{
    if nodes.len() == 0 {
        Seq::empty()
    } else {
        keys_of(nodes.drop_last()) + nodes.last().ks@
    }
}

/// The entries of the subtrees of a sequence of nodes, subtree after subtree.
pub open spec fn items_of<V>(nodes: Seq<Node<V>>) -> Seq<(i64, V)>
    decreases nodes.len(),
{
    if nodes.len() == 0 {
        Seq::empty()
    } else {
        items_of(nodes.drop_last()) + nodes.last().items()
    }
}

/// The number of keys listed on levels `d` to `h` below `n`.
pub open spec fn listed_keys<V>(n: Node<V>, d: nat, h: nat) -> nat
    decreases h + 1 - d,
{
    if d > h {
        0
    } else {
        keys_of(level(n, d)).len() + listed_keys(n, d + 1, h)
    }
}

proof fn lemma_keys_of_concat<V>(a: Seq<Node<V>>, b: Seq<Node<V>>)
    ensures
        keys_of(a + b) == keys_of(a) + keys_of(b),
    decreases b.len(),
{
    if b.len() == 0 {
        assert(a + b =~= a);
        assert(keys_of(a) + keys_of(b) =~= keys_of(a));
    } else {
        lemma_keys_of_concat(a, b.drop_last());
        assert((a + b).drop_last() =~= a + b.drop_last());
        assert((a + b).last() == b.last());
        assert(keys_of(a + b) =~= keys_of(a) + keys_of(b));
    }
}

proof fn lemma_items_of_concat<V>(a: Seq<Node<V>>, b: Seq<Node<V>>)
    ensures
        items_of(a + b) == items_of(a) + items_of(b),
    decreases b.len(),
{
    if b.len() == 0 {
        assert(a + b =~= a);
        assert(items_of(a) + items_of(b) =~= items_of(a));
    } else {
        lemma_items_of_concat(a, b.drop_last());
        assert((a + b).drop_last() =~= a + b.drop_last());
        assert((a + b).last() == b.last());
        assert(items_of(a + b) =~= items_of(a) + items_of(b));
    }
}

proof fn lemma_items_of_single<V>(n: Node<V>)
    ensures
        items_of(seq![n]) == n.items(),
{
    let l = seq![n];
    assert(l.drop_last() =~= Seq::<Node<V>>::empty());
    assert(l.last() == n);
    assert(items_of(Seq::<Node<V>>::empty()) == Seq::<(i64, V)>::empty());
    assert(items_of(l) == items_of(l.drop_last()) + n.items());
    assert(items_of(l) =~= n.items());
}

/// Two ordered entry sequences, all of the first below all of the second,
/// make an ordered sequence.
proof fn lemma_sorted_join<V>(a: Seq<(i64, V)>, b: Seq<(i64, V)>)
    requires
        sorted(a),
        sorted(b),
        forall|i: int, j: int| 0 <= i < a.len() && 0 <= j < b.len() ==> #[trigger] a[i].0 < #[trigger] b[j].0,
    ensures
        sorted(a + b),
{
    let s = a + b;
    assert forall|i: int, j: int| 0 <= i < j < s.len() implies #[trigger] s[i].0 < #[trigger] s[j].0 by {
        if j < a.len() {
            assert(s[i] == a[i] && s[j] == a[j]);
        } else if i >= a.len() {
            assert(s[i] == b[i - a.len()] && s[j] == b[j - a.len()]);
        } else {
            assert(s[i] == a[i] && s[j] == b[j - a.len()]);
        }
    }
}

proof fn lemma_sorted_keys_join(a: Seq<i64>, b: Seq<i64>)
    requires
        sorted_keys(a),
        sorted_keys(b),
        forall|i: int, j: int| 0 <= i < a.len() && 0 <= j < b.len() ==> #[trigger] a[i] < #[trigger] b[j],
    ensures
        sorted_keys(a + b),
{
    let s = a + b;
    assert forall|i: int, j: int| 0 <= i < j < s.len() implies #[trigger] s[i] < #[trigger] s[j] by {
        if j < a.len() {
            assert(s[i] == a[i] && s[j] == a[j]);
        } else if i >= a.len() {
            assert(s[i] == b[i - a.len()] && s[j] == b[j - a.len()]);
        } else {
            assert(s[i] == a[i] && s[j] == b[j - a.len()]);
        }
    }
}

/// The subtrees of the first `j` children of an inner node hold, in order,
/// entries of the node that lie before the `j`-th separator, one fewer than
/// the entries before it.
proof fn lemma_children_prefix<V>(n: Node<V>, j: int)
    requires
        n.wf(),
        n.ns@.len() > 0,
        0 <= j < n.ns@.len(),
    ensures
        sorted(items_of(n.ns@.take(j))),
        items_of(n.ns@.take(j)).len() + j == flat(n.child_items(), n.kvs(), j).len(),
        forall|i: int|
            0 <= i < items_of(n.ns@.take(j)).len() ==> flat(n.child_items(), n.kvs(), j).contains(
                #[trigger] items_of(n.ns@.take(j))[i],
            ),
    decreases j,
{
    if j == 0 {
        assert(n.ns@.take(0) =~= Seq::<Node<V>>::empty());
    } else {
        lemma_children_prefix(n, j - 1);
        let t = n.ns@.take(j);
        assert(t.drop_last() =~= n.ns@.take(j - 1));
        let c = n.ns@[j - 1];
        assert(t.last() == c);
        n.lemma_child_wf(j - 1);
        let cs = n.child_items();
        let kv = n.kvs();
        let f = flat(cs, kv, j - 1);
        let fj = flat(cs, kv, j);
        let s = n.items();
        let ci = c.items();
        assert(cs[j - 1] == ci);
        assert(fj == f + ci + seq![kv[j - 1]]);
        let a = items_of(n.ns@.take(j - 1));
        assert(items_of(t) == a + ci);
        assert(s == f + ci + after(cs, kv, j - 1));
        assert forall|i1: int, i2: int| 0 <= i1 < a.len() && 0 <= i2 < ci.len() implies #[trigger] a[i1].0
            < #[trigger] ci[i2].0 by {
            assert(f.contains(a[i1]));
            let q = choose|q: int| 0 <= q < f.len() && f[q] == a[i1];
            assert(s[q] == f[q]);
            assert(s[f.len() + i2] == ci[i2]);
            assert(s[q].0 < s[f.len() + i2].0);
        }
        lemma_sorted_join(a, ci);
        assert forall|i: int| 0 <= i < items_of(t).len() implies fj.contains(
            #[trigger] items_of(t)[i],
        ) by {
            if i < a.len() {
                assert(items_of(t)[i] == a[i]);
                assert(f.contains(a[i]));
                let q = choose|q: int| 0 <= q < f.len() && f[q] == a[i];
                assert(fj[q] == f[q]);
            } else {
                assert(items_of(t)[i] == ci[i - a.len()]);
                assert(fj[f.len() + (i - a.len())] == ci[i - a.len()]);
            }
        }
    }
}

/// The subtrees of an inner node's children hold, in order, all its entries
/// but those of its own keys.
proof fn lemma_children_items<V>(n: Node<V>)
    requires
        n.wf(),
        n.ns@.len() > 0,
    ensures
        sorted(items_of(n.ns@)),
        items_of(n.ns@).len() + n.ks@.len() == n.items().len(),
        forall|i: int|
            0 <= i < items_of(n.ns@).len() ==> n.items().contains(#[trigger] items_of(n.ns@)[i]),
{
    let h = n.height();
    assert(n.frame(h));
    let last = n.ns@.len() - 1;
    assert(last == n.ks@.len());
    lemma_children_prefix(n, last);
    let t = n.ns@;
    assert(t.drop_last() =~= n.ns@.take(last));
    let c = n.ns@[last];
    n.lemma_child_wf(last);
    let cs = n.child_items();
    let kv = n.kvs();
    let f = flat(cs, kv, last);
    let s = n.items();
    let ci = c.items();
    assert(cs[last] == ci);
    assert(after(cs, kv, last) =~= Seq::<(i64, V)>::empty());
    assert(s =~= f + ci);
    let a = items_of(n.ns@.take(last));
    assert(items_of(t) == a + ci);
    assert forall|i1: int, i2: int| 0 <= i1 < a.len() && 0 <= i2 < ci.len() implies #[trigger] a[i1].0
        < #[trigger] ci[i2].0 by {
        assert(f.contains(a[i1]));
        let q = choose|q: int| 0 <= q < f.len() && f[q] == a[i1];
        assert(s[q] == f[q]);
        assert(s[f.len() + i2] == ci[i2]);
        assert(s[q].0 < s[f.len() + i2].0);
    }
    lemma_sorted_join(a, ci);
    assert forall|i: int| 0 <= i < items_of(t).len() implies s.contains(#[trigger] items_of(t)[i]) by {
        if i < a.len() {
            assert(items_of(t)[i] == a[i]);
            assert(f.contains(a[i]));
            let q = choose|q: int| 0 <= q < f.len() && f[q] == a[i];
            assert(s[q] == f[q]);
        } else {
            assert(s[f.len() + (i - a.len())] == ci[i - a.len()]);
        }
    }
}

/// Whether some entry of `s` has key `k`.
pub open spec fn has_key<V>(s: Seq<(i64, V)>, k: i64) -> bool {
    exists|q: int| 0 <= q < s.len() && #[trigger] s[q].0 == k
}

/// A node's keys increase, each is the key of one of its entries, and a
/// leaf's entries are its own.
proof fn lemma_node_keys<V>(n: Node<V>)
    requires
        n.wf(),
    ensures
        sorted_keys(n.ks@),
        forall|i: int| 0 <= i < n.ks@.len() ==> has_key(n.items(), #[trigger] n.ks@[i]),
        n.ns@.len() == 0 ==> n.items().len() == n.ks@.len(),
{
    n.lemma_keys_sorted();
    let cs = n.child_items();
    let kv = n.kvs();
    assert forall|i: int| 0 <= i < n.ks@.len() implies has_key(n.items(), #[trigger] n.ks@[i]) by {
        if n.ns@.len() == 0 {
            assert(n.items()[i].0 == n.ks@[i]);
        } else {
            assert(n.frame(n.height()));
            lemma_key_position(cs, kv, i);
            let q = flat(cs, kv, i + 1).len() - 1;
            assert(n.items()[q].0 == n.ks@[i]);
        }
    }
}

/// One level of well-formed nodes whose subtrees hold, in order, an ordered
/// entry sequence: its keys increase and are keys of those entries, and the
/// next level is again such a level, holding those entries but the keys
/// listed here.
proof fn lemma_level_step<V>(l: Seq<Node<V>>)
    requires
        forall|i: int| 0 <= i < l.len() ==> (#[trigger] l[i]).wf(),
        sorted(items_of(l)),
    ensures
        sorted_keys(keys_of(l)),
        forall|i: int| 0 <= i < keys_of(l).len() ==> has_key(items_of(l), #[trigger] keys_of(l)[i]),
        sorted(items_of(children_of(l))),
        forall|i: int|
            0 <= i < items_of(children_of(l)).len() ==> items_of(l).contains(
                #[trigger] items_of(children_of(l))[i],
            ),
        forall|i: int| 0 <= i < children_of(l).len() ==> (#[trigger] children_of(l)[i]).wf(),
        items_of(l).len() == keys_of(l).len() + items_of(children_of(l)).len(),
    decreases l.len(),
{
    if l.len() > 0 {
        let l1 = l.drop_last();
        let n = l.last();
        assert forall|i: int| 0 <= i < l1.len() implies (#[trigger] l1[i]).wf() by {
            assert(l1[i] == l[i]);
        }
        let a = items_of(l1);
        let ni = n.items();
        assert(items_of(l) == a + ni);
        assert(a =~= (a + ni).subrange(0, a.len() as int));
        crate::seqs::lemma_sorted_sub(a + ni, 0, a.len() as int);
        assert forall|i1: int, i2: int| 0 <= i1 < a.len() && 0 <= i2 < ni.len() implies #[trigger] a[i1].0
            < #[trigger] ni[i2].0 by {
            assert((a + ni)[i1] == a[i1]);
            assert((a + ni)[a.len() + i2] == ni[i2]);
        }
        lemma_level_step(l1);
        assert(n.wf());
        lemma_node_keys(n);
        // keys
        let k1 = keys_of(l1);
        assert(keys_of(l) == k1 + n.ks@);
        assert forall|i1: int, i2: int| 0 <= i1 < k1.len() && 0 <= i2 < n.ks@.len() implies #[trigger] k1[i1]
            < #[trigger] n.ks@[i2] by {
            assert(has_key(a, k1[i1]));
            assert(has_key(ni, n.ks@[i2]));
            let q1 = choose|q: int| 0 <= q < a.len() && #[trigger] a[q].0 == k1[i1];
            let q2 = choose|q: int| 0 <= q < ni.len() && #[trigger] ni[q].0 == n.ks@[i2];
            assert(a[q1].0 < ni[q2].0);
        }
        lemma_sorted_keys_join(k1, n.ks@);
        assert forall|i: int| 0 <= i < keys_of(l).len() implies has_key(items_of(l), #[trigger] keys_of(l)[i]) by {
            if i < k1.len() {
                assert(keys_of(l)[i] == k1[i]);
                assert(has_key(a, k1[i]));
                let q = choose|q: int| 0 <= q < a.len() && #[trigger] a[q].0 == k1[i];
                assert(items_of(l)[q] == a[q]);
            } else {
                assert(keys_of(l)[i] == n.ks@[i - k1.len()]);
                assert(has_key(ni, n.ks@[i - k1.len()]));
                let q = choose|q: int| 0 <= q < ni.len() && #[trigger] ni[q].0 == n.ks@[i - k1.len()];
                assert(items_of(l)[a.len() + q] == ni[q]);
            }
        }
        // the next level
        let c1 = children_of(l1);
        assert(children_of(l) == c1 + n.ns@);
        lemma_items_of_concat(c1, n.ns@);
        let b = items_of(c1);
        let bn = items_of(n.ns@);
        if n.ns@.len() > 0 {
            lemma_children_items(n);
        } else {
            assert(bn =~= Seq::<(i64, V)>::empty());
        }
        assert forall|i1: int, i2: int| 0 <= i1 < b.len() && 0 <= i2 < bn.len() implies #[trigger] b[i1].0
            < #[trigger] bn[i2].0 by {
            assert(a.contains(b[i1]));
            assert(ni.contains(bn[i2]));
            let q1 = choose|q: int| 0 <= q < a.len() && a[q] == b[i1];
            let q2 = choose|q: int| 0 <= q < ni.len() && ni[q] == bn[i2];
            assert(a[q1].0 < ni[q2].0);
        }
        lemma_sorted_join(b, bn);
        assert forall|i: int| 0 <= i < items_of(children_of(l)).len() implies items_of(l).contains(
            #[trigger] items_of(children_of(l))[i],
        ) by {
            if i < b.len() {
                assert(items_of(children_of(l))[i] == b[i]);
                assert(a.contains(b[i]));
                let q = choose|q: int| 0 <= q < a.len() && a[q] == b[i];
                assert(items_of(l)[q] == a[q]);
            } else {
                assert(items_of(children_of(l))[i] == bn[i - b.len()]);
                assert(ni.contains(bn[i - b.len()]));
                let q = choose|q: int| 0 <= q < ni.len() && ni[q] == bn[i - b.len()];
                assert(items_of(l)[a.len() + q] == ni[q]);
            }
        }
        assert forall|i: int| 0 <= i < children_of(l).len() implies (#[trigger] children_of(l)[i]).wf() by {
            if i < c1.len() {
                assert(children_of(l)[i] == c1[i]);
            } else {
                assert(children_of(l)[i] == n.ns@[i - c1.len()]);
                n.lemma_child_wf(i - c1.len());
            }
        }
    } else {
        assert(children_of(l).len() == 0);
        assert(items_of(children_of(l)) =~= Seq::<(i64, V)>::empty());
    }
}

/// The nodes at depth `d` below a well-formed node are well-formed, and
/// their subtrees hold, in order, an ordered sequence of its entries.
proof fn lemma_level_entries<V>(n: Node<V>, d: nat)
    requires
        n.wf(),
    ensures
        forall|i: int| 0 <= i < level(n, d).len() ==> (#[trigger] level(n, d)[i]).wf(),
        sorted(items_of(level(n, d))),
        forall|i: int|
            0 <= i < items_of(level(n, d)).len() ==> n.items().contains(
                #[trigger] items_of(level(n, d))[i],
            ),
    decreases d,
{
    if d == 0 {
        lemma_items_of_single(n);
        assert forall|i: int| 0 <= i < items_of(level(n, d)).len() implies n.items().contains(
            #[trigger] items_of(level(n, d))[i],
        ) by {
            assert(n.items()[i] == items_of(level(n, d))[i]);
        }
    } else {
        let l = level(n, (d - 1) as nat);
        lemma_level_entries(n, (d - 1) as nat);
        lemma_level_step(l);
        assert(level(n, d) == children_of(l));
        assert forall|i: int| 0 <= i < items_of(level(n, d)).len() implies n.items().contains(
            #[trigger] items_of(level(n, d))[i],
        ) by {
            let e = items_of(level(n, d))[i];
            assert(items_of(l).contains(e));
            let q = choose|q: int| 0 <= q < items_of(l).len() && items_of(l)[q] == e;
            assert(n.items().contains(items_of(l)[q]));
        }
    }
}

/// The levels `d` to `h` of a node of height `h` list as many keys as the
/// subtrees at depth `d` hold entries.
proof fn lemma_listed_keys<V>(n: Node<V>, d: nat)
    requires
        n.wf(),
        d <= n.height() + 1,
    ensures
        items_of(level(n, d)).len() == listed_keys(n, d, n.height()),
    decreases n.height() + 1 - d,
{
    let h = n.height();
    lemma_level_entries(n, d);
    if d == h + 1 {
        crate::tree::lemma_level_frame(n, h, h);
        crate::tree::lemma_children_of_leaves(level(n, h));
        assert(level(n, d) == children_of(level(n, h)));
        assert(items_of(level(n, d)) =~= Seq::<(i64, V)>::empty());
    } else {
        lemma_level_step(level(n, d));
        assert(level(n, d + 1) == children_of(level(n, d)));
        lemma_listed_keys(n, d + 1);
    }
}

/// On every level of a well-formed tree's listing the keys strictly increase
/// from left to right, and each is a key the tree holds; all levels together
/// list as many keys as the tree holds entries, so each key exactly once.
pub proof fn law_levels_list_every_key_once_in_order<V>(t: BTree<V>, d: nat)
    requires
        t.wf(),
    ensures
        sorted_keys(keys_of(level(t.root, d))),
        forall|i: int|
            0 <= i < keys_of(level(t.root, d)).len() ==> t@.dom().contains(
                #[trigger] keys_of(level(t.root, d))[i],
            ),
        listed_keys(t.root, 0, t.root.height()) == t@.dom().len(),
{
    let n = t.root;
    lemma_level_entries(n, d);
    lemma_level_step(level(n, d));
    assert forall|i: int| 0 <= i < keys_of(level(n, d)).len() implies t@.dom().contains(
        #[trigger] keys_of(level(n, d))[i],
    ) by {
        let k = keys_of(level(n, d))[i];
        assert(has_key(items_of(level(n, d)), k));
        let q = choose|q: int| 0 <= q < items_of(level(n, d)).len() && #[trigger] items_of(level(n, d))[q].0 == k;
        let e = items_of(level(n, d))[q];
        assert(n.items().contains(e));
        let p = choose|p: int| 0 <= p < n.items().len() && n.items()[p] == e;
        crate::seqs::lemma_to_map_dom(n.items(), k);
        assert(n.items()[p].0 == k);
    }
    lemma_listed_keys(n, 0);
    lemma_items_of_single(n);
    crate::seqs::lemma_to_map_len(n.items());
}

} // verus!
