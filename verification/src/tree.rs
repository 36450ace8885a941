//! The B-tree: an order and a root node, seen as a map from keys to values.
use vstd::prelude::*;
use crate::iter::{BTreeIterator, NodeIter};
use crate::node::{Node, lemma_split_layout, split_inserted};
use crate::seqs::{
    from_key, lemma_inter_single, lemma_sorted_insert_sorted, lemma_to_map_dom,
    lemma_to_map_insert, lemma_to_map_remove, sorted, sorted_insert, sorted_remove, to_map,
};

verus! {

/// A B-tree of order `m`: a node splits when it reaches `m` keys.
pub struct BTree<V> {
    pub m: usize,
    pub root: Node<V>,
}

/// The children of a sequence of nodes, in order.
pub open spec fn children_of<V>(nodes: Seq<Node<V>>) -> Seq<Node<V>>
    decreases nodes.len(),
{
    if nodes.len() == 0 {
        Seq::empty()
    } else {
        children_of(nodes.drop_last()) + nodes.last().ns@
    }
}

/// The nodes at depth `d` below `n`, from left to right.
pub open spec fn level<V>(n: Node<V>, d: nat) -> Seq<Node<V>>
    decreases d,
{
    if d == 0 {
        seq![n]
    } else {
        children_of(level(n, (d - 1) as nat))
    }
}

/// The children of nodes of frame `k + 1` have frame `k`, and there are some
/// where there were nodes; the children of leaves are none.
pub proof fn lemma_children_of_frame<V>(nodes: Seq<Node<V>>, k: nat)
    requires
        forall|i: int| 0 <= i < nodes.len() ==> (#[trigger] nodes[i]).frame(k + 1),
    ensures
        forall|j: int|
            0 <= j < children_of(nodes).len() ==> (#[trigger] children_of(nodes)[j]).frame(k),
        nodes.len() > 0 ==> children_of(nodes).len() > 0,
    decreases nodes.len(),
{
    if nodes.len() > 0 {
        let t = nodes.drop_last();
        assert forall|i: int| 0 <= i < t.len() implies (#[trigger] t[i]).frame(k + 1) by {
            assert(t[i] == nodes[i]);
        }
        lemma_children_of_frame(t, k);
        let l = nodes.last();
        assert(nodes[nodes.len() - 1].frame(k + 1));
        let c = children_of(nodes);
        assert forall|j: int| 0 <= j < c.len() implies (#[trigger] c[j]).frame(k) by {
            if j < children_of(t).len() {
                assert(c[j] == children_of(t)[j]);
            } else {
                assert(c[j] == l.ns@[j - children_of(t).len()]);
            }
        }
    }
}

pub proof fn lemma_children_of_leaves<V>(nodes: Seq<Node<V>>)
    requires
        forall|i: int| 0 <= i < nodes.len() ==> (#[trigger] nodes[i]).frame(0),
    ensures
        children_of(nodes).len() == 0,
    decreases nodes.len(),
{
    if nodes.len() > 0 {
        let t = nodes.drop_last();
        assert forall|i: int| 0 <= i < t.len() implies (#[trigger] t[i]).frame(0) by {
            assert(t[i] == nodes[i]);
        }
        lemma_children_of_leaves(t);
        assert(nodes[nodes.len() - 1].frame(0));
    }
}

/// The nodes at depth `d <= h` below a node of frame `h` have frame `h - d`,
/// and there are some.
pub proof fn lemma_level_frame<V>(n: Node<V>, h: nat, d: nat)
    requires
        n.frame(h),
        d <= h,
    ensures
        level(n, d).len() > 0,
        forall|j: int| 0 <= j < level(n, d).len() ==> (#[trigger] level(n, d)[j]).frame(
            (h - d) as nat,
        ),
    decreases d,
{
    if d > 0 {
        lemma_level_frame(n, h, (d - 1) as nat);
        lemma_children_of_frame(level(n, (d - 1) as nat), (h - d) as nat);
    }
}

impl<V> View for BTree<V> {
    type V = Map<i64, V>;

    /// The map from keys to values that the tree holds.
    open spec fn view(&self) -> Map<i64, V> {
        to_map(self.entries())
    }
}

impl<V> BTree<V> {
    /// All entries, in increasing key order.
    pub open spec fn entries(self) -> Seq<(i64, V)> {
        self.root.items()
    }

    /// Well-formed: a positive order, a well-formed root (entries in strictly
    /// increasing key order, one value per key, one child more than keys in
    /// an inner node, all leaves at one depth), and an inner root that holds
    /// a key.
    pub open spec fn wf(self) -> bool {
        &&& self.m >= 1
        &&& self.root.wf()
        &&& self.root.ns@.len() > 0 ==> self.root.ks@.len() > 0
    }

    /// The B-tree invariant of order `m`: well-formed, an order of at least 3,
    /// every node within `m - 1` keys (an inner node of an even order
    /// excepted), every leaf below the root with a key and every inner node
    /// below the root with at least `(m - 1) / 2` keys.
    pub open spec fn is_btree(self) -> bool {
        &&& self.wf()
        &&& self.m >= 3
        &&& self.root.occupied(self.m, self.root.height())
    }

    /// The root of this tree is that of `o` after `(x, v)` was put in: where
    /// it stayed below `m` keys, as `insert` leaves a node; where it grew to
    /// `m` keys, split around its key `m / 2` under a new root that holds
    /// that key alone.
    pub open spec fn root_inserted(self, o: BTree<V>, x: i64, v: V) -> bool {
        let h = o.root.height();
        let n = self.root;
        if n.height() == h {
            &&& n.inserted(o.root, x, v, o.m, h)
            &&& !n.grew(o.root, o.m)
        } else {
            &&& n.ks@.len() == 1
            &&& n.vs@.len() == 1
            &&& n.ns@.len() == 2
            &&& split_inserted(n.ns@[0], n.ks@[0], n.vs@[0], n.ns@[1], o.root, x, v, o.m, h)
        }
    }

    /// The root of this tree is that of `o` after the entry with key `x` was
    /// taken out of it as `remove` takes it out of a node, or, where that left
    /// an inner root without keys, that root's only child.
    pub open spec fn root_removed(self, o: BTree<V>, x: i64) -> bool {
        exists|n: Node<V>, f: bool|
            #[trigger] n.removed(o.root, x, o.m, o.root.height(), f) && if n.ks@.len() == 0
                && n.ns@.len() > 0 {
                self.root.same_fields(n.ns@[0])
            } else {
                self.root.same_fields(n)
            }
    }

    /// Every node below the root holds a key.
    pub open spec fn keyed(self) -> bool {
        self.root.shape(self.root.height())
    }

    /// Taking the entry with key `x` out runs without fault.
    pub open spec fn removable(self, x: i64) -> bool {
        self.root.removable(x, self.m, self.root.height())
    }

    /// A B-tree of order at least 3 has a key in every node below its root.
    pub proof fn lemma_btree_keyed(self)
        requires
            self.is_btree(),
        ensures
            self.keyed(),
    {
        self.root.lemma_occupied_shape(self.m, self.root.height());
    }

    /// From a well-formed tree with a key in every node below its root, any
    /// key can be removed without fault.
    pub proof fn lemma_keyed_removable(self, x: i64)
        requires
            self.wf(),
            self.keyed(),
        ensures
            self.removable(x),
    {
        self.root.lemma_shape_removable(x, self.m, self.root.height());
    }

    /// An empty tree of order 3.
    pub fn new() -> (r: BTree<V>)
        ensures
            r.is_btree(),
            r.m == 3,
            r.root.ks@.len() == 0 && r.root.vs@.len() == 0 && r.root.ns@.len() == 0,
            r@ == Map::<i64, V>::empty(),
            r.entries() == Seq::<(i64, V)>::empty(),
    {
        BTree::<V>::new_with(3)
    }

    /// An empty tree of the given order.
    pub fn new_with(order: usize) -> (r: BTree<V>)
        requires
            order >= 1,
        ensures
            r.wf(),
            order >= 3 ==> r.is_btree(),
            r.m == order,
            r.root.ks@.len() == 0 && r.root.vs@.len() == 0 && r.root.ns@.len() == 0,
            r@ == Map::<i64, V>::empty(),
            r.entries() == Seq::<(i64, V)>::empty(),
    {
        let r = BTree::<V> { m: order, root: Node::<V>::new(order) };
        proof {
            assert(r.entries() =~= Seq::<(i64, V)>::empty());
        }
        r
    }

    /// The keys of every node, level by level from the root, each level from
    /// left to right.
    pub fn levels(&self) -> (r: Vec<Vec<Vec<i64>>>)
        requires
            self.wf(),
        ensures
            r@.len() == self.root.height() + 1,
            forall|d: int|
                0 <= d < r@.len() ==> (#[trigger] r@[d])@.len() == level(self.root, d as nat).len(),
            forall|d: int, i: int|
                0 <= d < r@.len() && 0 <= i < r@[d]@.len() ==> (#[trigger] r@[d]@[i])@ == level(
                    self.root,
                    d as nat,
                )[i].ks@,
    {
        let ghost h = self.root.height();
        let mut out: Vec<Vec<Vec<i64>>> = Vec::new();
        let mut cur: Vec<&Node<V>> = Vec::new();
        cur.push(&self.root);
        let ghost mut d: nat = 0;
        proof {
            assert(cur@.map_values(|n: &Node<V>| *n) =~= level(self.root, 0));
            lemma_level_frame(self.root, h, 0);
        }
        while cur.len() > 0
            invariant
                self.wf(),
                h == self.root.height(),
                d <= h + 1,
                out@.len() == d,
                cur@.map_values(|n: &Node<V>| *n) == level(self.root, d),
                d <= h ==> level(self.root, d).len() > 0,
                d == h + 1 ==> level(self.root, d).len() == 0,
                d <= h ==> forall|j: int|
                    0 <= j < level(self.root, d).len() ==> (#[trigger] level(self.root, d)[j]).frame(
                        (h - d) as nat,
                    ),
                forall|e: int|
                    0 <= e < d ==> (#[trigger] out@[e])@.len() == level(self.root, e as nat).len(),
                forall|e: int, i: int|
                    0 <= e < d && 0 <= i < out@[e]@.len() ==> (#[trigger] out@[e]@[i])@ == level(
                        self.root,
                        e as nat,
                    )[i].ks@,
            decreases h + 1 - d,
        {
            let ghost lv = level(self.root, d);
            proof {
                assert(cur@.len() == lv.len());
                assert(d <= h);
            }
            let mut keys: Vec<Vec<i64>> = Vec::new();
            let mut i: usize = 0;
            while i < cur.len()
                invariant
                    i <= cur@.len(),
                    cur@.map_values(|n: &Node<V>| *n) == lv,
                    keys@.len() == i,
                    forall|j: int| 0 <= j < i ==> (#[trigger] keys@[j])@ == lv[j].ks@,
                decreases cur@.len() - i,
            {
                let n: &Node<V> = cur[i];
                let mut ks: Vec<i64> = Vec::new();
                let mut k: usize = 0;
                while k < n.ks.len()
                    invariant
                        k <= n.ks@.len(),
                        ks@ == n.ks@.subrange(0, k as int),
                    decreases n.ks@.len() - k,
                {
                    ks.push(n.ks[k]);
                    k = k + 1;
                    proof {
                        assert(ks@ =~= n.ks@.subrange(0, k as int));
                    }
                }
                proof {
                    assert(ks@ =~= n.ks@);
                    assert(lv[i as int] == *cur@[i as int]);
                }
                keys.push(ks);
                i = i + 1;
            }
            let ghost before = out@;
            out.push(keys);
            let mut next: Vec<&Node<V>> = Vec::new();
            let mut i: usize = 0;
            while i < cur.len()
                invariant
                    i <= cur@.len(),
                    cur@.map_values(|n: &Node<V>| *n) == lv,
                    next@.map_values(|n: &Node<V>| *n) == children_of(lv.take(i as int)),
                decreases cur@.len() - i,
            {
                let n: &Node<V> = cur[i];
                let ghost start = next@.map_values(|n: &Node<V>| *n);
                let mut j: usize = 0;
                while j < n.ns.len()
                    invariant
                        j <= n.ns@.len(),
                        next@.map_values(|n: &Node<V>| *n) == start + n.ns@.subrange(0, j as int),
                    decreases n.ns@.len() - j,
                {
                    let ghost prev = next@;
                    let c: &Node<V> = &n.ns[j];
                    next.push(c);
                    proof {
                        assert(*c == n.ns@[j as int]);
                        assert(next@ == prev.push(c));
                        assert(next@.map_values(|n: &Node<V>| *n) =~= prev.map_values(
                            |n: &Node<V>| *n,
                        ).push(*c));
                        assert(n.ns@.subrange(0, j + 1) =~= n.ns@.subrange(0, j as int).push(
                            n.ns@[j as int],
                        ));
                    }
                    j = j + 1;
                }
                proof {
                    assert(lv.take(i + 1).drop_last() =~= lv.take(i as int));
                    assert(lv.take(i + 1).last() == *n);
                    assert(n.ns@.subrange(0, j as int) =~= n.ns@);
                }
                i = i + 1;
            }
            proof {
                assert(lv.take(cur@.len() as int) =~= lv);
                if d < h {
                    lemma_children_of_frame(lv, (h - d - 1) as nat);
                } else {
                    lemma_children_of_leaves(lv);
                }
                assert forall|e: int, k: int|
                    0 <= e < d + 1 && 0 <= k < out@[e]@.len() implies (#[trigger] out@[e]@[k])@
                    == level(self.root, e as nat)[k].ks@ by {
                    if e < d {
                        assert(out@[e] == before[e]);
                    }
                }
                assert forall|e: int| 0 <= e < d + 1 implies (#[trigger] out@[e])@.len() == level(
                    self.root,
                    e as nat,
                ).len() by {
                    if e < d {
                        assert(out@[e] == before[e]);
                    }
                }
                d = d + 1;
            }
            cur = next;
        }
        proof {
            if d <= h {
                assert(cur@.len() == level(self.root, d).len());
            }
        }
        out
    }

    /// Whether the tree holds no entry.
    pub fn is_empty(&self) -> (r: bool)
        requires
            self.wf(),
        ensures
            r == (self@ == Map::<i64, V>::empty()),
            r == (self.entries().len() == 0),
    {
        proof {
            let s = self.entries();
            if self.root.ks@.len() > 0 {
                self.root.lemma_key_entry(0);
            }
            if s.len() > 0 {
                lemma_to_map_dom(s, s[0].0);
                assert(!self@.dom().contains(s[0].0) ==> false);
            } else {
                assert(self@ =~= Map::<i64, V>::empty());
            }
            if self.root.ks@.len() == 0 {
                assert(self.root.ns@.len() == 0);
                assert(s =~= Seq::<(i64, V)>::empty());
            }
        }
        self.root.is_empty()
    }

    /// Puts `v` under `x`, replacing what was there; a root that reaches `m`
    /// keys splits under a new root.
    #[verifier::spinoff_prover]
    #[verifier::rlimit(60)]
    pub fn insert(&mut self, x: i64, v: V)
        requires
            old(self).wf(),
        ensures
            final(self).wf(),
            final(self).m == old(self).m,
            final(self)@ == old(self)@.insert(x, v),
            final(self).entries() == sorted_insert(old(self).entries(), x, v),
            final(self).root_inserted(*old(self), x, v),
            old(self).is_btree() ==> final(self).is_btree(),
            old(self).m >= 2 && old(self).root.capped(old(self).m, old(self).root.height())
                ==> final(self).root.capped(final(self).m, final(self).root.height()),
    {
        let ghost o = *self;
        proof {
            lemma_to_map_insert(o.entries(), x, v);
            lemma_sorted_insert_sorted(o.entries(), x, v);
        }
        let need_split = self.root.insert(x, v, self.m);
        if need_split {
            let mut tmp = Node::new(self.m);
            std::mem::swap(&mut tmp, &mut self.root);
            let ghost t = tmp;
            let ghost h = t.height();
            let split = tmp.split(self.m);
            self.root.ks.push(split.0);
            self.root.vs.push(split.1);
            self.root.ns.push(tmp);
            self.root.ns.push(split.2);
            proof {
                let l = tmp;
                let r = split.2;
                let e = (split.0, split.1);
                let n = self.root;
                assert(n.ks@ =~= seq![e.0]);
                assert(n.vs@ =~= seq![e.1]);
                assert(n.ns@ =~= seq![l, r]);
                assert(n.kvs() =~= Seq::<(i64, V)>::empty().push(e) + Seq::<(i64, V)>::empty());
                assert(n.child_items() =~= seq![l.items()] + seq![r.items()]);
                crate::seqs::lemma_inter_concat(
                    seq![l.items()],
                    Seq::<(i64, V)>::empty(),
                    e,
                    seq![r.items()],
                    Seq::<(i64, V)>::empty(),
                );
                lemma_inter_single(seq![l.items()], Seq::<(i64, V)>::empty());
                lemma_inter_single(seq![r.items()], Seq::<(i64, V)>::empty());
                assert(n.items() == t.items());
                assert(n.ns@[0] == l);
                l.lemma_frame_height(h);
                assert(n.frame(h + 1));
                n.lemma_frame_height(h + 1);
                lemma_split_layout(t, l, e.0, e.1, r, o.root, x, v, self.m, h);
                if o.is_btree() {
                    assert(n.below_ok(self.m, h + 1));
                    n.lemma_occupied_below(self.m, h + 1);
                }
            }
        }
        proof {
            self.root.lemma_occupied_below(self.m, self.root.height());
        }
    }

    /// Takes the entry with key `x` out and gives its value, if there was one;
    /// an inner root left without keys gives way to its only child.
    pub fn remove(&mut self, x: &i64) -> (r: Option<V>)
        requires
            old(self).wf(),
            old(self).removable(*x),
        ensures
            final(self).root_removed(*old(self), *x),
            final(self).wf(),
            old(self).keyed() && final(self).m >= 2 ==> final(self).keyed(),
            old(self).is_btree() ==> final(self).is_btree(),
            !old(self)@.dom().contains(*x) ==> r == None::<V> && final(self).root.same_tree(
                old(self).root,
                old(self).root.height(),
            ),
            final(self).m == old(self).m,
            final(self)@ == old(self)@.remove(*x),
            final(self).entries() == sorted_remove(old(self).entries(), *x),
            r == (if old(self)@.dom().contains(*x) {
                Some(old(self)@[*x])
            } else {
                None::<V>
            }),
    {
        let ghost o = *self;
        proof {
            lemma_to_map_remove(o.entries(), *x);
        }
        let result = self.root.remove(x, self.m);
        let ghost t = self.root;
        if self.root.is_empty() && !self.root.ns.is_empty() {
            let ghost h = t.height();
            let new_root = self.root.ns.pop().unwrap();
            self.root = new_root;
            proof {
                assert(t.ns@.len() == 1);
                assert(t.kvs() =~= Seq::<(i64, V)>::empty());
                lemma_inter_single(t.child_items(), t.kvs());
                assert(new_root == t.ns@[0]);
                assert(new_root.frame((h - 1) as nat));
                new_root.lemma_frame_height((h - 1) as nat);
                if o.keyed() && self.m >= 2 {
                    assert(new_root.shape((h - 1) as nat));
                }
                if o.is_btree() {
                    assert(new_root.occupied(self.m, (h - 1) as nat));
                }
            }
        }
        proof {
            assert(t.removed(o.root, *x, o.m, o.root.height(), result.1));
        }
        return result.0;
    }

    /// Whether every node below the root holds a key, as `remove` asks.
    pub fn is_keyed(&self) -> (r: bool)
        requires
            self.wf(),
        ensures
            r == self.keyed(),
    {
        self.root.keyed_below()
    }

    /// The value stored under `x`, if any.
    pub fn find(&self, x: &i64) -> (r: Option<&V>)
        requires
            self.wf(),
        ensures
            r == (if self@.dom().contains(*x) {
                Some(&self@[*x])
            } else {
                None
            }),
    {
        return self.root.find(x);
    }

    /// An iterator over all entries in increasing key order.
    pub fn iter(&self) -> (r: BTreeIterator<'_, V>)
        requires
            self.wf(),
        ensures
            r.wf(),
            r.remaining() == self.entries(),
            *r.curr.node == self.root,
            r.stack@.len() == 0,
    {
        let r = BTreeIterator {
            stack: Vec::new(),
            curr: NodeIter { node: &self.root, pos: 0, go_child: true },
        };
        proof {
            r.lemma_fresh();
        }
        r
    }

    /// An iterator over the entries whose key is at least `x`, in increasing
    /// key order.
    pub fn iter_from(&self, x: &i64) -> (r: BTreeIterator<'_, V>)
        requires
            self.wf(),
        ensures
            r.wf(),
            r.remaining() == from_key(self.entries(), *x),
    {
        let mut it = self.iter();
        it.move_to(x);
        proof {
            assert(it.remaining() =~= from_key(self.entries(), *x) + Seq::<(i64, V)>::empty());
        }
        it
    }
}

} // verus!
