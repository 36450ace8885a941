//! A node of the B-tree: its keys, the values beside them, and its children.
use vstd::prelude::*;
use crate::seqs::{
    after, flat, inter, lemma_inter_concat, lemma_inter_merge, lemma_inter_pair,
    lemma_inter_single, lemma_inter_update_pair, lemma_inter_drop_prefix, lemma_inter_split_child,
    lemma_inter_update, lemma_insert_middle, lemma_sorted_insert_sorted, lemma_sorted_remove_sorted,
    sorted_insert, lemma_lookup_middle,
    lemma_flat_prefix, lemma_rank_unique, lemma_sorted_bounds, lemma_sorted_sub, lemma_to_map_dom,
    lemma_remove_at, lemma_to_map_lookup, lemma_to_map_value, rank, sorted, sorted_remove,
    sorted_keys, to_map, key_rank, lemma_key_rank, lemma_key_rank_bound,
};

verus! {

/// Above this many keys, a search first compares against the largest key.
pub const CHECK_RIGHT_MOST_THRESHOLD: usize = 7;

/// Below this many keys, a search scans linearly from the front.
pub const USE_LINEAR_THRESHOLD: usize = 7;

/// A B-tree node. Keys and values are kept apart so that a search touches
/// only the keys; an inner node has one child more than it has keys.
pub struct Node<V> {
    pub ks: Vec<i64>,
    pub vs: Vec<V>,
    pub ns: Vec<Node<V>>,
}

impl<V> Node<V> {
    /// The node's own entries, key beside value.
    pub open spec fn kvs(self) -> Seq<(i64, V)> {
        Seq::new(self.ks@.len(), |i: int| (self.ks@[i], self.vs@[i]))
    }

    /// All entries of the subtree, in order: children interleaved with the
    /// node's own entries.
    pub open spec fn items(self) -> Seq<(i64, V)>
        decreases self, 1int,
    {
        if self.ns@.len() == 0 {
            self.kvs()
        } else {
            inter(self.child_items(), self.kvs())
        }
    }

    /// The entry sequences of the children.
    pub open spec fn child_items(self) -> Seq<Seq<(i64, V)>>
        decreases self, 0int,
    {
        Seq::new(
            self.ns@.len(),
            |i: int|
                {
                    if 0 <= i < self.ns@.len() {
                        proof {
                            vstd::std_specs::vec::axiom_vec_index_decreases(self.ns, i);
                        }
                        self.ns@[i].items()
                    } else {
                        Seq::empty()
                    }
                },
        )
    }

    /// The distance to the leaves along the first children.
    pub open spec fn height(self) -> nat
        decreases self,
    {
        if self.ns@.len() == 0 {
            0
        } else {
            proof {
                vstd::std_specs::vec::axiom_vec_index_decreases(self.ns, 0);
            }
            self.ns@[0].height() + 1
        }
    }

    /// The B-tree shape at height `h`: one value per key; a leaf at height 0,
    /// else one child more than keys, each child non-empty and of shape
    /// `h - 1`, so that all leaves lie at the same depth.
    pub open spec fn shape(self, h: nat) -> bool
        decreases h,
    {
        &&& self.vs@.len() == self.ks@.len()
        &&& if h == 0 {
            self.ns@.len() == 0
        } else {
            &&& self.ns@.len() == self.ks@.len() + 1
            &&& forall|i: int|
                0 <= i < self.ns@.len() ==> (#[trigger] self.ns@[i]).shape((h - 1) as nat)
                    && self.ns@[i].ks@.len() > 0
        }
    }

    /// The frame of a tree at height `h`: one value per key; a leaf at
    /// height 0, else one child more than keys, each of frame `h - 1`, so that
    /// all leaves lie at the same depth. Nodes may be empty.
    pub open spec fn frame(self, h: nat) -> bool
        decreases h,
    {
        &&& self.vs@.len() == self.ks@.len()
        &&& if h == 0 {
            self.ns@.len() == 0
        } else {
            &&& self.ns@.len() == self.ks@.len() + 1
            &&& forall|i: int|
                0 <= i < self.ns@.len() ==> (#[trigger] self.ns@[i]).frame((h - 1) as nat)
        }
    }

    /// Well-formed: the frame of a tree at its height, and entries in
    /// strictly increasing key order.
    pub open spec fn wf(self) -> bool {
        &&& self.frame(self.height())
        &&& sorted(self.items())
    }

    pub proof fn lemma_shape_frame(self, h: nat)
        requires
            self.shape(h),
        ensures
            self.frame(h),
        decreases h,
    {
        if h > 0 {
            assert forall|i: int| 0 <= i < self.ns@.len() implies (
            #[trigger] self.ns@[i]).frame((h - 1) as nat) by {
                self.ns@[i].lemma_shape_frame((h - 1) as nat);
            }
        }
    }

    pub proof fn lemma_frame_height(self, h: nat)
        requires
            self.frame(h),
        ensures
            self.height() == h,
        decreases h,
    {
        if h > 0 {
            self.ns@[0].lemma_frame_height((h - 1) as nat);
        }
    }

    /// Within the order's cap: at most `m - 1` keys, except for an inner node
    /// of an even order, which merging can fill further.
    pub open spec fn fits(self, m: usize) -> bool {
        (self.ns@.len() == 0 || m % 2 == 1) ==> self.ks@.len() < m
    }

    /// The fewest keys a node below the root holds in a tree of order `m`:
    /// one in a leaf, `(m - 1) / 2` in an inner node.
    pub open spec fn min_count(self, m: usize) -> int {
        if self.ns@.len() == 0 {
            1
        } else {
            (m as int - 1) / 2
        }
    }

    /// The key counts of a B-tree of order `m` throughout the subtree of
    /// height `h`: every node within the cap, every node below this one at
    /// or above its minimum.
    pub open spec fn occupied(self, m: usize, h: nat) -> bool
        decreases h,
    {
        &&& self.fits(m)
        &&& h > 0 ==> forall|i: int|
            0 <= i < self.ns@.len() ==> (#[trigger] self.ns@[i]).occupied(m, (h - 1) as nat)
                && self.ns@[i].ks@.len() >= self.ns@[i].min_count(m)
    }

    /// Every child at height `h - 1` has the key counts of order `m`.
    pub open spec fn below_ok(self, m: usize, h: nat) -> bool {
        h > 0 ==> forall|i: int|
            0 <= i < self.ns@.len() ==> (#[trigger] self.ns@[i]).occupied(m, (h - 1) as nat)
                && self.ns@[i].ks@.len() >= self.ns@[i].min_count(m)
    }

    /// Every child but child `p` has the key counts of order `m`.
    pub open spec fn below_except(self, m: usize, h: nat, p: int) -> bool {
        forall|i: int|
            0 <= i < self.ns@.len() && i != p ==> (#[trigger] self.ns@[i]).occupied(
                m,
                (h - 1) as nat,
            ) && self.ns@[i].ks@.len() >= self.ns@[i].min_count(m)
    }

    /// Fewer keys than a node may keep: an empty leaf, or an inner node below `m / 2`.
    pub open spec fn underfull(self, m: usize) -> bool {
        if self.ns@.len() == 0 {
            self.ks@.len() == 0
        } else {
            self.ks@.len() < m / 2
        }
    }

    /// The state in which a parent of height `h` refills child `p`: an order
    /// of at least 3, every other child as order `m` asks, and child `p`
    /// underfull by one key at most, its own subtree as order `m` asks.
    pub open spec fn refill_ready(self, m: usize, h: nat, p: int) -> bool {
        &&& m >= 3
        &&& self.below_except(m, h, p)
        &&& self.ns@[p].occupied(m, (h - 1) as nat)
        &&& self.ns@[p].ks@.len() + 1 >= self.ns@[p].min_count(m)
        &&& self.ns@[p].underfull(m)
    }

    /// The same keys, values and children, level by level, down to height `h`.
    pub open spec fn same_tree(self, o: Node<V>, h: nat) -> bool
        decreases h,
    {
        &&& self.ks@ == o.ks@
        &&& self.vs@ == o.vs@
        &&& self.ns@.len() == o.ns@.len()
        &&& h > 0 ==> forall|i: int|
            0 <= i < self.ns@.len() ==> (#[trigger] self.ns@[i]).same_tree(o.ns@[i], (h - 1) as nat)
    }

    pub proof fn lemma_same_tree_refl(self, h: nat)
        ensures
            self.same_tree(self, h),
        decreases h,
    {
        if h > 0 {
            assert forall|i: int| 0 <= i < self.ns@.len() implies (
            #[trigger] self.ns@[i]).same_tree(self.ns@[i], (h - 1) as nat) by {
                self.ns@[i].lemma_same_tree_refl((h - 1) as nat);
            }
        }
    }

    /// Nodes with the same keys, values and children down to height `h` hold
    /// the same entries.
    pub proof fn lemma_same_tree_items(self, o: Node<V>, h: nat)
        requires
            self.frame(h),
            self.same_tree(o, h),
        ensures
            self.items() == o.items(),
        decreases h,
    {
        assert(self.kvs() =~= o.kvs());
        if h > 0 {
            assert forall|i: int| 0 <= i < self.ns@.len() implies self.child_items()[i]
                == o.child_items()[i] by {
                self.ns@[i].lemma_same_tree_items(o.ns@[i], (h - 1) as nat);
            }
            assert(self.child_items() =~= o.child_items());
        } else {
            assert(o.ns@.len() == 0);
        }
    }

    pub proof fn lemma_occupied_below(self, m: usize, h: nat)
        ensures
            self.occupied(m, h) == (self.fits(m) && self.below_ok(m, h)),
    {
    }

    pub proof fn lemma_shape_height(self, h: nat)
        requires
            self.shape(h),
        ensures
            self.height() == h,
        decreases h,
    {
        if h > 0 {
            self.ns@[0].lemma_shape_height((h - 1) as nat);
        }
    }

    /// With an order of at least 3, the key counts that order asks for leave
    /// no node below this one without a key.
    pub proof fn lemma_occupied_shape(self, m: usize, h: nat)
        requires
            m >= 3,
            self.frame(h),
            self.occupied(m, h),
        ensures
            self.shape(h),
        decreases h,
    {
        if h > 0 {
            assert forall|i: int| 0 <= i < self.ns@.len() implies (#[trigger] self.ns@[i]).shape(
                (h - 1) as nat,
            ) && self.ns@[i].ks@.len() > 0 by {
                self.ns@[i].lemma_occupied_shape(m, (h - 1) as nat);
            }
        }
    }

    pub proof fn lemma_items_inner(self)
        requires
            self.ns@.len() > 0,
        ensures
            self.items() == inter(self.child_items(), self.kvs()),
    {
    }

    /// The keys of a well-formed node increase strictly.
    pub proof fn lemma_keys_sorted(self)
        requires
            self.frame(self.height()),
            sorted(self.items()),
        ensures
            sorted_keys(self.ks@),
    {
        let s = self.items();
        let kv = self.kvs();
        if self.ns@.len() == 0 {
            assert forall|i: int, j: int| 0 <= i < j < self.ks@.len() implies #[trigger] self.ks@[i]
                < #[trigger] self.ks@[j] by {
                assert(s[i].0 < s[j].0);
            }
        } else {
            self.lemma_items_inner();
            let cs = self.child_items();
            assert forall|i: int, j: int| 0 <= i < j < self.ks@.len() implies #[trigger] self.ks@[i]
                < #[trigger] self.ks@[j] by {
                lemma_key_position(cs, kv, i);
                lemma_key_position(cs, kv, j);
                lemma_flat_extend(cs, kv, i + 1, j + 1);
                let pi = flat(cs, kv, i + 1).len() - 1;
                let pj = flat(cs, kv, j + 1).len() - 1;
                assert(s[pi].0 < s[pj].0);
            }
        }
    }
}

/// `flat` only grows with more segments.
pub proof fn lemma_flat_extend<I>(cs: Seq<Seq<I>>, kvs: Seq<I>, a: int, b: int)
    requires
        0 <= a <= b,
    ensures
        flat(cs, kvs, a).len() + (b - a) <= flat(cs, kvs, b).len(),
        flat(cs, kvs, b).subrange(0, flat(cs, kvs, a).len() as int) == flat(cs, kvs, a),
    decreases b - a,
{
    if a < b {
        lemma_flat_extend(cs, kvs, a, b - 1);
        let fa = flat(cs, kvs, a);
        let fb1 = flat(cs, kvs, b - 1);
        let fb = flat(cs, kvs, b);
        assert(fb =~= fb1 + cs[b - 1] + seq![kvs[b - 1]]);
        assert(fb.subrange(0, fa.len() as int) =~= fb1.subrange(0, fa.len() as int));
    } else {
        assert(flat(cs, kvs, b).subrange(0, flat(cs, kvs, a).len() as int) =~= flat(cs, kvs, a));
    }
}

/// Separator `i` sits at the end of the first `i + 1` segments.
pub proof fn lemma_key_position<I>(cs: Seq<Seq<I>>, kvs: Seq<I>, i: int)
    requires
        cs.len() == kvs.len() + 1,
        0 <= i < kvs.len(),
    ensures
        flat(cs, kvs, i + 1).len() >= 1,
        flat(cs, kvs, i + 1).len() <= inter(cs, kvs).len(),
        inter(cs, kvs)[flat(cs, kvs, i + 1).len() - 1] == kvs[i],
{
    lemma_inter_drop_prefix(cs, kvs, i + 1);
    let f = flat(cs, kvs, i + 1);
    assert(f == flat(cs, kvs, i) + cs[i] + seq![kvs[i]]);
    assert(f[f.len() - 1] == kvs[i]);
}

impl<V> Node<V> {
    /// The position of `x` among the keys: the number of keys below `x`, and
    /// whether the key there is `x`. Long key lists are searched from the
    /// largest key or from the middle.
    pub fn find_pos(&self, x: &i64) -> (r: (usize, bool))
        requires
            sorted_keys(self.ks@),
        ensures
            r.0 <= self.ks@.len(),
            forall|j: int| 0 <= j < r.0 ==> #[trigger] self.ks@[j] < *x,
            forall|j: int| r.0 <= j < self.ks@.len() ==> #[trigger] self.ks@[j] >= *x,
            r.1 == (r.0 < self.ks@.len() && self.ks@[r.0 as int] == *x),
    {
        let len = self.ks.len();
        if len > CHECK_RIGHT_MOST_THRESHOLD && self.ks[len - 1] < *x {
            assert forall|j: int| 0 <= j < len implies #[trigger] self.ks@[j] < *x by {
                if j < len - 1 {
                    assert(self.ks@[j] < self.ks@[len - 1]);
                }
            }
            return (len, false);
        }
        if len < USE_LINEAR_THRESHOLD {
            let r = self.linear_search(x, 0, len);
            assert forall|j: int| r.0 <= j < len implies #[trigger] self.ks@[j] >= *x by {
                if j > r.0 {
                    assert(self.ks@[r.0 as int] < self.ks@[j]);
                }
            }
            return r;
        }
        let mid = self.ks.len() / 2;
        if self.ks[mid] < *x {
            let r = self.linear_search(x, mid + 1, len);
            assert forall|j: int| 0 <= j < r.0 implies #[trigger] self.ks@[j] < *x by {
                if j < mid {
                    assert(self.ks@[j] < self.ks@[mid as int]);
                }
            }
            assert forall|j: int| r.0 <= j < len implies #[trigger] self.ks@[j] >= *x by {
                if j > r.0 {
                    assert(self.ks@[r.0 as int] < self.ks@[j]);
                }
            }
            return r;
        }
        if self.ks[mid] == *x {
            assert forall|j: int| 0 <= j < mid implies #[trigger] self.ks@[j] < *x by {
                assert(self.ks@[j] < self.ks@[mid as int]);
            }
            assert forall|j: int| mid <= j < len implies #[trigger] self.ks@[j] >= *x by {
                if j > mid {
                    assert(self.ks@[mid as int] < self.ks@[j]);
                }
            }
            return (mid, true);
        }
        let r = self.linear_search_reverse(x, 0, mid);
        assert forall|j: int| mid <= j < len implies #[trigger] self.ks@[j] > *x by {
            if j > mid {
                assert(self.ks@[mid as int] < self.ks@[j]);
            }
        }
        assert forall|j: int| 0 <= j < r.0 implies #[trigger] self.ks@[j] < *x by {
            if j < r.0 - 1 {
                assert(self.ks@[j] < self.ks@[r.0 - 1]);
            }
        }
        r
    }

    /// Scans keys `start..end` upwards for the first one not below `x`.
    pub fn linear_search(&self, x: &i64, start: usize, end: usize) -> (r: (usize, bool))
        requires
            start <= end <= self.ks@.len(),
        ensures
            start <= r.0 <= end,
            forall|j: int| start <= j < r.0 ==> #[trigger] self.ks@[j] < *x,
            r.0 < end ==> self.ks@[r.0 as int] >= *x,
            r.1 == (r.0 < end && self.ks@[r.0 as int] == *x),
    {
        let mut i = start;
        while i < end
            invariant
                start <= i <= end <= self.ks@.len(),
                forall|j: int| start <= j < i ==> #[trigger] self.ks@[j] < *x,
            decreases end - i,
        {
            if self.ks[i] < *x {
                i = i + 1;
                continue;
            }
            if self.ks[i] == *x {
                return (i, true);
            }
            return (i, false);
        }
        (end, false)
    }

    /// Scans keys `start..end` downwards for the last one not above `x`;
    /// gives position 0 where there is none.
    pub fn linear_search_reverse(&self, x: &i64, start: usize, end: usize) -> (r: (usize, bool))
        requires
            start <= end <= self.ks@.len(),
        ensures
            r.1 ==> start <= r.0 < end && self.ks@[r.0 as int] == *x && forall|j: int|
                r.0 < j < end ==> #[trigger] self.ks@[j] > *x,
            !r.1 ==> (r.0 == 0 && forall|j: int| start <= j < end ==> #[trigger] self.ks@[j] > *x)
                || (start < r.0 <= end && self.ks@[r.0 - 1] < *x && forall|j: int|
                r.0 <= j < end ==> #[trigger] self.ks@[j] > *x),
    {
        let mut i = end;
        while i > start
            invariant
                start <= i <= end <= self.ks@.len(),
                forall|j: int| i <= j < end ==> #[trigger] self.ks@[j] > *x,
            decreases i - start,
        {
            i = i - 1;
            if self.ks[i] < *x {
                return (i + 1, false);
            }
            if self.ks[i] == *x {
                return (i, true);
            }
        }
        (0, false)
    }
}


impl<V> View for Node<V> {
    type V = Map<i64, V>;

    /// The map from keys to values that the subtree holds.
    open spec fn view(&self) -> Map<i64, V> {
        to_map(self.items())
    }
}

impl<V> Node<V> {
    /// A well-formed node's child is well-formed, one level lower.
    pub proof fn lemma_child_wf(self, p: int)
        requires
            self.wf(),
            self.ns@.len() > 0,
            0 <= p < self.ns@.len(),
        ensures
            self.ns@[p].wf(),
            self.ns@[p].height() + 1 == self.height(),
            self.items() == flat(self.child_items(), self.kvs(), p) + self.ns@[p].items() + after(
                self.child_items(),
                self.kvs(),
                p,
            ),
    {
        let h = self.height();
        assert(self.ns@[p].frame((h - 1) as nat));
        self.ns@[p].lemma_frame_height((h - 1) as nat);
        let cs = self.child_items();
        let kv = self.kvs();
        lemma_inter_update(cs, kv, p, cs[p]);
        let a = flat(cs, kv, p);
        let b = after(cs, kv, p);
        assert(self.items() =~= a + self.ns@[p].items() + b);
        lemma_sorted_sub(self.items(), a.len() as int, (a.len() + self.ns@[p].items().len()) as int);
        assert(self.ns@[p].items() =~= self.items().subrange(
            a.len() as int,
            (a.len() + self.ns@[p].items().len()) as int,
        ));
    }

    /// When `x` falls strictly between keys `p - 1` and `p` of a well-formed
    /// node, every entry before child `p` has a key below `x` and every entry
    /// after it a key above `x`.
    pub proof fn lemma_child_bounds(self, p: int, x: i64)
        requires
            self.wf(),
            self.ns@.len() > 0,
            0 <= p < self.ns@.len(),
            p > 0 ==> self.ks@[p - 1] < x,
            p < self.ks@.len() ==> self.ks@[p] > x,
        ensures
            forall|i: int|
                0 <= i < flat(self.child_items(), self.kvs(), p).len() ==> #[trigger] flat(
                    self.child_items(),
                    self.kvs(),
                    p,
                )[i].0 < x,
            forall|i: int|
                0 <= i < after(self.child_items(), self.kvs(), p).len() ==> #[trigger] after(
                    self.child_items(),
                    self.kvs(),
                    p,
                )[i].0 > x,
    {
        self.lemma_child_wf(p);
        let cs = self.child_items();
        let kv = self.kvs();
        let a = flat(cs, kv, p);
        let b = after(cs, kv, p);
        if p > 0 {
            assert(a == flat(cs, kv, p - 1) + cs[p - 1] + seq![kv[p - 1]]);
            assert(a.last() == kv[p - 1]);
        }
        lemma_sorted_bounds(a, self.ns@[p].items(), b, x);
    }
}

impl<V> Node<V> {
    /// An empty node for a tree of order `m`.
    pub fn new(m: usize) -> (r: Node<V>)
        requires
            m >= 1,
        ensures
            r.ks@.len() == 0,
            r.vs@.len() == 0,
            r.ns@.len() == 0,
            r.wf(),
            r@ == Map::<i64, V>::empty(),
    {
        let r = Node::<V> {
            ks: Vec::<i64>::with_capacity(m - 1),
            vs: Vec::<V>::with_capacity(m - 1),
            ns: Vec::<Node<V>>::with_capacity(m),
        };
        assert(r.items() =~= Seq::<(i64, V)>::empty());
        r
    }

    /// Whether the node has no children.
    pub fn is_leaf(&self) -> (r: bool)
        ensures
            r == (self.ns@.len() == 0),
    {
        self.ns.is_empty()
    }

    /// Whether every node below this one holds a key.
    pub fn keyed_below(&self) -> (r: bool)
        requires
            self.frame(self.height()),
        ensures
            r == self.shape(self.height()),
        decreases self.height(),
    {
        let ghost h = self.height();
        let mut i: usize = 0;
        while i < self.ns.len()
            invariant
                self.frame(h),
                h == self.height(),
                i <= self.ns@.len(),
                forall|j: int|
                    0 <= j < i ==> (#[trigger] self.ns@[j]).shape((h - 1) as nat)
                        && self.ns@[j].ks@.len() > 0,
            decreases self.ns@.len() - i,
        {
            proof {
                assert(self.ns@[i as int].frame((h - 1) as nat));
                self.ns@[i as int].lemma_frame_height((h - 1) as nat);
            }
            if self.ns[i].ks.len() == 0 || !self.ns[i].keyed_below() {
                return false;
            }
            i = i + 1;
        }
        true
    }

    /// Whether the node holds no keys.
    pub fn is_empty(&self) -> (r: bool)
        ensures
            r == (self.ks@.len() == 0),
    {
        self.ks.is_empty()
    }

    /// The value stored under `x` in the subtree, if any.
    pub fn find(&self, x: &i64) -> (r: Option<&V>)
        requires
            self.wf(),
        ensures
            r == (if self@.dom().contains(*x) {
                Some(&self@[*x])
            } else {
                None
            }),
        decreases self.height(),
    {
        proof {
            self.lemma_keys_sorted();
        }
        let pos = self.find_pos(x);
        if pos.1 {
            proof {
                self.lemma_key_entry(pos.0 as int);
            }
            return Some(&self.vs[pos.0]);
        }
        if self.ns.len() == 0 {
            proof {
                lemma_to_map_dom(self.items(), *x);
                if self@.dom().contains(*x) {
                    let i = choose|i: int| 0 <= i < self.items().len() && #[trigger] self.items()[i].0 == *x;
                    assert(self.ks@[i] == *x);
                    if i > pos.0 {
                        assert(self.ks@[pos.0 as int] < self.ks@[i]);
                    }
                }
            }
            return None;
        }
        proof {
            let p = pos.0 as int;
            self.lemma_child_wf(p);
            if p < self.ks@.len() {
                assert(self.ks@[p] != *x);
            }
            self.lemma_child_bounds(p, *x);
            lemma_lookup_middle(
                flat(self.child_items(), self.kvs(), p),
                self.ns@[p].items(),
                after(self.child_items(), self.kvs(), p),
                *x,
            );
        }
        return self.ns[pos.0].find(x);
    }

    /// Key `i` of a well-formed node is in its map, with the value beside it.
    pub proof fn lemma_key_entry(self, i: int)
        requires
            self.wf(),
            0 <= i < self.ks@.len(),
        ensures
            self@.dom().contains(self.ks@[i]),
            self@[self.ks@[i]] == self.vs@[i],
    {
        if self.ns@.len() == 0 {
            lemma_to_map_value(self.items(), i);
        } else {
            let h = self.height();
            let cs = self.child_items();
            let kv = self.kvs();
            lemma_key_position(cs, kv, i);
            lemma_to_map_value(self.items(), flat(cs, kv, i + 1).len() - 1);
        }
    }
}


impl<V> Node<V> {
    /// Splits the node around key `m / 2`: the node keeps what lies before it,
    /// the returned node gets what lies after it, and the middle key and its
    /// value are returned between them.
    pub fn split(&mut self, m: usize) -> (r: (i64, V, Node<V>))
        requires
            m >= 1,
            old(self).frame(old(self).height()),
            m / 2 < old(self).ks@.len(),
        ensures
            final(self).ks@ == old(self).ks@.subrange(0, (m / 2) as int),
            2 * final(self).ks@.len() <= m < 2 * final(self).ks@.len() + 2,
            final(self).vs@ == old(self).vs@.subrange(0, (m / 2) as int),
            r.0 == old(self).ks@[(m / 2) as int],
            r.1 == old(self).vs@[(m / 2) as int],
            r.2.ks@ == old(self).ks@.subrange((m / 2) as int + 1, old(self).ks@.len() as int),
            r.2.vs@ == old(self).vs@.subrange((m / 2) as int + 1, old(self).vs@.len() as int),
            old(self).ns@.len() == 0 ==> final(self).ns@.len() == 0 && r.2.ns@.len() == 0,
            old(self).ns@.len() > 0 ==> final(self).ns@ == old(self).ns@.subrange(
                0,
                (m / 2) as int + 1,
            ) && r.2.ns@ == old(self).ns@.subrange((m / 2) as int + 1, old(self).ns@.len() as int),
            final(self).frame(old(self).height()),
            r.2.frame(old(self).height()),
            old(self).shape(old(self).height()) ==> final(self).shape(old(self).height())
                && r.2.shape(old(self).height()),
            old(self).items() == final(self).items() + seq![(r.0, r.1)] + r.2.items(),
            m >= 3 && old(self).ks@.len() == m && old(self).below_ok(m, old(self).height()) ==> {
                &&& final(self).occupied(m, old(self).height())
                &&& final(self).ks@.len() >= final(self).min_count(m)
                &&& r.2.occupied(m, old(self).height())
                &&& r.2.ks@.len() >= r.2.min_count(m)
            },
    {
        let ghost h = self.height();
        let ghost o = *self;
        let mut right = Node::new(m);
        let mid = m / 2;
        right.ks = self.ks.split_off(mid + 1);
        right.vs = self.vs.split_off(mid + 1);
        let mid_e = self.ks.pop().unwrap();
        let mid_v = self.vs.pop().unwrap();
        if self.ns.len() > 0 {
            right.ns = self.ns.split_off(mid + 1);
        }
        proof {
            assert(self.ks@ =~= o.ks@.subrange(0, mid as int));
            assert(self.vs@ =~= o.vs@.subrange(0, mid as int));
            lemma_split_items(o, *self, right, mid as int);
            if m >= 3 && o.ks@.len() == m && o.below_ok(m, h) {
                lemma_split_occ(o, *self, right, m);
            }
        }
        return (mid_e, mid_v, right);
    }
}

/// The halves of a full node are within the order's bounds.
proof fn lemma_split_occ<V>(o: Node<V>, l: Node<V>, r: Node<V>, m: usize)
    requires
        m >= 3,
        o.frame(o.height()),
        o.ks@.len() == m,
        o.below_ok(m, o.height()),
        l.ks@.len() == m / 2,
        r.ks@.len() == m - m / 2 - 1,
        o.ns@.len() == 0 ==> l.ns@.len() == 0 && r.ns@.len() == 0,
        o.ns@.len() > 0 ==> l.ns@ == o.ns@.subrange(0, (m / 2) as int + 1) && r.ns@ == o.ns@.subrange(
            (m / 2) as int + 1,
            o.ns@.len() as int,
        ),
    ensures
        l.occupied(m, o.height()),
        l.ks@.len() >= l.min_count(m),
        r.occupied(m, o.height()),
        r.ks@.len() >= r.min_count(m),
{
    let h = o.height();
    if h > 0 {
        assert forall|i: int| 0 <= i < l.ns@.len() implies (#[trigger] l.ns@[i]).occupied(
            m,
            (h - 1) as nat,
        ) && l.ns@[i].ks@.len() >= l.ns@[i].min_count(m) by {
            assert(l.ns@[i] == o.ns@[i]);
        }
        assert forall|i: int| 0 <= i < r.ns@.len() implies (#[trigger] r.ns@[i]).occupied(
            m,
            (h - 1) as nat,
        ) && r.ns@[i].ks@.len() >= r.ns@[i].min_count(m) by {
            assert(r.ns@[i] == o.ns@[(m / 2) as int + 1 + i]);
        }
    } else {
        assert(o.ns@.len() == 0);
    }
}

/// The entries of a node split around key `mid` into `l`, key `mid` and `r`.
proof fn lemma_split_items<V>(o: Node<V>, l: Node<V>, r: Node<V>, mid: int)
    requires
        o.frame(o.height()),
        0 <= mid < o.ks@.len(),
        l.ks@ == o.ks@.subrange(0, mid),
        l.vs@ == o.vs@.subrange(0, mid),
        r.ks@ == o.ks@.subrange(mid + 1, o.ks@.len() as int),
        r.vs@ == o.vs@.subrange(mid + 1, o.vs@.len() as int),
        o.ns@.len() == 0 ==> l.ns@.len() == 0 && r.ns@.len() == 0,
        o.ns@.len() > 0 ==> l.ns@ == o.ns@.subrange(0, mid + 1) && r.ns@ == o.ns@.subrange(
            mid + 1,
            o.ns@.len() as int,
        ),
    ensures
        l.frame(o.height()),
        r.frame(o.height()),
        o.shape(o.height()) ==> l.shape(o.height()) && r.shape(o.height()),
        o.items() == l.items() + seq![(o.ks@[mid], o.vs@[mid])] + r.items(),
{
    let h = o.height();
    let e = (o.ks@[mid], o.vs@[mid]);
    if o.ns@.len() == 0 {
        assert(o.kvs() =~= l.kvs() + seq![e] + r.kvs());
    } else {
        assert forall|i: int| 0 <= i < l.ns@.len() implies (#[trigger] l.ns@[i]) == o.ns@[i] by {}
        assert forall|i: int| 0 <= i < r.ns@.len() implies (#[trigger] r.ns@[i]) == o.ns@[mid + 1
            + i] by {}
        if o.shape(h) {
            assert forall|i: int| 0 <= i < l.ns@.len() implies (#[trigger] l.ns@[i]).shape(
                (h - 1) as nat,
            ) && l.ns@[i].ks@.len() > 0 by {
                assert(o.ns@[i].shape((h - 1) as nat));
            }
            assert forall|i: int| 0 <= i < r.ns@.len() implies (#[trigger] r.ns@[i]).shape(
                (h - 1) as nat,
            ) && r.ns@[i].ks@.len() > 0 by {
                assert(o.ns@[mid + 1 + i].shape((h - 1) as nat));
            }
        }
        assert forall|i: int| 0 <= i < l.ns@.len() implies (#[trigger] l.ns@[i]).frame(
            (h - 1) as nat,
        ) by {
            assert(o.ns@[i].frame((h - 1) as nat));
        }
        assert forall|i: int| 0 <= i < r.ns@.len() implies (#[trigger] r.ns@[i]).frame(
            (h - 1) as nat,
        ) by {
            assert(o.ns@[mid + 1 + i].frame((h - 1) as nat));
        }
        let cs = o.child_items();
        let kv = o.kvs();
        assert(l.child_items() =~= cs.subrange(0, mid + 1));
        assert(r.child_items() =~= cs.subrange(mid + 1, cs.len() as int));
        assert(l.kvs() =~= kv.subrange(0, mid));
        assert(r.kvs() =~= kv.subrange(mid + 1, kv.len() as int));
        assert(cs =~= cs.subrange(0, mid + 1) + cs.subrange(mid + 1, cs.len() as int));
        assert(kv =~= kv.subrange(0, mid).push(e) + kv.subrange(mid + 1, kv.len() as int));
        lemma_inter_concat(
            cs.subrange(0, mid + 1),
            kv.subrange(0, mid),
            e,
            cs.subrange(mid + 1, cs.len() as int),
            kv.subrange(mid + 1, kv.len() as int),
        );
    }
}


/// The keys, values and children `ks`, `vs`, `ns` of node `o`, of height `h`,
/// after `(x, v)` was put in its subtree of a tree of order `m`: a key equal
/// to `x` takes `v`; a leaf takes the entry at the key rank of `x`; an inner
/// node hands it to the child at that rank and, where that child grew to `m`
/// keys, takes up the child's key `m / 2` in its place, with the child's
/// halves on either side.
pub open spec fn insert_layout<V>(
    ks: Seq<i64>,
    vs: Seq<V>,
    ns: Seq<Node<V>>,
    o: Node<V>,
    x: i64,
    v: V,
    m: usize,
    h: nat,
) -> bool
    decreases h, 0int,
{
    let p = key_rank(o.ks@, x);
    if p < o.ks@.len() && o.ks@[p] == x {
        &&& ks == o.ks@
        &&& vs == o.vs@.update(p, v)
        &&& ns == o.ns@
    } else if h == 0 {
        &&& ks == o.ks@.insert(p, x)
        &&& vs == o.vs@.insert(p, v)
        &&& ns == o.ns@
    } else if ks.len() == o.ks@.len() {
        &&& ks == o.ks@
        &&& vs == o.vs@
        &&& p < ns.len()
        &&& ns == o.ns@.update(p, ns[p])
        &&& insert_layout(ns[p].ks@, ns[p].vs@, ns[p].ns@, o.ns@[p], x, v, m, (h - 1) as nat)
        &&& !ns[p].grew(o.ns@[p], m)
    } else {
        &&& p + 1 < ns.len()
        &&& ks == o.ks@.insert(p, ks[p])
        &&& vs == o.vs@.insert(p, vs[p])
        &&& ns == o.ns@.update(p, ns[p]).insert(p + 1, ns[p + 1])
        &&& split_inserted(ns[p], ks[p], vs[p], ns[p + 1], o.ns@[p], x, v, m, (h - 1) as nat)
    }
}

/// `l`, the entry `(k, w)` and `r` are the halves and the middle of node `o`,
/// of height `h`, after `(x, v)` was put in its subtree and it grew to `m`
/// keys: `l` holds its first `m / 2` keys (and their children).
pub open spec fn split_inserted<V>(
    l: Node<V>,
    k: i64,
    w: V,
    r: Node<V>,
    o: Node<V>,
    x: i64,
    v: V,
    m: usize,
    h: nat,
) -> bool
    decreases h, 1int,
{
    &&& l.ks@.len() == m / 2
    &&& l.ks@.len() + 1 + r.ks@.len() == m
    &&& o.ks@.len() != m
    &&& if o.ns@.len() == 0 {
        l.ns@.len() == 0 && r.ns@.len() == 0
    } else {
        l.ns@.len() == m / 2 + 1
    }
    &&& insert_layout(l.ks@ + seq![k] + r.ks@, l.vs@ + seq![w] + r.vs@, l.ns@ + r.ns@, o, x, v, m, h)
}

impl<V> Node<V> {
    /// This node is `o`, of height `h`, after `(x, v)` was put in its subtree
    /// of a tree of order `m`.
    pub open spec fn inserted(self, o: Node<V>, x: i64, v: V, m: usize, h: nat) -> bool {
        insert_layout(self.ks@, self.vs@, self.ns@, o, x, v, m, h)
    }

    /// This node grew from `o` to `m` keys, and must split.
    pub open spec fn grew(self, o: Node<V>, m: usize) -> bool {
        self.ks@.len() == m && self.ks@.len() != o.ks@.len()
    }

    /// Every node of the subtree of height `h` holds fewer than `m` keys.
    pub open spec fn capped(self, m: usize, h: nat) -> bool
        decreases h,
    {
        &&& self.ks@.len() < m
        &&& h > 0 ==> forall|i: int|
            0 <= i < self.ns@.len() ==> (#[trigger] self.ns@[i]).capped(m, (h - 1) as nat)
    }

    /// Every node below this one, in its subtree of height `h`, holds fewer
    /// than `m` keys.
    pub open spec fn below_capped(self, m: usize, h: nat) -> bool {
        h > 0 ==> forall|i: int|
            0 <= i < self.ns@.len() ==> (#[trigger] self.ns@[i]).capped(m, (h - 1) as nat)
    }
}

/// A node whose child `p` took `(x, v)` in its subtree, the rest unchanged, is
/// well-formed and holds the entries with `(x, v)` put in place; its other
/// children keep their key counts.
proof fn lemma_child_replaced<V>(o: Node<V>, n: Node<V>, p: int, x: i64, v: V, m: usize)
    requires
        o.wf(),
        o.ns@.len() > 0,
        0 <= p < o.ns@.len(),
        p > 0 ==> o.ks@[p - 1] < x,
        p < o.ks@.len() ==> o.ks@[p] > x,
        n.ks@ == o.ks@,
        n.vs@ == o.vs@,
        n.ns@ == o.ns@.update(p, n.ns@[p]),
        n.ns@[p].wf(),
        n.ns@[p].height() == o.ns@[p].height(),
        n.ns@[p].items() == sorted_insert(o.ns@[p].items(), x, v),
    ensures
        n.wf(),
        n.height() == o.height(),
        n.items() == sorted_insert(o.items(), x, v),
        o.capped(m, o.height()) ==> forall|i: int|
            0 <= i < n.ns@.len() && i != p ==> (#[trigger] n.ns@[i]).capped(m, (o.height() - 1) as nat),
        o.capped(m, o.height()) ==> o.ns@[p].capped(m, (o.height() - 1) as nat),
        m >= 3 && o.occupied(m, o.height()) ==> n.below_except(m, o.height(), p) && o.ns@[
            p
        ].occupied(m, (o.height() - 1) as nat),
{
    let h = o.height();
    let c2 = n.ns@[p];
    o.lemma_child_wf(p);
    o.lemma_child_bounds(p, x);
    lemma_sorted_insert_sorted(o.items(), x, v);
    lemma_insert_middle(
        flat(o.child_items(), o.kvs(), p),
        o.ns@[p].items(),
        after(o.child_items(), o.kvs(), p),
        x,
        v,
    );
    assert(n.child_items() =~= o.child_items().update(p, c2.items()));
    assert(n.kvs() =~= o.kvs());
    lemma_inter_update(o.child_items(), o.kvs(), p, c2.items());
    assert forall|i: int| 0 <= i < n.ns@.len() implies (#[trigger] n.ns@[i]).frame(
        (h - 1) as nat,
    ) by {
        if i != p {
            assert(n.ns@[i] == o.ns@[i]);
        } else {
            c2.lemma_frame_height(c2.height());
        }
        assert(o.ns@[i].frame((h - 1) as nat));
    }
    if p > 0 {
        assert(n.ns@[0] == o.ns@[0]);
    }
    assert(n.frame(h));
    n.lemma_frame_height(h);
    if o.capped(m, h) {
        assert forall|i: int| 0 <= i < n.ns@.len() && i != p implies (
        #[trigger] n.ns@[i]).capped(m, (h - 1) as nat) by {
            assert(n.ns@[i] == o.ns@[i]);
        }
    }
    if m >= 3 && o.occupied(m, h) {
        assert forall|i: int|
            0 <= i < n.ns@.len() && i != p implies (#[trigger] n.ns@[i]).occupied(
            m,
            (h - 1) as nat,
        ) && n.ns@[i].ks@.len() >= n.ns@[i].min_count(m) by {
            assert(n.ns@[i] == o.ns@[i]);
        }
    }
}

/// The halves and middle entry of a node that grew to `m` keys by taking
/// `(x, v)` are what `split_inserted` says; where the node's descendants held
/// fewer than `m` keys, so do the halves and theirs.
pub proof fn lemma_split_layout<V>(
    c: Node<V>,
    l: Node<V>,
    k: i64,
    w: V,
    r: Node<V>,
    o: Node<V>,
    x: i64,
    v: V,
    m: usize,
    h: nat,
)
    requires
        c.frame(h),
        c.inserted(o, x, v, m, h),
        c.grew(o, m),
        (c.ns@.len() == 0) == (o.ns@.len() == 0),
        m >= 1,
        l.ks@ == c.ks@.subrange(0, (m / 2) as int),
        l.vs@ == c.vs@.subrange(0, (m / 2) as int),
        k == c.ks@[(m / 2) as int],
        w == c.vs@[(m / 2) as int],
        r.ks@ == c.ks@.subrange((m / 2) as int + 1, c.ks@.len() as int),
        r.vs@ == c.vs@.subrange((m / 2) as int + 1, c.vs@.len() as int),
        c.ns@.len() == 0 ==> l.ns@.len() == 0 && r.ns@.len() == 0,
        c.ns@.len() > 0 ==> l.ns@ == c.ns@.subrange(0, (m / 2) as int + 1) && r.ns@
            == c.ns@.subrange((m / 2) as int + 1, c.ns@.len() as int),
    ensures
        split_inserted(l, k, w, r, o, x, v, m, h),
        c.below_capped(m, h) ==> l.capped(m, h) && r.capped(m, h),
{
    assert(l.ks@ + seq![k] + r.ks@ =~= c.ks@);
    assert(l.vs@ + seq![w] + r.vs@ =~= c.vs@);
    assert(l.ns@ + r.ns@ =~= c.ns@);
    if c.below_capped(m, h) {
        lemma_split_capped(c, l, r, m, h);
    }
}

/// The halves of a node whose descendants hold fewer than `m` keys, each with
/// fewer than `m` keys, have all their nodes below `m` keys.
proof fn lemma_split_capped<V>(c: Node<V>, l: Node<V>, r: Node<V>, m: usize, h: nat)
    requires
        c.below_capped(m, h),
        l.ks@.len() < m,
        r.ks@.len() < m,
        c.ns@.len() == 0 ==> l.ns@.len() == 0 && r.ns@.len() == 0,
        c.ns@.len() > 0 ==> l.ns@ == c.ns@.subrange(0, l.ns@.len() as int) && r.ns@
            == c.ns@.subrange(l.ns@.len() as int, c.ns@.len() as int),
        l.ns@.len() <= c.ns@.len(),
    ensures
        l.capped(m, h),
        r.capped(m, h),
{
    if h > 0 {
        assert forall|i: int| 0 <= i < l.ns@.len() implies (#[trigger] l.ns@[i]).capped(
            m,
            (h - 1) as nat,
        ) by {
            assert(l.ns@[i] == c.ns@[i]);
        }
        assert forall|i: int| 0 <= i < r.ns@.len() implies (#[trigger] r.ns@[i]).capped(
            m,
            (h - 1) as nat,
        ) by {
            assert(r.ns@[i] == c.ns@[l.ns@.len() + i]);
        }
    }
}

impl<V> Node<V> {
    /// Splits child `pos` around its key `m / 2`, which moves up into this
    /// node between the two halves.
    #[verifier::spinoff_prover]
    #[verifier::rlimit(60)]
    pub fn split_child(&mut self, pos: usize, m: usize)
        requires
            m >= 1,
            old(self).frame(old(self).height()),
            old(self).ns@.len() > 0,
            pos < old(self).ns@.len(),
            m / 2 < old(self).ns@[pos as int].ks@.len(),
        ensures
            final(self).ks@ == old(self).ks@.insert(
                pos as int,
                old(self).ns@[pos as int].ks@[(m / 2) as int],
            ),
            final(self).vs@ == old(self).vs@.insert(
                pos as int,
                old(self).ns@[pos as int].vs@[(m / 2) as int],
            ),
            final(self).ns@.len() == old(self).ns@.len() + 1,
            forall|j: int| 0 <= j < pos ==> #[trigger] final(self).ns@[j] == old(self).ns@[j],
            forall|j: int|
                pos + 1 < j < final(self).ns@.len() ==> #[trigger] final(self).ns@[j] == old(self).ns@[j - 1],
            final(self).ns@[pos as int].ks@ == old(self).ns@[pos as int].ks@.subrange(
                0,
                (m / 2) as int,
            ),
            final(self).ns@[pos + 1].ks@ == old(self).ns@[pos as int].ks@.subrange(
                (m / 2) as int + 1,
                old(self).ns@[pos as int].ks@.len() as int,
            ),
            final(self).ns@[pos as int].vs@ == old(self).ns@[pos as int].vs@.subrange(
                0,
                (m / 2) as int,
            ),
            final(self).ns@[pos + 1].vs@ == old(self).ns@[pos as int].vs@.subrange(
                (m / 2) as int + 1,
                old(self).ns@[pos as int].vs@.len() as int,
            ),
            old(self).ns@[pos as int].ns@.len() == 0 ==> final(self).ns@[pos as int].ns@.len() == 0
                && final(self).ns@[pos + 1].ns@.len() == 0,
            old(self).ns@[pos as int].ns@.len() > 0 ==> final(self).ns@[pos as int].ns@ == old(self).ns@[pos as int].ns@.subrange(0, (m / 2) as int + 1) && final(self).ns@[pos + 1].ns@
                == old(self).ns@[pos as int].ns@.subrange(
                (m / 2) as int + 1,
                old(self).ns@[pos as int].ns@.len() as int,
            ),
            final(self).items() == old(self).items(),
            final(self).height() == old(self).height(),
            final(self).frame(old(self).height()),
            old(self).shape(old(self).height()) && m / 2 >= 1 && old(self).ns@[pos as int].ks@.len() >= m / 2 + 2 ==> final(self).shape(
                old(self).height(),
            ),
            m >= 3 && old(self).below_except(m, old(self).height(), pos as int) && old(self).ns@[pos as int].ks@.len() == m && old(self).ns@[pos as int].below_ok(
                m,
                (old(self).height() - 1) as nat,
            ) ==> final(self).below_ok(m, old(self).height()),
    {
        let ghost o = *self;
        let ghost h = self.height();
        proof {
            assert(o.ns@[pos as int].frame((h - 1) as nat));
            o.ns@[pos as int].lemma_frame_height((h - 1) as nat);
        }
        proof {
            assert(self.ns@.len() == self.ns.len());
        }
        let next = pos + 1;
        let result = self.ns[pos].split(m);
        self.ks.insert(pos, result.0);
        self.vs.insert(pos, result.1);
        self.ns.insert(next, result.2);
        proof {
            let c = o.ns@[pos as int];
            let l = self.ns@[pos as int];
            let r = result.2;
            let e = (result.0, result.1);
            assert(self.ns@ == o.ns@.update(pos as int, l).insert(pos + 1, r));
            let cs = o.child_items();
            let kv = o.kvs();
            assert(self.child_items() =~= cs.update(pos as int, l.items()).insert(pos + 1, r.items()));
            assert(self.kvs() =~= kv.insert(pos as int, e));
            lemma_inter_split_child(cs, kv, pos as int, l.items(), e, r.items());
            lemma_inter_update(cs, kv, pos as int, cs[pos as int]);
            assert(o.items() == flat(cs, kv, pos as int) + c.items() + after(cs, kv, pos as int));
            assert(self.items() =~= o.items());
            l.lemma_frame_height((h - 1) as nat);
            assert forall|i: int| 0 <= i < self.ns@.len() implies (#[trigger] self.ns@[i]).frame(
                (h - 1) as nat,
            ) by {
                if i < pos {
                    assert(self.ns@[i] == o.ns@[i]);
                } else if i > pos + 1 {
                    assert(self.ns@[i] == o.ns@[i - 1]);
                }
            }
            if m >= 3 && o.below_except(m, h, pos as int) && c.ks@.len() == m && c.below_ok(
                m,
                (h - 1) as nat,
            ) {
                assert forall|i: int| 0 <= i < self.ns@.len() implies (
                #[trigger] self.ns@[i]).occupied(m, (h - 1) as nat) && self.ns@[i].ks@.len()
                    >= self.ns@[i].min_count(m) by {
                    if i < pos {
                        assert(self.ns@[i] == o.ns@[i]);
                    } else if i > pos + 1 {
                        assert(self.ns@[i] == o.ns@[i - 1]);
                    }
                }
            }
            if pos > 0 {
                assert(self.ns@[0] == o.ns@[0]);
            }
            if o.shape(h) && m / 2 >= 1 && c.ks@.len() >= m / 2 + 2 {
                assert forall|i: int| 0 <= i < self.ns@.len() implies (#[trigger] self.ns@[i]).shape(
                    (h - 1) as nat,
                ) && self.ns@[i].ks@.len() > 0 by {
                    if i < pos {
                        assert(self.ns@[i] == o.ns@[i]);
                    } else if i > pos + 1 {
                        assert(self.ns@[i] == o.ns@[i - 1]);
                    }
                }
            }
        }
    }

    /// Puts `v` under `x` in the subtree, splitting children that reach `m`
    /// keys. Gives whether this node now needs splitting: whether it grew to
    /// `m` keys.
    #[verifier::spinoff_prover]
    #[verifier::rlimit(100)]
    pub fn insert(&mut self, x: i64, v: V, m: usize) -> (r: bool)
        requires
            m >= 1,
            old(self).wf(),
        ensures
            final(self).wf(),
            final(self).height() == old(self).height(),
            final(self).items() == sorted_insert(old(self).items(), x, v),
            final(self).inserted(*old(self), x, v, m, old(self).height()),
            r == final(self).grew(*old(self), m),
            old(self).ks@.len() <= final(self).ks@.len() <= old(self).ks@.len() + 1,
            (final(self).ns@.len() == 0) == (old(self).ns@.len() == 0),
            old(self).capped(m, old(self).height()) ==> final(self).below_capped(
                m,
                old(self).height(),
            ) && (!r ==> final(self).capped(m, old(self).height())),
            m >= 3 && old(self).occupied(m, old(self).height()) ==> final(self).below_ok(
                m,
                old(self).height(),
            ) && (!r ==> final(self).fits(m)),
        decreases old(self).height(),
    {
        let ghost o = *self;
        let ghost h = self.height();
        proof {
            self.lemma_keys_sorted();
            lemma_sorted_insert_sorted(o.items(), x, v);
        }
        let pos = self.find_pos(&x);
        proof {
            lemma_key_rank(o.ks@, x, pos.0 as int);
            o.lemma_frame_height(h);
        }
        if pos.1 {
            // overwrite, wherever the key is
            self.ks[pos.0] = x;
            self.vs[pos.0] = v;
            proof {
                self.lemma_overwrite_items(o, pos.0 as int, x, v);
                assert(self.ns@ == o.ns@);
                if h > 0 {
                    assert forall|i: int| 0 <= i < self.ns@.len() implies (
                    #[trigger] self.ns@[i]).capped(m, (h - 1) as nat) == o.ns@[i].capped(
                        m,
                        (h - 1) as nat,
                    ) by {}
                }
            }
            return false;
        }
        if self.is_leaf() {
            self.ks.insert(pos.0, x);
            self.vs.insert(pos.0, v);
            proof {
                lemma_rank_keys(o, pos.0 as int, x);
                assert(self.kvs() =~= o.kvs().insert(pos.0 as int, (x, v)));
                assert(self.frame(0));
                self.lemma_frame_height(0);
            }
            return self.ks.len() == m;
        }
        proof {
            let p = pos.0 as int;
            o.lemma_child_wf(p);
            if p < o.ks@.len() {
                assert(o.ks@[p] != x);
            }
        }
        let need_split = self.ns[pos.0].insert(x, v, m);
        let ghost s1 = *self;
        proof {
            let p = pos.0 as int;
            let c2 = self.ns@[p];
            assert(self.ns@ == o.ns@.update(p, c2));
            lemma_child_replaced(o, *self, p, x, v, m);
            if m >= 3 && o.occupied(m, h) && !need_split {
                c2.lemma_occupied_below(m, (h - 1) as nat);
                assert(self.below_ok(m, h)) by {
                    assert forall|i: int| 0 <= i < self.ns@.len() implies (
                    #[trigger] self.ns@[i]).occupied(m, (h - 1) as nat) && self.ns@[i].ks@.len()
                        >= self.ns@[i].min_count(m) by {
                        if i != p {
                            assert(self.below_except(m, h, p));
                        }
                    }
                }
            }
        }
        if need_split {
            self.split_child(pos.0, m);
            proof {
                let p = pos.0 as int;
                let c2 = s1.ns@[p];
                let l = self.ns@[p];
                let r = self.ns@[p + 1];
                assert(self.ns@ =~= o.ns@.update(p, l).insert(p + 1, r));
                lemma_split_layout(c2, l, self.ks@[p], self.vs@[p], r, o.ns@[p], x, v, m, (h - 1) as nat);
                if o.capped(m, h) {
                    assert forall|i: int| 0 <= i < self.ns@.len() implies (
                    #[trigger] self.ns@[i]).capped(m, (h - 1) as nat) by {
                        if i < p {
                            assert(self.ns@[i] == s1.ns@[i]);
                        } else if i > p + 1 {
                            assert(self.ns@[i] == s1.ns@[i - 1]);
                        }
                    }
                }
            }
            return self.ks.len() == m;
        }
        return false;
    }

    /// Overwriting entry `p` with `(x, v)` where its key is `x` is ordered
    /// insertion of `(x, v)`.
    proof fn lemma_overwrite_items(self, o: Node<V>, p: int, x: i64, v: V)
        requires
            o.wf(),
            sorted_keys(o.ks@),
            0 <= p < o.ks@.len(),
            o.ks@[p] == x,
            self.ks@ == o.ks@.update(p, x),
            self.vs@ == o.vs@.update(p, v),
            self.ns@ == o.ns@,
        ensures
            self.wf(),
            self.height() == o.height(),
            self.items() == sorted_insert(o.items(), x, v),
            self.ks@ == o.ks@,
    {
        let s = o.items();
        lemma_sorted_insert_sorted(s, x, v);
        assert(self.ks@ =~= o.ks@);
        if o.ns@.len() == 0 {
            lemma_rank_keys(o, p, x);
            assert(self.kvs() =~= o.kvs().update(p, (x, v)));
        } else {
            let cs = o.child_items();
            let kv = o.kvs();
            assert(self.child_items() =~= cs);
            assert(self.kvs() =~= kv.update(p, (x, v)));
            lemma_key_position(cs, kv, p);
            let q = flat(cs, kv, p + 1).len() - 1;
            lemma_inter_drop_prefix(cs, kv, p + 1);
            lemma_inter_drop_prefix(cs, kv.update(p, (x, v)), p + 1);
            let f = flat(cs, kv, p);
            lemma_flat_prefix(cs, kv.update(p, (x, v)), cs, kv, p);
            assert(kv.update(p, (x, v)).subrange(p + 1, kv.len() as int) =~= kv.subrange(
                p + 1,
                kv.len() as int,
            ));
            assert(self.items() =~= s.update(q, (x, v)));
            assert forall|i: int| 0 <= i < q implies #[trigger] s[i].0 < x by {
                assert(s[i].0 < s[q].0);
            }
            assert forall|i: int| q <= i < s.len() implies #[trigger] s[i].0 >= x by {
                if i > q {
                    assert(s[q].0 < s[i].0);
                }
            }
            lemma_rank_unique(s, x, q);
        }
        o.lemma_frame_height(o.height());
        assert(self.frame(o.height()));
        self.lemma_frame_height(o.height());
    }
}

/// In a leaf, the number of keys below `x` is the rank of `x` among its entries.
proof fn lemma_rank_keys<V>(o: Node<V>, p: int, x: i64)
    requires
        o.wf(),
        o.ns@.len() == 0,
        0 <= p <= o.ks@.len(),
        forall|j: int| 0 <= j < p ==> #[trigger] o.ks@[j] < x,
        forall|j: int| p <= j < o.ks@.len() ==> #[trigger] o.ks@[j] >= x,
    ensures
        rank(o.items(), x) == p,
{
    let s = o.items();
    assert forall|i: int| 0 <= i < p implies #[trigger] s[i].0 < x by {
        assert(o.ks@[i] < x);
    }
    assert forall|i: int| p <= i < s.len() implies #[trigger] s[i].0 >= x by {
        assert(o.ks@[i] >= x);
    }
    lemma_rank_unique(s, x, p);
}


/// The entries of a node that gains entry `e` (and, if inner, child `g`) at its end.
proof fn lemma_items_push<V>(c: Node<V>, c2: Node<V>, e: (i64, V), g: Node<V>)
    requires
        c.vs@.len() == c.ks@.len(),
        c.ns@.len() == 0 || c.ns@.len() == c.ks@.len() + 1,
        c2.ks@ == c.ks@.push(e.0),
        c2.vs@ == c.vs@.push(e.1),
        c.ns@.len() == 0 ==> c2.ns@.len() == 0,
        c.ns@.len() > 0 ==> c2.ns@ == c.ns@.push(g),
    ensures
        c.ns@.len() == 0 ==> c2.items() == c.items() + seq![e],
        c.ns@.len() > 0 ==> c2.items() == c.items() + seq![e] + g.items(),
{
    assert(c2.kvs() =~= c.kvs().push(e));
    if c.ns@.len() > 0 {
        assert(c2.child_items() =~= c.child_items() + seq![g.items()]);
        assert(c2.kvs() =~= c.kvs().push(e) + Seq::<(i64, V)>::empty());
        lemma_inter_concat(
            c.child_items(),
            c.kvs(),
            e,
            seq![g.items()],
            Seq::<(i64, V)>::empty(),
        );
        lemma_inter_single(seq![g.items()], Seq::<(i64, V)>::empty());
    } else {
        assert(c2.kvs() =~= c.kvs() + seq![e]);
    }
}

/// The entries of a node that gains entry `e` (and, if inner, child `g`) at its front.
proof fn lemma_items_prepend<V>(c: Node<V>, c2: Node<V>, e: (i64, V), g: Node<V>)
    requires
        c.vs@.len() == c.ks@.len(),
        c.ns@.len() == 0 || c.ns@.len() == c.ks@.len() + 1,
        c2.ks@ == c.ks@.insert(0, e.0),
        c2.vs@ == c.vs@.insert(0, e.1),
        c.ns@.len() == 0 ==> c2.ns@.len() == 0,
        c.ns@.len() > 0 ==> c2.ns@ == c.ns@.insert(0, g),
    ensures
        c.ns@.len() == 0 ==> c2.items() == seq![e] + c.items(),
        c.ns@.len() > 0 ==> c2.items() == g.items() + seq![e] + c.items(),
{
    if c.ns@.len() > 0 {
        assert(c2.child_items() =~= seq![g.items()] + c.child_items());
        assert(c2.kvs() =~= Seq::<(i64, V)>::empty().push(e) + c.kvs());
        lemma_inter_concat(
            seq![g.items()],
            Seq::<(i64, V)>::empty(),
            e,
            c.child_items(),
            c.kvs(),
        );
        lemma_inter_single(seq![g.items()], Seq::<(i64, V)>::empty());
    } else {
        assert(c2.kvs() =~= seq![e] + c.kvs());
    }
}

/// The entries of a node that loses its first entry (and, if inner, its first child).
proof fn lemma_items_drop_first<V>(s: Node<V>, s2: Node<V>)
    requires
        s.vs@.len() == s.ks@.len(),
        s.ks@.len() > 0,
        s.ns@.len() == 0 || s.ns@.len() == s.ks@.len() + 1,
        s2.ks@ == s.ks@.drop_first(),
        s2.vs@ == s.vs@.drop_first(),
        s.ns@.len() == 0 ==> s2.ns@.len() == 0,
        s.ns@.len() > 0 ==> s2.ns@ == s.ns@.drop_first(),
    ensures
        s.ns@.len() == 0 ==> s.items() == seq![(s.ks@[0], s.vs@[0])] + s2.items(),
        s.ns@.len() > 0 ==> s.items() == s.ns@[0].items() + seq![(s.ks@[0], s.vs@[0])]
            + s2.items(),
{
    let e = (s.ks@[0], s.vs@[0]);
    if s.ns@.len() > 0 {
        assert(s.child_items() =~= seq![s.ns@[0].items()] + s2.child_items());
        assert(s.kvs() =~= Seq::<(i64, V)>::empty().push(e) + s2.kvs());
        lemma_inter_concat(
            seq![s.ns@[0].items()],
            Seq::<(i64, V)>::empty(),
            e,
            s2.child_items(),
            s2.kvs(),
        );
        lemma_inter_single(seq![s.ns@[0].items()], Seq::<(i64, V)>::empty());
    } else {
        assert(s.kvs() =~= seq![e] + s2.kvs());
    }
}

/// The entries of a node that loses its last entry (and, if inner, its last child).
proof fn lemma_items_drop_last<V>(s: Node<V>, s2: Node<V>)
    requires
        s.vs@.len() == s.ks@.len(),
        s.ks@.len() > 0,
        s.ns@.len() == 0 || s.ns@.len() == s.ks@.len() + 1,
        s2.ks@ == s.ks@.drop_last(),
        s2.vs@ == s.vs@.drop_last(),
        s.ns@.len() == 0 ==> s2.ns@.len() == 0,
        s.ns@.len() > 0 ==> s2.ns@ == s.ns@.drop_last(),
    ensures
        s.ns@.len() == 0 ==> s.items() == s2.items() + seq![(s.ks@.last(), s.vs@.last())],
        s.ns@.len() > 0 ==> s.items() == s2.items() + seq![(s.ks@.last(), s.vs@.last())]
            + s.ns@.last().items(),
{
    let e = (s.ks@.last(), s.vs@.last());
    if s.ns@.len() > 0 {
        assert(s.child_items() =~= s2.child_items() + seq![s.ns@.last().items()]);
        assert(s.kvs() =~= s2.kvs().push(e) + Seq::<(i64, V)>::empty());
        lemma_inter_concat(
            s2.child_items(),
            s2.kvs(),
            e,
            seq![s.ns@.last().items()],
            Seq::<(i64, V)>::empty(),
        );
        lemma_inter_single(seq![s.ns@.last().items()], Seq::<(i64, V)>::empty());
    } else {
        assert(s.kvs() =~= s2.kvs() + seq![e]);
    }
}

/// The entries of two siblings merged around separator `e`.
proof fn lemma_items_merge<V>(c: Node<V>, s: Node<V>, e: (i64, V), mg: Node<V>)
    requires
        c.vs@.len() == c.ks@.len(),
        s.vs@.len() == s.ks@.len(),
        c.ns@.len() == 0 <==> s.ns@.len() == 0,
        c.ns@.len() == 0 || c.ns@.len() == c.ks@.len() + 1,
        s.ns@.len() == 0 || s.ns@.len() == s.ks@.len() + 1,
        mg.ks@ == c.ks@.push(e.0) + s.ks@,
        mg.vs@ == c.vs@.push(e.1) + s.vs@,
        mg.ns@ == c.ns@ + s.ns@,
    ensures
        mg.items() == c.items() + seq![e] + s.items(),
{
    assert(mg.kvs() =~= c.kvs().push(e) + s.kvs());
    if c.ns@.len() > 0 {
        assert(mg.child_items() =~= c.child_items() + s.child_items());
        lemma_inter_concat(c.child_items(), c.kvs(), e, s.child_items(), s.kvs());
    } else {
        assert(mg.kvs() =~= c.kvs() + seq![e] + s.kvs());
    }
}

impl<V> Node<V> {
    /// The B-tree shape at height `h`, except that child `p` may have lost all
    /// its keys.
    pub open spec fn shape_except(self, h: nat, p: int) -> bool {
        &&& h > 0
        &&& self.vs@.len() == self.ks@.len()
        &&& self.ns@.len() == self.ks@.len() + 1
        &&& forall|i: int|
            0 <= i < self.ns@.len() ==> (#[trigger] self.ns@[i]).shape((h - 1) as nat) && (i != p
                ==> self.ns@[i].ks@.len() > 0)
    }

    /// Whether the node can give up a key and stay above the minimum: a leaf
    /// keeps one key, an inner node of a tree of order `m` keeps `m / 2`.
    pub open spec fn lendable(self, m: usize) -> bool {
        if self.ns@.len() == 0 {
            self.ks@.len() > 1
        } else {
            self.ks@.len() > m / 2
        }
    }

    /// Every child holds between its fewest keys and `m - 1`.
    pub open spec fn child_counts(self, m: usize) -> bool {
        forall|i: int|
            0 <= i < self.ns@.len() ==> (#[trigger] self.ns@[i]).min_count(m)
                <= self.ns@[i].ks@.len() < m
    }

    /// Every child but child `p` holds between its fewest keys and `m - 1`,
    /// and child `p` holds one key fewer than its fewest.
    pub open spec fn counts_short(self, m: usize, p: int) -> bool {
        &&& self.ns@[p].ks@.len() + 1 == self.ns@[p].min_count(m)
        &&& forall|i: int|
            0 <= i < self.ns@.len() && i != p ==> (#[trigger] self.ns@[i]).min_count(m)
                <= self.ns@[i].ks@.len() < m
    }

    /// This node is `o` after child `pos` was refilled from its right
    /// sibling: by a rotation through separator `pos` where the sibling can
    /// lend a key, else by merging the two around it.
    pub open spec fn refilled_from_right(self, o: Node<V>, pos: int, m: usize) -> bool {
        &&& o.ns@[pos + 1].lendable(m) ==> {
            &&& self.ks@ == o.ks@.update(pos, o.ns@[pos + 1].ks@[0])
            &&& self.vs@ == o.vs@.update(pos, o.ns@[pos + 1].vs@[0])
            &&& self.ns@.len() == o.ns@.len()
            &&& self.ns@[pos].ks@ == o.ns@[pos].ks@.push(o.ks@[pos])
            &&& self.ns@[pos].vs@ == o.ns@[pos].vs@.push(o.vs@[pos])
            &&& (o.ns@[pos + 1].ns@.len() == 0 ==> self.ns@[pos].ns@
                == o.ns@[pos].ns@ && self.ns@[pos + 1].ns@.len() == 0)
            &&& (o.ns@[pos + 1].ns@.len() > 0 ==> self.ns@[pos].ns@
                == o.ns@[pos].ns@.push(o.ns@[pos + 1].ns@[0])
                && self.ns@[pos + 1].ns@ == o.ns@[pos + 1].ns@.drop_first())
            &&& self.ns@[pos + 1].ks@ == o.ns@[pos + 1].ks@.drop_first()
            &&& self.ns@[pos + 1].vs@ == o.ns@[pos + 1].vs@.drop_first()
            &&& forall|j: int|
                0 <= j < self.ns@.len() && j != pos && j != pos + 1 ==> #[trigger] self.ns@[j] == o.ns@[j]
        }
        &&& !o.ns@[pos + 1].lendable(m) ==> {
            &&& self.ks@ == o.ks@.remove(pos)
            &&& self.vs@ == o.vs@.remove(pos)
            &&& self.ns@.len() == o.ns@.len() - 1
            &&& self.ns@[pos].ks@ == o.ns@[pos].ks@.push(o.ks@[pos]) + o.ns@[pos + 1].ks@
            &&& self.ns@[pos].vs@ == o.ns@[pos].vs@.push(o.vs@[pos]) + o.ns@[pos + 1].vs@
            &&& self.ns@[pos].ns@ == o.ns@[pos].ns@ + o.ns@[pos + 1].ns@
            &&& forall|j: int| 0 <= j < pos ==> #[trigger] self.ns@[j] == o.ns@[j]
            &&& forall|j: int|
                pos < j < self.ns@.len() ==> #[trigger] self.ns@[j] == o.ns@[j + 1]
        }
    }

    /// This node is `o` after child `pos` was refilled from its left
    /// sibling: by a rotation through separator `pos - 1` where the sibling
    /// can lend a key, else by merging the two around it.
    pub open spec fn refilled_from_left(self, o: Node<V>, pos: int, m: usize) -> bool {
        &&& o.ns@[pos - 1].lendable(m) ==> {
            &&& self.ks@ == o.ks@.update(pos - 1, o.ns@[pos - 1].ks@.last())
            &&& self.vs@ == o.vs@.update(pos - 1, o.ns@[pos - 1].vs@.last())
            &&& self.ns@.len() == o.ns@.len()
            &&& self.ns@[pos].ks@ == o.ns@[pos].ks@.insert(0, o.ks@[pos - 1])
            &&& self.ns@[pos].vs@ == o.ns@[pos].vs@.insert(0, o.vs@[pos - 1])
            &&& (o.ns@[pos - 1].ns@.len() == 0 ==> self.ns@[pos].ns@
                == o.ns@[pos].ns@ && self.ns@[pos - 1].ns@.len() == 0)
            &&& (o.ns@[pos - 1].ns@.len() > 0 ==> self.ns@[pos].ns@
                == o.ns@[pos].ns@.insert(0, o.ns@[pos - 1].ns@.last())
                && self.ns@[pos - 1].ns@ == o.ns@[pos - 1].ns@.drop_last())
            &&& self.ns@[pos - 1].ks@ == o.ns@[pos - 1].ks@.drop_last()
            &&& self.ns@[pos - 1].vs@ == o.ns@[pos - 1].vs@.drop_last()
            &&& forall|j: int|
                0 <= j < self.ns@.len() && j != pos && j != pos - 1 ==> #[trigger] self.ns@[j] == o.ns@[j]
        }
        &&& !o.ns@[pos - 1].lendable(m) ==> {
            &&& self.ks@ == o.ks@.remove(pos - 1)
            &&& self.vs@ == o.vs@.remove(pos - 1)
            &&& self.ns@.len() == o.ns@.len() - 1
            &&& self.ns@[pos - 1].ks@ == o.ns@[pos - 1].ks@.push(o.ks@[pos - 1]) + o.ns@[pos].ks@
            &&& self.ns@[pos - 1].vs@ == o.ns@[pos - 1].vs@.push(o.vs@[pos - 1]) + o.ns@[pos].vs@
            &&& self.ns@[pos - 1].ns@ == o.ns@[pos - 1].ns@ + o.ns@[pos].ns@
            &&& forall|j: int| 0 <= j < pos - 1 ==> #[trigger] self.ns@[j] == o.ns@[j]
            &&& forall|j: int|
                pos - 1 < j < self.ns@.len() ==> #[trigger] self.ns@[j] == o.ns@[j + 1]
        }
    }

    /// Whether the node can give a key to a sibling.
    pub fn can_borrow(&self, m: usize) -> (r: bool)
        ensures
            r == self.lendable(m),
            self.ns@.len() == 0 ==> (r <==> self.ks@.len() >= 2),
            self.ns@.len() > 0 ==> (r <==> 2 * self.ks@.len() > m),
    {
        if self.is_leaf() {
            return self.ks.len() > 1;
        }
        return self.ks.len() > m / 2;
    }

    /// Takes out the first key and value, and the first child if there is one.
    pub fn borrow_left_most(&mut self) -> (r: (i64, V, Option<Node<V>>))
        requires
            old(self).ks@.len() > 0,
            old(self).vs@.len() == old(self).ks@.len(),
            old(self).ns@.len() == 0 || old(self).ns@.len() == old(self).ks@.len() + 1,
        ensures
            r.0 == old(self).ks@[0],
            r.1 == old(self).vs@[0],
            final(self).ks@ == old(self).ks@.drop_first(),
            final(self).vs@ == old(self).vs@.drop_first(),
            old(self).ns@.len() == 0 ==> r.2 == None::<Node<V>> && final(self).ns@.len() == 0,
            old(self).ns@.len() > 0 ==> r.2 == Some(old(self).ns@[0]) && final(self).ns@ == old(self).ns@.drop_first(),
    {
        let k = self.ks.remove(0);
        let v = self.vs.remove(0);
        proof {
            assert(old(self).ks@.remove(0) =~= old(self).ks@.drop_first());
            assert(old(self).vs@.remove(0) =~= old(self).vs@.drop_first());
        }
        if self.is_leaf() {
            return (k, v, None);
        }
        let n = self.ns.remove(0);
        proof {
            assert(old(self).ns@.remove(0) =~= old(self).ns@.drop_first());
        }
        return (k, v, Some(n));
    }

    /// Takes out the last key and value, and the last child if there is one.
    pub fn borrow_right_most(&mut self) -> (r: (i64, V, Option<Node<V>>))
        requires
            old(self).ks@.len() > 0,
            old(self).vs@.len() == old(self).ks@.len(),
            old(self).ns@.len() == 0 || old(self).ns@.len() == old(self).ks@.len() + 1,
        ensures
            r.0 == old(self).ks@.last(),
            r.1 == old(self).vs@.last(),
            final(self).ks@ == old(self).ks@.drop_last(),
            final(self).vs@ == old(self).vs@.drop_last(),
            old(self).ns@.len() == 0 ==> r.2 == None::<Node<V>> && final(self).ns@.len() == 0,
            old(self).ns@.len() > 0 ==> r.2 == Some(old(self).ns@.last()) && final(self).ns@ == old(self).ns@.drop_last(),
    {
        let k = self.ks.pop().unwrap();
        let v = self.vs.pop().unwrap();
        if self.is_leaf() {
            return (k, v, None);
        }
        let n = self.ns.pop();
        return (k, v, n);
    }
}


/// Borrowing through separator `p` from the right sibling keeps the entries
/// and restores the shape.
proof fn lemma_borrow_right<V>(o: Node<V>, n: Node<V>, p: int, m: usize)
    requires
        o.frame(o.height()),
        0 <= p,
        p + 1 < o.ns@.len(),
        o.ns@[p + 1].lendable(m),
        n.ks@ == o.ks@.update(p, o.ns@[p + 1].ks@[0]),
        n.vs@ == o.vs@.update(p, o.ns@[p + 1].vs@[0]),
        n.ns@ == o.ns@.update(p, n.ns@[p]).update(p + 1, n.ns@[p + 1]),
        n.ns@[p].ks@ == o.ns@[p].ks@.push(o.ks@[p]),
        n.ns@[p].vs@ == o.ns@[p].vs@.push(o.vs@[p]),
        o.ns@[p + 1].ns@.len() == 0 ==> n.ns@[p].ns@ == o.ns@[p].ns@,
        o.ns@[p + 1].ns@.len() > 0 ==> n.ns@[p].ns@ == o.ns@[p].ns@.push(o.ns@[p + 1].ns@[0]),
        n.ns@[p + 1].ks@ == o.ns@[p + 1].ks@.drop_first(),
        n.ns@[p + 1].vs@ == o.ns@[p + 1].vs@.drop_first(),
        o.ns@[p + 1].ns@.len() == 0 ==> n.ns@[p + 1].ns@.len() == 0,
        o.ns@[p + 1].ns@.len() > 0 ==> n.ns@[p + 1].ns@ == o.ns@[p + 1].ns@.drop_first(),
    ensures
        o.shape_except(o.height(), p) && m >= 2 ==> n.shape(o.height()),
        n.frame(o.height()),
        n.items() == o.items(),
{
    let h = o.height();
    let sh = o.shape_except(h, p);
    let c = o.ns@[p];
    let sb = o.ns@[p + 1];
    let c2 = n.ns@[p];
    let s2 = n.ns@[p + 1];
    assert(c.frame((h - 1) as nat));
    assert(sb.frame((h - 1) as nat));
    let kp = (o.ks@[p], o.vs@[p]);
    let e = (sb.ks@[0], sb.vs@[0]);
    let g = if sb.ns@.len() > 0 {
        sb.ns@[0]
    } else {
        c
    };
    lemma_items_push(c, c2, kp, g);
    lemma_items_drop_first(sb, s2);
    let cs = o.child_items();
    let kv = o.kvs();
    lemma_inter_pair(cs, kv, p);
    lemma_inter_update_pair(cs, kv, p, c2.items(), e, s2.items());
    assert(n.child_items() =~= cs.update(p, c2.items()).update(p + 1, s2.items()));
    assert(n.kvs() =~= kv.update(p, e));
    assert(c2.items() + seq![e] + s2.items() =~= cs[p] + seq![kp] + cs[p + 1]);
    assert(c2.frame((h - 1) as nat)) by {
        if h - 1 > 0 {
            assert forall|i: int| 0 <= i < c2.ns@.len() implies (#[trigger] c2.ns@[i]).frame(
                (h - 2) as nat,
            ) by {
                if i < c.ns@.len() {
                    assert(c2.ns@[i] == c.ns@[i]);
                } else {
                    assert(c2.ns@[i] == sb.ns@[0]);
                }
            }
        }
    }
    assert(s2.frame((h - 1) as nat)) by {
        if h - 1 > 0 {
            assert forall|i: int| 0 <= i < s2.ns@.len() implies (#[trigger] s2.ns@[i]).frame(
                (h - 2) as nat,
            ) by {
                assert(s2.ns@[i] == sb.ns@[i + 1]);
            }
        }
    }
    if sh {
        assert(c.shape((h - 1) as nat));
        assert(sb.shape((h - 1) as nat));
        assert(c2.shape((h - 1) as nat)) by {
            if h - 1 > 0 {
                assert forall|i: int| 0 <= i < c2.ns@.len() implies (#[trigger] c2.ns@[i]).shape(
                    (h - 2) as nat,
                ) && c2.ns@[i].ks@.len() > 0 by {
                    if i < c.ns@.len() {
                        assert(c2.ns@[i] == c.ns@[i]);
                    } else {
                        assert(c2.ns@[i] == sb.ns@[0]);
                    }
                }
            }
        }
        assert(s2.shape((h - 1) as nat)) by {
            if h - 1 > 0 {
                assert forall|i: int| 0 <= i < s2.ns@.len() implies (#[trigger] s2.ns@[i]).shape(
                    (h - 2) as nat,
                ) && s2.ns@[i].ks@.len() > 0 by {
                    assert(s2.ns@[i] == sb.ns@[i + 1]);
                }
            }
        }
    }
    assert forall|i: int| 0 <= i < n.ns@.len() implies (#[trigger] n.ns@[i]).frame(
        (h - 1) as nat,
    ) by {
        if i != p && i != p + 1 {
            assert(n.ns@[i] == o.ns@[i]);
        }
    }
    if sh && m >= 2 {
        assert forall|i: int| 0 <= i < n.ns@.len() implies (#[trigger] n.ns@[i]).shape(
            (h - 1) as nat,
        ) && n.ns@[i].ks@.len() > 0 by {
            if i != p && i != p + 1 {
                assert(n.ns@[i] == o.ns@[i]);
            }
        }
    }
}

/// Merging children `p` and `p + 1` around separator `p`, one of which may
/// have been empty, keeps the entries and restores the shape.
proof fn lemma_merge<V>(o: Node<V>, n: Node<V>, p: int, q: int)
    requires
        q == p || q == p + 1,
        o.frame(o.height()),
        0 <= p,
        p + 1 < o.ns@.len(),
        n.ks@ == o.ks@.remove(p),
        n.vs@ == o.vs@.remove(p),
        n.ns@ == o.ns@.update(p, n.ns@[p]).remove(p + 1),
        n.ns@[p].ks@ == o.ns@[p].ks@.push(o.ks@[p]) + o.ns@[p + 1].ks@,
        n.ns@[p].vs@ == o.ns@[p].vs@.push(o.vs@[p]) + o.ns@[p + 1].vs@,
        n.ns@[p].ns@ == o.ns@[p].ns@ + o.ns@[p + 1].ns@,
    ensures
        o.shape_except(o.height(), q) ==> n.shape(o.height()),
        n.frame(o.height()),
        n.items() == o.items(),
{
    let h = o.height();
    let c = o.ns@[p];
    let sb = o.ns@[p + 1];
    let mg = n.ns@[p];
    assert(c.frame((h - 1) as nat));
    assert(sb.frame((h - 1) as nat));
    let kp = (o.ks@[p], o.vs@[p]);
    lemma_items_merge(c, sb, kp, mg);
    let cs = o.child_items();
    let kv = o.kvs();
    lemma_inter_pair(cs, kv, p);
    lemma_inter_merge(cs, kv, p, mg.items());
    assert(n.child_items() =~= cs.update(p, mg.items()).remove(p + 1));
    assert(n.kvs() =~= kv.remove(p));
    assert(mg.frame((h - 1) as nat)) by {
        if h - 1 > 0 {
            assert forall|i: int| 0 <= i < mg.ns@.len() implies (#[trigger] mg.ns@[i]).frame(
                (h - 2) as nat,
            ) by {
                if i < c.ns@.len() {
                    assert(mg.ns@[i] == c.ns@[i]);
                } else {
                    assert(mg.ns@[i] == sb.ns@[i - c.ns@.len()]);
                }
            }
        }
    }
    assert forall|i: int| 0 <= i < n.ns@.len() implies (#[trigger] n.ns@[i]).frame(
        (h - 1) as nat,
    ) by {
        if i < p {
            assert(n.ns@[i] == o.ns@[i]);
        } else if i > p {
            assert(n.ns@[i] == o.ns@[i + 1]);
        }
    }
    if o.shape_except(h, q) {
        assert(c.shape((h - 1) as nat));
        assert(sb.shape((h - 1) as nat));
        assert(mg.shape((h - 1) as nat)) by {
            if h - 1 > 0 {
                assert forall|i: int| 0 <= i < mg.ns@.len() implies (#[trigger] mg.ns@[i]).shape(
                    (h - 2) as nat,
                ) && mg.ns@[i].ks@.len() > 0 by {
                    if i < c.ns@.len() {
                        assert(mg.ns@[i] == c.ns@[i]);
                    } else {
                        assert(mg.ns@[i] == sb.ns@[i - c.ns@.len()]);
                    }
                }
            }
        }
        assert forall|i: int| 0 <= i < n.ns@.len() implies (#[trigger] n.ns@[i]).shape(
            (h - 1) as nat,
        ) && n.ns@[i].ks@.len() > 0 by {
            if i < p {
                assert(n.ns@[i] == o.ns@[i]);
            } else if i > p {
                assert(n.ns@[i] == o.ns@[i + 1]);
            }
        }
    }
}

/// In a tree of odd order `m`, a child one key short that borrows a key from
/// a sibling that can lend one leaves every child within its bounds.
proof fn lemma_counts_borrowed<V>(o: Node<V>, n: Node<V>, p: int, q: int, m: usize)
    requires
        m >= 3,
        m % 2 == 1,
        o.frame(o.height()),
        n.frame(o.height()),
        0 <= p < o.ns@.len(),
        0 <= q < o.ns@.len(),
        p != q,
        o.ns@[q].lendable(m),
        o.counts_short(m, p),
        n.ns@.len() == o.ns@.len(),
        n.ns@[p].ks@.len() == o.ns@[p].ks@.len() + 1,
        n.ns@[q].ks@.len() + 1 == o.ns@[q].ks@.len(),
        forall|j: int| 0 <= j < n.ns@.len() && j != p && j != q ==> #[trigger] n.ns@[j] == o.ns@[j],
    ensures
        n.child_counts(m),
{
    let h = o.height();
    assert forall|i: int| 0 <= i < n.ns@.len() implies (#[trigger] n.ns@[i]).min_count(m)
        <= n.ns@[i].ks@.len() < m by {
        assert(o.ns@[i].frame((h - 1) as nat));
        assert(n.ns@[i].frame((h - 1) as nat));
        if i != p && i != q {
            assert(n.ns@[i] == o.ns@[i]);
        }
    }
}

/// In a tree of odd order `m`, a child one key short that merges with a
/// sibling that cannot lend a key leaves every child within its bounds.
proof fn lemma_counts_merged<V>(o: Node<V>, n: Node<V>, p: int, r: int, m: usize)
    requires
        m >= 3,
        m % 2 == 1,
        r == p || r == p + 1,
        o.frame(o.height()),
        n.frame(o.height()),
        0 <= p,
        p + 1 < o.ns@.len(),
        !o.ns@[if r == p { p + 1 } else { p }].lendable(m),
        o.counts_short(m, r),
        n.ns@.len() + 1 == o.ns@.len(),
        n.ns@[p].ks@.len() == o.ns@[p].ks@.len() + 1 + o.ns@[p + 1].ks@.len(),
        forall|j: int| 0 <= j < p ==> #[trigger] n.ns@[j] == o.ns@[j],
        forall|j: int| p < j < n.ns@.len() ==> #[trigger] n.ns@[j] == o.ns@[j + 1],
    ensures
        n.child_counts(m),
{
    let h = o.height();
    assert(o.ns@[p].frame((h - 1) as nat));
    assert(o.ns@[p + 1].frame((h - 1) as nat));
    assert forall|i: int| 0 <= i < n.ns@.len() implies (#[trigger] n.ns@[i]).min_count(m)
        <= n.ns@[i].ks@.len() < m by {
        assert(n.ns@[i].frame((h - 1) as nat));
        if i < p {
            assert(n.ns@[i] == o.ns@[i]);
            assert(o.ns@[i].frame((h - 1) as nat));
        } else if i > p {
            assert(n.ns@[i] == o.ns@[i + 1]);
            assert(o.ns@[i + 1].frame((h - 1) as nat));
        }
    }
}

/// An underfull child that gains one key (and, if inner, child `g`) is back
/// within the bounds of order `m`.
proof fn lemma_occ_grown<V>(c: Node<V>, c2: Node<V>, g: Node<V>, m: usize, hc: nat)
    requires
        m >= 3,
        c.frame(hc),
        c.occupied(m, hc),
        c.underfull(m),
        c.ks@.len() + 1 >= c.min_count(m),
        c2.ks@.len() == c.ks@.len() + 1,
        hc == 0 ==> c2.ns@.len() == 0,
        hc > 0 ==> g.occupied(m, (hc - 1) as nat) && g.ks@.len() >= g.min_count(m),
        hc > 0 ==> c2.ns@ == c.ns@.push(g) || c2.ns@ == c.ns@.insert(0, g),
    ensures
        c2.occupied(m, hc),
        c2.ks@.len() >= c2.min_count(m),
{
    if hc > 0 {
        assert forall|i: int| 0 <= i < c2.ns@.len() implies (#[trigger] c2.ns@[i]).occupied(
            m,
            (hc - 1) as nat,
        ) && c2.ns@[i].ks@.len() >= c2.ns@[i].min_count(m) by {
            if c2.ns@ == c.ns@.push(g) {
                if i < c.ns@.len() {
                    assert(c2.ns@[i] == c.ns@[i]);
                }
            } else {
                if i > 0 {
                    assert(c2.ns@[i] == c.ns@[i - 1]);
                }
            }
        }
    }
}

/// A sibling that lends one key (and, if inner, one child) stays within the
/// bounds of order `m`.
proof fn lemma_occ_shrunk<V>(sb: Node<V>, s2: Node<V>, m: usize, hc: nat)
    requires
        m >= 3,
        sb.frame(hc),
        sb.occupied(m, hc),
        sb.lendable(m),
        s2.ks@.len() + 1 == sb.ks@.len(),
        hc == 0 ==> s2.ns@.len() == 0,
        hc > 0 ==> s2.ns@ == sb.ns@.drop_first() || s2.ns@ == sb.ns@.drop_last(),
    ensures
        s2.occupied(m, hc),
        s2.ks@.len() >= s2.min_count(m),
{
    if hc > 0 {
        assert forall|i: int| 0 <= i < s2.ns@.len() implies (#[trigger] s2.ns@[i]).occupied(
            m,
            (hc - 1) as nat,
        ) && s2.ns@[i].ks@.len() >= s2.ns@[i].min_count(m) by {
            if s2.ns@ == sb.ns@.drop_first() {
                assert(s2.ns@[i] == sb.ns@[i + 1]);
            } else {
                assert(s2.ns@[i] == sb.ns@[i]);
            }
        }
    }
}

/// An underfull child merged with a sibling that cannot lend, around one
/// separator, is within the bounds of order `m`.
proof fn lemma_occ_merged<V>(a: Node<V>, b: Node<V>, mg: Node<V>, m: usize, hc: nat)
    requires
        m >= 3,
        a.frame(hc),
        b.frame(hc),
        a.occupied(m, hc),
        b.occupied(m, hc),
        (a.underfull(m) && a.ks@.len() + 1 >= a.min_count(m) && !b.lendable(m) && b.ks@.len()
            >= b.min_count(m)) || (b.underfull(m) && b.ks@.len() + 1 >= b.min_count(m)
            && !a.lendable(m) && a.ks@.len() >= a.min_count(m)),
        mg.ks@.len() == a.ks@.len() + 1 + b.ks@.len(),
        mg.ns@ == a.ns@ + b.ns@,
    ensures
        mg.occupied(m, hc),
        mg.ks@.len() >= mg.min_count(m),
{
    if hc > 0 {
        assert forall|i: int| 0 <= i < mg.ns@.len() implies (#[trigger] mg.ns@[i]).occupied(
            m,
            (hc - 1) as nat,
        ) && mg.ns@[i].ks@.len() >= mg.ns@[i].min_count(m) by {
            if i < a.ns@.len() {
                assert(mg.ns@[i] == a.ns@[i]);
            } else {
                assert(mg.ns@[i] == b.ns@[i - a.ns@.len()]);
            }
        }
    } else {
        assert(a.ns@.len() == 0 && b.ns@.len() == 0);
    }
}

/// Children `p` and `p + 1` replaced by nodes within the bounds of order `m`,
/// the others as they were.
proof fn lemma_below_pair<V>(o: Node<V>, n: Node<V>, p: int, q: int, m: usize, h: nat)
    requires
        q == p || q == p + 1,
        0 <= p,
        p + 1 < o.ns@.len(),
        o.below_except(m, h, q),
        n.ns@ == o.ns@.update(p, n.ns@[p]).update(p + 1, n.ns@[p + 1]),
        n.ns@[p].occupied(m, (h - 1) as nat),
        n.ns@[p].ks@.len() >= n.ns@[p].min_count(m),
        n.ns@[p + 1].occupied(m, (h - 1) as nat),
        n.ns@[p + 1].ks@.len() >= n.ns@[p + 1].min_count(m),
    ensures
        n.below_ok(m, h),
{
    assert forall|i: int| 0 <= i < n.ns@.len() implies (#[trigger] n.ns@[i]).occupied(
        m,
        (h - 1) as nat,
    ) && n.ns@[i].ks@.len() >= n.ns@[i].min_count(m) by {
        if i != p && i != p + 1 {
            assert(n.ns@[i] == o.ns@[i]);
        }
    }
}

/// Children `p` and `p + 1` replaced by their merger within the bounds of
/// order `m`, the others as they were.
proof fn lemma_below_merged<V>(o: Node<V>, n: Node<V>, p: int, q: int, m: usize, h: nat)
    requires
        q == p || q == p + 1,
        0 <= p,
        p + 1 < o.ns@.len(),
        o.below_except(m, h, q),
        n.ns@ == o.ns@.update(p, n.ns@[p]).remove(p + 1),
        n.ns@[p].occupied(m, (h - 1) as nat),
        n.ns@[p].ks@.len() >= n.ns@[p].min_count(m),
    ensures
        n.below_ok(m, h),
{
    assert forall|i: int| 0 <= i < n.ns@.len() implies (#[trigger] n.ns@[i]).occupied(
        m,
        (h - 1) as nat,
    ) && n.ns@[i].ks@.len() >= n.ns@[i].min_count(m) by {
        if i < p {
            assert(n.ns@[i] == o.ns@[i]);
        } else if i > p {
            assert(n.ns@[i] == o.ns@[i + 1]);
        }
    }
}

impl<V> Node<V> {
    /// Refills child `pos`, which may have lost all its keys, from its right
    /// sibling: through this node's key `pos` it borrows the sibling's first
    /// entry (and first child) if the sibling can lend one, else the child,
    /// that key and the sibling merge into one child.
    #[verifier::spinoff_prover]
    #[verifier::rlimit(40)]
    pub fn borrow_or_merge_from_right(&mut self, pos: usize, m: usize)
        requires
            old(self).frame(old(self).height()),
            pos + 1 < old(self).ns@.len(),
        ensures
            old(self).shape_except(old(self).height(), pos as int) && m >= 2 ==> final(self).shape(
                old(self).height(),
            ),
            final(self).frame(old(self).height()),
            final(self).items() == old(self).items(),
            m >= 3 && m % 2 == 1 && old(self).counts_short(m, pos as int) ==> final(self).child_counts(m),
            old(self).refill_ready(m, old(self).height(), pos as int) ==> final(self).below_ok(
                m,
                old(self).height(),
            ),
            final(self).refilled_from_right(*old(self), pos as int, m),
    {
        let ghost o = *self;
        proof {
            assert(self.ns@.len() == self.ns.len());
            let h = o.height();
            assert(o.ns@[pos + 1].frame((h - 1) as nat));
            assert(o.ns@[pos as int].frame((h - 1) as nat));
        }
        let next = pos + 1;
        if self.ns[next].can_borrow(m) {
            // 1. borrow
            let pivot = (self.ks.remove(pos), self.vs.remove(pos));
            self.ns[pos].ks.push(pivot.0);
            self.ns[pos].vs.push(pivot.1);
            let borrowed = self.ns[next].borrow_left_most();
            self.ks.insert(pos, borrowed.0);
            self.vs.insert(pos, borrowed.1);
            if let Some(n) = borrowed.2 {
                self.ns[pos].ns.push(n);
            }
            proof {
                assert(self.ks@ =~= o.ks@.update(pos as int, o.ns@[pos + 1].ks@[0]));
                assert(self.vs@ =~= o.vs@.update(pos as int, o.ns@[pos + 1].vs@[0]));
                assert(self.ns@ =~= o.ns@.update(pos as int, self.ns@[pos as int]).update(
                    pos + 1,
                    self.ns@[pos + 1],
                ));
                lemma_borrow_right(o, *self, pos as int, m);
                let h = o.height();
                if m >= 3 && m % 2 == 1 && o.counts_short(m, pos as int) {
                    lemma_counts_borrowed(o, *self, pos as int, pos + 1, m);
                }
                if o.refill_ready(m, h, pos as int) {
                    let c = o.ns@[pos as int];
                    let sb = o.ns@[pos + 1];
                    let g = if sb.ns@.len() > 0 { sb.ns@[0] } else { c };
                    if h - 1 > 0 {
                        assert(sb.ns@[0].occupied(m, (h - 2) as nat));
                    }
                    lemma_occ_grown(c, self.ns@[pos as int], g, m, (h - 1) as nat);
                    lemma_occ_shrunk(sb, self.ns@[pos + 1], m, (h - 1) as nat);
                    lemma_below_pair(o, *self, pos as int, pos as int, m, h);
                }
            }
        } else {
            // 2. merge
            let pivot = (self.ks.remove(pos), self.vs.remove(pos));
            self.ns[pos].ks.push(pivot.0);
            self.ns[pos].vs.push(pivot.1);
            let mut removed = self.ns.remove(next);
            self.ns[pos].ks.append(&mut removed.ks);
            self.ns[pos].vs.append(&mut removed.vs);
            if !self.ns[pos].is_leaf() {
                self.ns[pos].ns.append(&mut removed.ns);
            }
            proof {
                assert(self.ns@ =~= o.ns@.update(pos as int, self.ns@[pos as int]).remove(pos + 1));
                if o.ns@[pos as int].ns@.len() == 0 {
                    assert(self.ns@[pos as int].ns@ =~= o.ns@[pos as int].ns@ + o.ns@[pos
                        + 1].ns@);
                }
                lemma_merge(o, *self, pos as int, pos as int);
                let h = o.height();
                if m >= 3 && m % 2 == 1 && o.counts_short(m, pos as int) {
                    lemma_counts_merged(o, *self, pos as int, pos as int, m);
                }
                if o.refill_ready(m, h, pos as int) {
                    lemma_occ_merged(
                        o.ns@[pos as int],
                        o.ns@[pos + 1],
                        self.ns@[pos as int],
                        m,
                        (h - 1) as nat,
                    );
                    lemma_below_merged(o, *self, pos as int, pos as int, m, h);
                }
            }
        }
    }
}


/// Borrowing through separator `p` from the left sibling `p` into child
/// `p + 1` keeps the entries and restores the shape.
#[verifier::spinoff_prover]
#[verifier::rlimit(40)]
proof fn lemma_borrow_left<V>(o: Node<V>, n: Node<V>, p: int, m: usize)
    requires
        o.frame(o.height()),
        0 <= p,
        p + 1 < o.ns@.len(),
        o.ns@[p].lendable(m),
        n.ks@ == o.ks@.update(p, o.ns@[p].ks@.last()),
        n.vs@ == o.vs@.update(p, o.ns@[p].vs@.last()),
        n.ns@ == o.ns@.update(p, n.ns@[p]).update(p + 1, n.ns@[p + 1]),
        n.ns@[p + 1].ks@ == o.ns@[p + 1].ks@.insert(0, o.ks@[p]),
        n.ns@[p + 1].vs@ == o.ns@[p + 1].vs@.insert(0, o.vs@[p]),
        o.ns@[p].ns@.len() == 0 ==> n.ns@[p + 1].ns@ == o.ns@[p + 1].ns@,
        o.ns@[p].ns@.len() > 0 ==> n.ns@[p + 1].ns@ == o.ns@[p + 1].ns@.insert(
            0,
            o.ns@[p].ns@.last(),
        ),
        n.ns@[p].ks@ == o.ns@[p].ks@.drop_last(),
        n.ns@[p].vs@ == o.ns@[p].vs@.drop_last(),
        o.ns@[p].ns@.len() == 0 ==> n.ns@[p].ns@.len() == 0,
        o.ns@[p].ns@.len() > 0 ==> n.ns@[p].ns@ == o.ns@[p].ns@.drop_last(),
    ensures
        o.shape_except(o.height(), p + 1) && m >= 2 ==> n.shape(o.height()),
        n.frame(o.height()),
        n.items() == o.items(),
{
    let h = o.height();
    let sh = o.shape_except(h, p + 1);
    let sb = o.ns@[p];
    let c = o.ns@[p + 1];
    let s2 = n.ns@[p];
    let c2 = n.ns@[p + 1];
    assert(c.frame((h - 1) as nat));
    assert(sb.frame((h - 1) as nat));
    let kp = (o.ks@[p], o.vs@[p]);
    let e = (sb.ks@.last(), sb.vs@.last());
    let g = if sb.ns@.len() > 0 {
        sb.ns@.last()
    } else {
        c
    };
    lemma_items_prepend(c, c2, kp, g);
    lemma_items_drop_last(sb, s2);
    let cs = o.child_items();
    let kv = o.kvs();
    lemma_inter_pair(cs, kv, p);
    lemma_inter_update_pair(cs, kv, p, s2.items(), e, c2.items());
    assert(n.child_items() =~= cs.update(p, s2.items()).update(p + 1, c2.items()));
    assert(n.kvs() =~= kv.update(p, e));
    assert(s2.items() + seq![e] + c2.items() =~= cs[p] + seq![kp] + cs[p + 1]);
    assert(c2.frame((h - 1) as nat)) by {
        if h - 1 > 0 {
            assert forall|i: int| 0 <= i < c2.ns@.len() implies (#[trigger] c2.ns@[i]).frame(
                (h - 2) as nat,
            ) by {
                if i > 0 {
                    assert(c2.ns@[i] == c.ns@[i - 1]);
                } else {
                    assert(c2.ns@[i] == sb.ns@.last());
                    assert(sb.ns@[sb.ns@.len() - 1].frame((h - 2) as nat));
                }
            }
        }
    }
    assert(s2.frame((h - 1) as nat)) by {
        if h - 1 > 0 {
            assert forall|i: int| 0 <= i < s2.ns@.len() implies (#[trigger] s2.ns@[i]).frame(
                (h - 2) as nat,
            ) by {
                assert(s2.ns@[i] == sb.ns@[i]);
            }
        }
    }
    if sh {
        assert(c.shape((h - 1) as nat));
        assert(sb.shape((h - 1) as nat));
        assert(c2.shape((h - 1) as nat)) by {
            if h - 1 > 0 {
                assert forall|i: int| 0 <= i < c2.ns@.len() implies (#[trigger] c2.ns@[i]).shape(
                    (h - 2) as nat,
                ) && c2.ns@[i].ks@.len() > 0 by {
                    if i > 0 {
                        assert(c2.ns@[i] == c.ns@[i - 1]);
                    } else {
                        assert(c2.ns@[i] == sb.ns@.last());
                        assert(sb.ns@[sb.ns@.len() - 1].shape((h - 2) as nat));
                    }
                }
            }
        }
        assert(s2.shape((h - 1) as nat)) by {
            if h - 1 > 0 {
                assert forall|i: int| 0 <= i < s2.ns@.len() implies (#[trigger] s2.ns@[i]).shape(
                    (h - 2) as nat,
                ) && s2.ns@[i].ks@.len() > 0 by {
                    assert(s2.ns@[i] == sb.ns@[i]);
                }
            }
        }
    }
    assert forall|i: int| 0 <= i < n.ns@.len() implies (#[trigger] n.ns@[i]).frame(
        (h - 1) as nat,
    ) by {
        if i != p && i != p + 1 {
            assert(n.ns@[i] == o.ns@[i]);
        }
    }
    if sh && m >= 2 {
        assert forall|i: int| 0 <= i < n.ns@.len() implies (#[trigger] n.ns@[i]).shape(
            (h - 1) as nat,
        ) && n.ns@[i].ks@.len() > 0 by {
            if i != p && i != p + 1 {
                assert(n.ns@[i] == o.ns@[i]);
            }
        }
    }
}

impl<V> Node<V> {
    /// Refills child `pos`, which may have lost all its keys, from its left
    /// sibling: through this node's key `pos - 1` it borrows the sibling's
    /// last entry (and last child) if the sibling can lend one, else the
    /// sibling, that key and the child merge into one child.
    #[verifier::spinoff_prover]
    #[verifier::rlimit(40)]
    pub fn borrow_or_merge_from_left(&mut self, pos: usize, m: usize)
        requires
            old(self).frame(old(self).height()),
            1 <= pos < old(self).ns@.len(),
        ensures
            old(self).shape_except(old(self).height(), pos as int) && m >= 2 ==> final(self).shape(
                old(self).height(),
            ),
            final(self).frame(old(self).height()),
            final(self).items() == old(self).items(),
            m >= 3 && m % 2 == 1 && old(self).counts_short(m, pos as int) ==> final(self).child_counts(m),
            old(self).refill_ready(m, old(self).height(), pos as int) ==> final(self).below_ok(
                m,
                old(self).height(),
            ),
            final(self).refilled_from_left(*old(self), pos as int, m),
    {
        let ghost o = *self;
        proof {
            let h = o.height();
            assert(o.ns@[pos - 1].frame((h - 1) as nat));
            assert(o.ns@[pos as int].frame((h - 1) as nat));
        }
        let prev = pos - 1;
        if self.ns[prev].can_borrow(m) {
            // 1. borrow
            let pivot = (self.ks.remove(prev), self.vs.remove(prev));
            self.ns[pos].ks.insert(0, pivot.0);
            self.ns[pos].vs.insert(0, pivot.1);
            let borrowed = self.ns[prev].borrow_right_most();
            self.ks.insert(prev, borrowed.0);
            self.vs.insert(prev, borrowed.1);
            if let Some(n) = borrowed.2 {
                self.ns[pos].ns.insert(0, n);
            }
            proof {
                assert(self.ks@ =~= o.ks@.update(prev as int, o.ns@[prev as int].ks@.last()));
                assert(self.vs@ =~= o.vs@.update(prev as int, o.ns@[prev as int].vs@.last()));
                assert(self.ns@ =~= o.ns@.update(prev as int, self.ns@[prev as int]).update(
                    pos as int,
                    self.ns@[pos as int],
                ));
                lemma_borrow_left(o, *self, prev as int, m);
                let h = o.height();
                if m >= 3 && m % 2 == 1 && o.counts_short(m, pos as int) {
                    lemma_counts_borrowed(o, *self, pos as int, prev as int, m);
                }
                if o.refill_ready(m, h, pos as int) {
                    let c = o.ns@[pos as int];
                    let sb = o.ns@[prev as int];
                    let g = if sb.ns@.len() > 0 { sb.ns@.last() } else { c };
                    if h - 1 > 0 {
                        assert(sb.ns@[sb.ns@.len() - 1].occupied(m, (h - 2) as nat));
                    }
                    lemma_occ_grown(c, self.ns@[pos as int], g, m, (h - 1) as nat);
                    lemma_occ_shrunk(sb, self.ns@[prev as int], m, (h - 1) as nat);
                    lemma_below_pair(o, *self, prev as int, pos as int, m, h);
                }
            }
        } else {
            // 2. merge
            let pivot = (self.ks.remove(prev), self.vs.remove(prev));
            self.ns[prev].ks.push(pivot.0);
            self.ns[prev].vs.push(pivot.1);
            let mut removed = self.ns.remove(pos);
            self.ns[prev].ks.append(&mut removed.ks);
            self.ns[prev].vs.append(&mut removed.vs);
            if !self.ns[prev].is_leaf() {
                self.ns[prev].ns.append(&mut removed.ns);
            }
            proof {
                assert(self.ns@ =~= o.ns@.update(prev as int, self.ns@[prev as int]).remove(
                    pos as int,
                ));
                if o.ns@[prev as int].ns@.len() == 0 {
                    assert(self.ns@[prev as int].ns@ =~= o.ns@[prev as int].ns@ + o.ns@[
                        pos as int
                    ].ns@);
                }
                lemma_merge(o, *self, prev as int, pos as int);
                let h = o.height();
                if m >= 3 && m % 2 == 1 && o.counts_short(m, pos as int) {
                    lemma_counts_merged(o, *self, prev as int, pos as int, m);
                }
                if o.refill_ready(m, h, pos as int) {
                    lemma_occ_merged(
                        o.ns@[prev as int],
                        o.ns@[pos as int],
                        self.ns@[prev as int],
                        m,
                        (h - 1) as nat,
                    );
                    lemma_below_merged(o, *self, prev as int, pos as int, m, h);
                }
            }
        }
    }
}


/// Replacing child `p` by a node of the same frame keeps the frame, and the
/// shape where the new child has it (but, possibly, for its keys), and puts
/// the new child's entries in the old one's place.
proof fn lemma_replace_child<V>(o: Node<V>, n: Node<V>, p: int)
    requires
        o.frame(o.height()),
        o.ns@.len() > 0,
        0 <= p < o.ns@.len(),
        n.ks@ == o.ks@,
        n.vs@ == o.vs@,
        n.ns@ == o.ns@.update(p, n.ns@[p]),
        n.ns@[p].frame((o.height() - 1) as nat),
    ensures
        n.frame(o.height()),
        o.shape(o.height()) && n.ns@[p].shape((o.height() - 1) as nat) ==> n.shape_except(
            o.height(),
            p,
        ),
        o.shape(o.height()) && n.ns@[p].shape((o.height() - 1) as nat) && n.ns@[p].ks@.len() > 0
            ==> n.shape(o.height()),
        n.height() == o.height(),
        n.items() == flat(o.child_items(), o.kvs(), p) + n.ns@[p].items() + after(
            o.child_items(),
            o.kvs(),
            p,
        ),
{
    let h = o.height();
    assert forall|i: int| 0 <= i < n.ns@.len() implies (#[trigger] n.ns@[i]).frame(
        (h - 1) as nat,
    ) by {
        if i != p {
            assert(n.ns@[i] == o.ns@[i]);
        }
    }
    if o.shape(h) {
        assert forall|i: int| 0 <= i < n.ns@.len() && i != p implies (#[trigger] n.ns@[i]).shape(
            (h - 1) as nat,
        ) && n.ns@[i].ks@.len() > 0 by {
            assert(n.ns@[i] == o.ns@[i]);
        }
    }
    n.lemma_frame_height(h);
    assert(n.child_items() =~= o.child_items().update(p, n.ns@[p].items()));
    assert(n.kvs() =~= o.kvs());
    lemma_inter_update(o.child_items(), o.kvs(), p, n.ns@[p].items());
}

/// Replacing child `p` leaves the other children's key counts as they were.
proof fn lemma_below_replace<V>(o: Node<V>, n: Node<V>, p: int, m: usize, h: nat)
    requires
        0 <= p < o.ns@.len(),
        o.below_except(m, h, p),
        n.ns@ == o.ns@.update(p, n.ns@[p]),
    ensures
        n.below_except(m, h, p),
        n.ns@[p].occupied(m, (h - 1) as nat) && n.ns@[p].ks@.len() >= n.ns@[p].min_count(m)
            ==> n.below_ok(m, h),
{
    assert forall|i: int| 0 <= i < n.ns@.len() && i != p implies (#[trigger] n.ns@[i]).occupied(
        m,
        (h - 1) as nat,
    ) && n.ns@[i].ks@.len() >= n.ns@[i].min_count(m) by {
        assert(n.ns@[i] == o.ns@[i]);
    }
}

impl<V> Node<V> {
    /// The same keys, values and children as `o`.
    pub open spec fn same_fields(self, o: Node<V>) -> bool {
        &&& self.ks@ == o.ks@
        &&& self.vs@ == o.vs@
        &&& self.ns@ == o.ns@
    }

    /// This node is `o`, of height `h`, after its largest entry `e` was
    /// taken out, with `flag` the underflow it reports: a leaf drops its last
    /// entry and reports being empty; an inner node takes it from its last
    /// child (`rightmost_step`) and reports fewer than `m / 2` keys.
    pub open spec fn rightmost_removed(self, o: Node<V>, m: usize, h: nat, e: (i64, V), flag: bool) -> bool
        decreases h,
    {
        if h == 0 {
            &&& self.ks@ == o.ks@.drop_last()
            &&& self.vs@ == o.vs@.drop_last()
            &&& self.ns@ == o.ns@
            &&& e == (o.ks@.last(), o.vs@.last())
            &&& flag == (self.ks@.len() == 0)
        } else {
            &&& exists|n: Node<V>, cf: bool|
                #[trigger] self.rightmost_step(o, n, m, h, cf) && n.ns@[o.ns@.len() - 1].rightmost_removed(
                    o.ns@[o.ns@.len() - 1],
                    m,
                    (h - 1) as nat,
                    e,
                    cf,
                )
            &&& flag == (self.ks@.len() < m / 2)
        }
    }

    /// Inner node `o` became `n` when its last child changed and reported
    /// underflow `cf`, and then this node, where the child reported one, by
    /// refilling it from the left.
    pub open spec fn rightmost_step(self, o: Node<V>, n: Node<V>, m: usize, h: nat, cf: bool) -> bool {
        let p = o.ns@.len() - 1;
        &&& h > 0
        &&& n.ks@ == o.ks@
        &&& n.vs@ == o.vs@
        &&& 0 <= p < n.ns@.len()
        &&& n.ns@ == o.ns@.update(p, n.ns@[p])
        &&& cf ==> self.refilled_from_left(n, p, m)
        &&& !cf ==> self.same_fields(n)
    }

    /// This node is `o`, of height `h`, after the entry with key `x` was
    /// taken out of its subtree, with `flag` the underflow it reports. A leaf
    /// drops the entry, if it has it, and reports being empty. An inner node
    /// that holds key `x` puts the largest entry of the child before it in
    /// its place (`found_step`) and reports fewer than `m / 2` keys; else it
    /// hands the removal to the child at the key rank of `x` (`child_step`).
    pub open spec fn removed(self, o: Node<V>, x: i64, m: usize, h: nat, flag: bool) -> bool
        decreases h,
    {
        let p = key_rank(o.ks@, x);
        let found = p < o.ks@.len() && o.ks@[p] == x;
        if h == 0 {
            if found {
                &&& self.ks@ == o.ks@.remove(p)
                &&& self.vs@ == o.vs@.remove(p)
                &&& self.ns@ == o.ns@
                &&& flag == (self.ks@.len() == 0)
            } else {
                &&& self.same_fields(o)
                &&& !flag
            }
        } else if found {
            &&& exists|n: Node<V>, e: (i64, V), cf: bool|
                #[trigger] self.found_step(o, n, x, m, h, e, cf) && n.ns@[p].rightmost_removed(
                    o.ns@[p],
                    m,
                    (h - 1) as nat,
                    e,
                    cf,
                )
            &&& flag == (self.ks@.len() < m / 2)
        } else {
            exists|n: Node<V>, cf: bool|
                #[trigger] self.child_step(o, n, x, m, h, cf, flag) && n.ns@[p].removed(
                    o.ns@[p],
                    x,
                    m,
                    (h - 1) as nat,
                    cf,
                )
        }
    }

    /// Inner node `o`, which holds key `x` at position `p`, became `n` when
    /// child `p` changed, gave up entry `e`, now in place of `x`, and
    /// reported underflow `cf`; then this node, where the child reported one,
    /// by refilling it from the right.
    pub open spec fn found_step(self, o: Node<V>, n: Node<V>, x: i64, m: usize, h: nat, e: (i64, V), cf: bool) -> bool {
        let p = key_rank(o.ks@, x);
        &&& h > 0
        &&& n.ks@ == o.ks@.update(p, e.0)
        &&& n.vs@ == o.vs@.update(p, e.1)
        &&& 0 <= p < n.ns@.len()
        &&& n.ns@ == o.ns@.update(p, n.ns@[p])
        &&& cf ==> self.refilled_from_right(n, p, m)
        &&& !cf ==> self.same_fields(n)
    }

    /// Inner node `o` became `n` when the child at the key rank `p` of `x`
    /// changed and reported underflow `cf`; then this node, which reports
    /// `flag`: where the child reported one, refilled from the left if it is
    /// the last child, else from the right, and the report is whether fewer
    /// than `m / 2` keys are left; else `n` itself, and no report.
    pub open spec fn child_step(self, o: Node<V>, n: Node<V>, x: i64, m: usize, h: nat, cf: bool, flag: bool) -> bool {
        let p = key_rank(o.ks@, x);
        &&& h > 0
        &&& n.ks@ == o.ks@
        &&& n.vs@ == o.vs@
        &&& 0 <= p < n.ns@.len()
        &&& n.ns@ == o.ns@.update(p, n.ns@[p])
        &&& cf ==> (if p == o.ks@.len() {
            self.refilled_from_left(n, p, m)
        } else {
            self.refilled_from_right(n, p, m)
        }) && flag == (self.ks@.len() < m / 2)
        &&& !cf ==> self.same_fields(n) && !flag
    }
}

impl<V> Node<V> {
    /// Taking the largest entry out of this node, of height `h`, in a tree of
    /// order `m` runs without fault: the leaf it ends in holds a key, and no
    /// node on the way that holds no key of its own has its last child report
    /// an underflow, which it could not refill.
    pub open spec fn rightmost_removable(self, m: usize, h: nat) -> bool
        decreases h,
    {
        if h == 0 {
            self.ks@.len() > 0
        } else {
            let p = self.ns@.len() - 1;
            &&& self.ns@[p].rightmost_removable(m, (h - 1) as nat)
            &&& self.ks@.len() == 0 ==> forall|c: Node<V>, e: (i64, V), cf: bool|
                #[trigger] c.rightmost_removed(self.ns@[p], m, (h - 1) as nat, e, cf) ==> !cf
        }
    }

    /// Taking the entry with key `x` out of this node, of height `h`, in a
    /// tree of order `m` runs without fault: where an inner node holds `x`,
    /// taking the largest entry out of the child before it does; else the
    /// removal from the child at the key rank of `x` does, and, where this
    /// node holds no key of its own, that child reports no underflow, which it
    /// could not refill.
    pub open spec fn removable(self, x: i64, m: usize, h: nat) -> bool
        decreases h,
    {
        if h == 0 {
            true
        } else {
            let p = key_rank(self.ks@, x);
            if p < self.ks@.len() && self.ks@[p] == x {
                self.ns@[p].rightmost_removable(m, (h - 1) as nat)
            } else {
                &&& self.ns@[p].removable(x, m, (h - 1) as nat)
                &&& self.ks@.len() == 0 ==> forall|c: Node<V>, cf: bool|
                    #[trigger] c.removed(self.ns@[p], x, m, (h - 1) as nat, cf) ==> !cf
            }
        }
    }

    /// Below a node of shape `h` that holds a key, taking the largest entry
    /// out runs without fault.
    pub proof fn lemma_shape_rightmost_removable(self, m: usize, h: nat)
        requires
            self.shape(h),
            self.ks@.len() > 0,
        ensures
            self.rightmost_removable(m, h),
        decreases h,
    {
        if h > 0 {
            let p = self.ns@.len() - 1;
            self.ns@[p].lemma_shape_rightmost_removable(m, (h - 1) as nat);
        }
    }

    /// In a node of shape `h` that holds a key, if inner, taking any entry
    /// out runs without fault.
    pub proof fn lemma_shape_removable(self, x: i64, m: usize, h: nat)
        requires
            self.shape(h),
            self.ns@.len() > 0 ==> self.ks@.len() > 0,
        ensures
            self.removable(x, m, h),
        decreases h,
    {
        if h > 0 {
            let p = key_rank(self.ks@, x);
            lemma_key_rank_bound(self.ks@, x);
            if p < self.ks@.len() && self.ks@[p] == x {
                self.ns@[p].lemma_shape_rightmost_removable(m, (h - 1) as nat);
            } else {
                self.ns@[p].lemma_shape_removable(x, m, (h - 1) as nat);
            }
        }
    }
}

impl<V> Node<V> {
    /// Takes out the entry with the largest key, refilling children on the way
    /// back up. Gives whether this node now needs refilling: a leaf that is
    /// empty, an inner node with fewer than `m / 2` keys.
    pub fn remove_right_most(&mut self, m: usize) -> (r: (i64, V, bool))
        requires
            m >= 1,
            old(self).frame(old(self).height()),
            old(self).rightmost_removable(m, old(self).height()),
        ensures
            final(self).rightmost_removed(*old(self), m, old(self).height(), (r.0, r.1), r.2),
            final(self).frame(old(self).height()),
            final(self).height() == old(self).height(),
            old(self).shape(old(self).height()) && (m >= 2 || final(self).ns@.len() == 0)
                ==> final(self).shape(old(self).height()),
            old(self).items() == final(self).items().push((r.0, r.1)),
            old(self).ns@.len() == 0 ==> r.2 == (final(self).ks@.len() == 0),
            old(self).ns@.len() > 0 ==> r.2 == (final(self).ks@.len() < m / 2),
            final(self).ks@.len() <= old(self).ks@.len(),
            final(self).ks@.len() + 1 >= old(self).ks@.len(),
            (final(self).ns@.len() == 0) == (old(self).ns@.len() == 0),
            m >= 3 && old(self).occupied(m, old(self).height()) ==> final(self).occupied(
                m,
                old(self).height(),
            ),
        decreases old(self).height(),
    {
        let ghost o = *self;
        let ghost h = self.height();
        proof {
            o.lemma_frame_height(h);
        }
        if self.is_leaf() {
            // 1. Leaf
            let last = self.ks.len() - 1;
            let k = self.ks.remove(last);
            let v = self.vs.remove(last);
            proof {
                assert(o.kvs() =~= self.kvs().push((k, v)));
                assert(self.frame(0));
                assert(self.ks@ =~= o.ks@.drop_last());
                assert(self.vs@ =~= o.vs@.drop_last());
            }
            return (k, v, self.is_empty());
        }
        // 2. Node (remove from child)
        let last = self.ns.len() - 1;
        proof {
            assert(o.ns@[last as int].frame((h - 1) as nat));
            o.ns@[last as int].lemma_frame_height((h - 1) as nat);
        }
        let result = self.ns[last].remove_right_most(m);
        let ghost s1 = *self;
        proof {
            let p = last as int;
            assert(self.ns@ == o.ns@.update(p, self.ns@[p]));
            lemma_replace_child(o, *self, p);
            lemma_inter_update(o.child_items(), o.kvs(), p, o.ns@[p].items());
            assert(after(o.child_items(), o.kvs(), p) =~= Seq::<(i64, V)>::empty());
            assert(o.items() =~= self.items().push((result.0, result.1)));
            if m >= 3 && o.occupied(m, h) {
                assert(o.below_except(m, h, p));
                lemma_below_replace(o, *self, p, m, h);
                self.ns@[p].lemma_occupied_below(m, (h - 1) as nat);
            }
        }
        proof {
            if o.ks@.len() == 0 {
                let p = last as int;
                assert(s1.ns@[p].rightmost_removed(
                    o.ns@[p],
                    m,
                    (h - 1) as nat,
                    (result.0, result.1),
                    result.2,
                ));
                assert(!result.2);
            }
        }
        if result.2 {
            self.borrow_or_merge_from_left(last, m);
            proof {
                self.lemma_frame_height(h);
            }
        }
        proof {
            self.lemma_occupied_below(m, h);
            let p = last as int;
            assert(s1.ns@[p].rightmost_removed(
                o.ns@[p],
                m,
                (h - 1) as nat,
                (result.0, result.1),
                result.2,
            ));
            if !result.2 {
                assert(self.same_fields(s1));
            }
            assert(self.rightmost_step(o, s1, m, h, result.2));
        }
        return (result.0, result.1, self.ks.len() < m / 2);
    }
}


/// Replacing inner key `p`, which is `x`, by the largest entry `e` of child
/// `p` (which that child gave up) is ordered deletion of `x`.
#[verifier::spinoff_prover]
#[verifier::rlimit(40)]
proof fn lemma_remove_inner_key<V>(o: Node<V>, n: Node<V>, p: int, e: (i64, V))
    requires
        o.wf(),
        o.ns@.len() > 0,
        0 <= p < o.ks@.len(),
        n.ks@ == o.ks@.update(p, e.0),
        n.vs@ == o.vs@.update(p, e.1),
        n.ns@ == o.ns@.update(p, n.ns@[p]),
        n.ns@[p].frame((o.height() - 1) as nat),
        o.ns@[p].items() == n.ns@[p].items().push(e),
    ensures
        n.frame(o.height()),
        n.height() == o.height(),
        o.shape(o.height()) && n.ns@[p].shape((o.height() - 1) as nat) ==> n.shape_except(
            o.height(),
            p,
        ),
        o.shape(o.height()) && n.ns@[p].shape((o.height() - 1) as nat) && n.ns@[p].ks@.len() > 0
            ==> n.shape(o.height()),
        n.items() == sorted_remove(o.items(), o.ks@[p]),
        o@.dom().contains(o.ks@[p]),
        o@[o.ks@[p]] == o.vs@[p],
{
    let h = o.height();
    let x = o.ks@[p];
    let cs = o.child_items();
    let kv = o.kvs();
    let c2 = n.ns@[p];
    if o.shape(h) {
        assert forall|i: int| 0 <= i < n.ns@.len() && i != p implies (#[trigger] n.ns@[i]).shape(
            (h - 1) as nat,
        ) && n.ns@[i].ks@.len() > 0 by {
            assert(n.ns@[i] == o.ns@[i]);
        }
    }
    assert forall|i: int| 0 <= i < n.ns@.len() implies (#[trigger] n.ns@[i]).frame(
        (h - 1) as nat,
    ) by {
        if i != p {
            assert(n.ns@[i] == o.ns@[i]);
        }
    }
    n.lemma_frame_height(h);
    lemma_inter_pair(cs, kv, p);
    lemma_inter_update_pair(cs, kv, p, c2.items(), e, cs[p + 1]);
    assert(cs.update(p, c2.items()).update(p + 1, cs[p + 1]) =~= cs.update(p, c2.items()));
    assert(n.child_items() =~= cs.update(p, c2.items()));
    assert(n.kvs() =~= kv.update(p, e));
    let f = flat(cs, kv, p);
    let a = after(cs, kv, p + 1);
    let s = o.items();
    let q = (f.len() + cs[p].len()) as int;
    assert(s =~= f + c2.items() + seq![e] + seq![kv[p]] + cs[p + 1] + a);
    assert(n.items() =~= f + c2.items() + seq![e] + cs[p + 1] + a);
    assert(s[q] == kv[p]);
    assert(n.items() =~= s.remove(q));
    lemma_remove_at(s, q, x);
}

impl<V> Node<V> {
    /// Takes the entry with key `x` out of the subtree, refilling children on
    /// the way back up; gives its value, if there was one, and whether this
    /// node now needs refilling. An entry of an inner node is replaced by the
    /// largest entry below its left child. The removal must run without
    /// fault (`removable`): an empty leaf has no largest entry to give, and an
    /// inner node without keys of its own has no sibling to refill its only
    /// child from.
    #[verifier::spinoff_prover]
    #[verifier::rlimit(90)]
    pub fn remove(&mut self, x: &i64, m: usize) -> (r: (Option<V>, bool))
        requires
            m >= 1,
            old(self).wf(),
            old(self).removable(*x, m, old(self).height()),
        ensures
            final(self).removed(*old(self), *x, m, old(self).height(), r.1),
            final(self).wf(),
            final(self).height() == old(self).height(),
            old(self).shape(old(self).height()) && (m >= 2 || final(self).ns@.len() == 0)
                ==> final(self).shape(old(self).height()),
            final(self).items() == sorted_remove(old(self).items(), *x),
            r.0 == (if old(self)@.dom().contains(*x) {
                Some(old(self)@[*x])
            } else {
                None::<V>
            }),
            old(self).ns@.len() == 0 ==> final(self).ns@.len() == 0 && r.1 == (final(self).ks@.len() == 0 && old(self).ks@.len() > 0),
            old(self).ns@.len() > 0 ==> (r.1 ==> final(self).ks@.len() < m / 2) && (!r.1 ==> final(self).ks@.len() >= m / 2 || final(self).ks@.len() == old(self).ks@.len()),
            old(self).ns@.len() > 0 && old(self).ks@.len() >= m / 2 ==> r.1 == (final(self).ks@.len() < m / 2),
            final(self).ks@.len() <= old(self).ks@.len(),
            final(self).ks@.len() + 1 >= old(self).ks@.len(),
            (final(self).ns@.len() == 0) == (old(self).ns@.len() == 0),
            m >= 3 && old(self).occupied(m, old(self).height()) ==> final(self).occupied(m, old(self).height()),
            final(self).ns@.len() > 0 && final(self).ks@.len() == 0 && old(self).ks@.len() > 0
                ==> final(self).ns@[0].ks@.len() > 0,
            !old(self)@.dom().contains(*x) ==> r == (None::<V>, false) && final(self).same_tree(*old(self), old(self).height()),
        decreases old(self).height(),
    {
        let ghost o = *self;
        let ghost h = self.height();
        proof {
            self.lemma_keys_sorted();
            lemma_sorted_remove_sorted(o.items(), *x);
            o.lemma_frame_height(h);
        }
        let pos = self.find_pos(&x);
        proof {
            lemma_key_rank(o.ks@, *x, pos.0 as int);
        }
        if self.is_leaf() {
            // 1. Leaf
            proof {
                lemma_rank_keys(o, pos.0 as int, *x);
                lemma_to_map_lookup(o.items(), *x);
            }
            if !pos.1 {
                // Not found
                proof {
                    self.lemma_same_tree_refl(h);
                }
                return (None, false);
            }
            self.ks.remove(pos.0);
            let removed = self.vs.remove(pos.0);
            proof {
                assert(self.ks@ =~= o.ks@.remove(pos.0 as int));
                assert(self.vs@ =~= o.vs@.remove(pos.0 as int));
                assert(self.kvs() =~= o.kvs().remove(pos.0 as int));
                assert(self.frame(0));
                self.lemma_frame_height(h);
            }
            return (Some(removed), self.ks.len() == 0);
        }
        // 2. Non-leaf

        if pos.1 {
            // 2.1. Remove from this node
            proof {
                let p = pos.0 as int;
                assert(o.ns@[p].frame((h - 1) as nat));
                o.ns@[p].lemma_frame_height((h - 1) as nat);
            }
            let rm = self.ns[pos.0].remove_right_most(m);
            self.ks.remove(pos.0);
            let v = self.vs.remove(pos.0);
            self.ks.insert(pos.0, rm.0);
            self.vs.insert(pos.0, rm.1);
            proof {
                let p = pos.0 as int;
                assert(self.ks@ =~= o.ks@.update(p, rm.0));
                assert(self.vs@ =~= o.vs@.update(p, rm.1));
                assert(self.ns@ == o.ns@.update(p, self.ns@[p]));
                lemma_remove_inner_key(o, *self, p, (rm.0, rm.1));
                if m >= 3 && o.occupied(m, h) {
                    assert(o.below_except(m, h, p));
                    lemma_below_replace(o, *self, p, m, h);
                    self.ns@[p].lemma_occupied_below(m, (h - 1) as nat);
                }
            }
            let ghost s1 = *self;
            if rm.2 {
                self.borrow_or_merge_from_right(pos.0, m);
            }
            proof {
                self.lemma_frame_height(h);
                self.lemma_occupied_below(m, h);
                if !rm.2 {
                    assert(self.same_fields(s1));
                }
                assert(self.found_step(o, s1, *x, m, h, (rm.0, rm.1), rm.2));
            }
            return (Some(v), self.ks.len() < m / 2);
        }
        // 2.2. Remove from child
        proof {
            let p = pos.0 as int;
            o.lemma_child_wf(p);
            if p < o.ks@.len() {
                assert(o.ks@[p] != *x);
            }
            o.lemma_child_bounds(p, *x);
            let f = flat(o.child_items(), o.kvs(), p);
            let a = after(o.child_items(), o.kvs(), p);
            lemma_insert_middle(f, o.ns@[p].items(), a, *x, o.vs@[0]);
            lemma_lookup_middle(f, o.ns@[p].items(), a, *x);
        }
        let result = self.ns[pos.0].remove(x, m);
        let ghost s1 = *self;
        proof {
            let p = pos.0 as int;
            assert(self.ns@ == o.ns@.update(p, self.ns@[p]));
            lemma_replace_child(o, *self, p);
            if m >= 3 && o.occupied(m, h) {
                assert(o.below_except(m, h, p));
                lemma_below_replace(o, *self, p, m, h);
                self.ns@[p].lemma_occupied_below(m, (h - 1) as nat);
            }
            if !o@.dom().contains(*x) {
                assert forall|i: int| 0 <= i < self.ns@.len() implies (
                #[trigger] self.ns@[i]).same_tree(o.ns@[i], (h - 1) as nat) by {
                    if i != p {
                        assert(self.ns@[i] == o.ns@[i]);
                        o.ns@[i].lemma_same_tree_refl((h - 1) as nat);
                    }
                }
            }
        }
        proof {
            if o.ks@.len() == 0 {
                assert(s1.ns@[pos.0 as int].removed(o.ns@[pos.0 as int], *x, m, (h - 1) as nat, result.1));
                assert(!result.1);
            }
        }
        if result.1 {
            if pos.0 == self.ks.len() {
                self.borrow_or_merge_from_left(pos.0, m);
            } else {
                self.borrow_or_merge_from_right(pos.0, m);
            }
            proof {
                self.lemma_frame_height(h);
                self.lemma_occupied_below(m, h);
                assert(self.child_step(o, s1, *x, m, h, result.1, self.ks@.len() < m / 2));
            }
            return (result.0, self.ks.len() < m / 2);
        }
        proof {
            self.lemma_occupied_below(m, h);
            assert(self.same_fields(s1));
            assert(self.child_step(o, s1, *x, m, h, result.1, result.1));
        }
        return result;
    }
}

} // verus!
