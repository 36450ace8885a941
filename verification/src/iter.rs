//! In-order iteration over a B-tree: a cursor in the current node above a
//! stack of the inner nodes still to be finished.
use vstd::prelude::*;
use crate::node::Node;
use crate::seqs::{
    after, flat, from_key, lemma_after_step, lemma_filter_add, lemma_filter_all, lemma_filter_none,
    lemma_from_key_at, lemma_from_key_rank, lemma_inter_update,
};

verus! {

/// A position in one node: before key `pos`, and, in an inner node, before
/// child `pos` too when `go_child` is set.
pub struct NodeIter<'a, V> {
    pub node: &'a Node<V>,
    pub pos: usize,
    pub go_child: bool,
}

/// The entries still to come, in key order.
pub struct BTreeIterator<'a, V> {
    pub stack: Vec<NodeIter<'a, V>>,
    pub curr: NodeIter<'a, V>,
}

impl<'a, V> NodeIter<'a, V> {
    pub open spec fn wf(self) -> bool {
        &&& self.node.wf()
        &&& self.pos <= self.node.ks@.len()
    }

    /// The entries of this node still to come from this position.
    pub open spec fn rest(self) -> Seq<(i64, V)> {
        if self.node.ns@.len() == 0 {
            self.node.kvs().subrange(self.pos as int, self.node.ks@.len() as int)
        } else if self.go_child {
            self.node.ns@[self.pos as int].items() + after(
                self.node.child_items(),
                self.node.kvs(),
                self.pos as int,
            )
        } else {
            after(self.node.child_items(), self.node.kvs(), self.pos as int)
        }
    }
}

/// The entries still to come from the frames of a stack, top first.
pub open spec fn stack_rest<'a, V>(st: Seq<NodeIter<'a, V>>) -> Seq<(i64, V)>
    decreases st.len(),
{
    if st.len() == 0 {
        Seq::empty()
    } else {
        st.last().rest() + stack_rest(st.drop_last())
    }
}

impl<'a, V> BTreeIterator<'a, V> {
    /// Well-formed: every frame well-formed, the stacked ones at keys of
    /// inner nodes.
    pub open spec fn wf(self) -> bool {
        &&& self.curr.wf()
        &&& forall|i: int|
            0 <= i < self.stack@.len() ==> (#[trigger] self.stack@[i]).wf()
                && self.stack@[i].node.ns@.len() > 0 && !self.stack@[i].go_child
    }

    /// The entries still to come, in order.
    pub open spec fn remaining(self) -> Seq<(i64, V)> {
        self.curr.rest() + stack_rest(self.stack@)
    }

    /// A fresh iterator at a node's first child yields all of its entries.
    pub proof fn lemma_fresh(self)
        requires
            self.curr.wf(),
            self.curr.pos == 0,
            self.curr.go_child,
            self.stack@.len() == 0,
        ensures
            self.wf(),
            self.remaining() == self.curr.node.items(),
    {
        let n = *self.curr.node;
        if n.ns@.len() == 0 {
            assert(n.kvs().subrange(0, n.ks@.len() as int) =~= n.kvs());
        } else {
            lemma_inter_update(n.child_items(), n.kvs(), 0, n.child_items()[0]);
            assert(flat(n.child_items(), n.kvs(), 0) =~= Seq::<(i64, V)>::empty());
        }
        assert(self.remaining() =~= n.items());
    }

    /// Moves to the first entry with key at least `x` within the current
    /// node's subtree; what the stack held before still follows.
    pub fn move_to(&mut self, x: &i64)
        requires
            old(self).wf(),
        ensures
            final(self).wf(),
            final(self).remaining() == from_key(old(self).curr.node.items(), *x) + stack_rest(
                old(self).stack@,
            ),
    {
        let ghost target = from_key(self.curr.node.items(), *x) + stack_rest(self.stack@);
        loop
            invariant
                self.wf(),
                target == from_key(self.curr.node.items(), *x) + stack_rest(self.stack@),
                target == from_key(old(self).curr.node.items(), *x) + stack_rest(old(self).stack@),
            decreases self.curr.node.height(),
        {
            let node = self.curr.node;
            proof {
                node.lemma_keys_sorted();
            }
            let pos = node.find_pos(x);
            self.curr.pos = pos.0;
            if pos.1 {
                self.curr.go_child = false;
                proof {
                    lemma_from_key_found(*node, pos.0 as int, *x);
                    assert(self.curr.rest() == from_key(node.items(), *x));
                    assert(self.remaining() == target);
                }
                return;
            }
            if node.is_leaf() {
                proof {
                    lemma_from_key_leaf(*node, pos.0 as int, *x);
                    assert(self.curr.rest() == from_key(node.items(), *x));
                    assert(self.remaining() == target);
                }
                return;
            }
            self.curr.go_child = false;
            let child = &node.ns[pos.0];
            let mut tmp = NodeIter { node: child, pos: 0, go_child: false };
            std::mem::swap(&mut tmp, &mut self.curr);
            let ghost before = self.stack@;
            self.stack.push(tmp);
            proof {
                lemma_from_key_descend(*node, pos.0 as int, *x);
                assert(self.stack@.drop_last() =~= before);
                node.lemma_child_wf(pos.0 as int);
                assert forall|i: int| 0 <= i < self.stack@.len() implies (
                #[trigger] self.stack@[i]).wf() && self.stack@[i].node.ns@.len() > 0
                    && !self.stack@[i].go_child by {
                    if i < before.len() {
                        assert(self.stack@[i] == before[i]);
                    }
                }
            }
        }
    }

    /// The next entry, if any, in key order.
    pub fn next(&mut self) -> (r: Option<(&'a i64, &'a V)>)
        requires
            old(self).wf(),
        ensures
            final(self).wf(),
            match r {
                Some(e) => {
                    &&& old(self).remaining().len() > 0
                    &&& *e.0 == old(self).remaining()[0].0
                    &&& *e.1 == old(self).remaining()[0].1
                    &&& final(self).remaining() == old(self).remaining().drop_first()
                },
                None => {
                    &&& old(self).remaining().len() == 0
                    &&& final(self).remaining() == old(self).remaining()
                },
            },
    {
        let ghost all = self.remaining();
        loop
            invariant
                self.wf(),
                self.remaining() == all,
                all == old(self).remaining(),
            decreases (if self.curr.go_child {
                1int
            } else {
                0int
            }), self.stack@.len(),
        {
            let node = self.curr.node;
            if node.is_leaf() {
                if self.curr.pos < node.ks.len() {
                    // Get the right neighbor
                    let key = &node.ks[self.curr.pos];
                    let val = &node.vs[self.curr.pos];
                    let ghost p = self.curr.pos as int;
                    self.curr.pos = self.curr.pos + 1;
                    proof {
                        let kv = node.kvs();
                        assert(kv.subrange(p, kv.len() as int) =~= seq![kv[p]] + kv.subrange(
                            p + 1,
                            kv.len() as int,
                        ));
                        assert(self.remaining() =~= all.drop_first());
                    }
                    return Some((key, val));
                } else {
                    proof {
                        assert(self.curr.rest() =~= Seq::<(i64, V)>::empty());
                    }
                    let ghost st = self.stack@;
                    match self.stack.pop() {
                        Some(x) => {
                            self.curr = x;
                            proof {
                                assert(self.stack@ =~= st.drop_last());
                                assert(st[st.len() - 1] == x);
                                assert forall|i: int| 0 <= i < self.stack@.len() implies (
                                #[trigger] self.stack@[i]).wf() && self.stack@[i].node.ns@.len()
                                    > 0 && !self.stack@[i].go_child by {
                                    assert(self.stack@[i] == st[i]);
                                }
                            }
                            continue;
                        },
                        None => {
                            proof {
                                assert(all =~= Seq::<(i64, V)>::empty());
                                assert(self.remaining() =~= all);
                            }
                            return None;
                        },
                    }
                }
            } else {
                if self.curr.go_child {
                    loop
                        invariant_except_break
                            self.curr.node.ns@.len() > 0,
                            all == self.curr.node.ns@[self.curr.pos as int].items() + after(
                                self.curr.node.child_items(),
                                self.curr.node.kvs(),
                                self.curr.pos as int,
                            ) + stack_rest(self.stack@),
                        invariant
                            self.wf(),
                        ensures
                            self.wf(),
                            self.remaining() == all,
                            !self.curr.go_child,
                        decreases self.curr.node.height(),
                    {
                        self.curr.go_child = false;
                        let node = self.curr.node;
                        let child = &node.ns[self.curr.pos];
                        let mut tmp = NodeIter { node: child, pos: 0, go_child: false };
                        std::mem::swap(&mut tmp, &mut self.curr);
                        let ghost before = self.stack@;
                        self.stack.push(tmp);
                        proof {
                            node.lemma_child_wf(tmp.pos as int);
                            assert(self.stack@.drop_last() =~= before);
                            assert forall|i: int| 0 <= i < self.stack@.len() implies (
                            #[trigger] self.stack@[i]).wf() && self.stack@[i].node.ns@.len() > 0
                                && !self.stack@[i].go_child by {
                                if i < before.len() {
                                    assert(self.stack@[i] == before[i]);
                                }
                            }
                            let c = *child;
                            if c.ns@.len() == 0 {
                                assert(c.kvs().subrange(0, c.ks@.len() as int) =~= c.items());
                            } else {
                                lemma_inter_update(c.child_items(), c.kvs(), 0, c.child_items()[0]);
                                assert(flat(c.child_items(), c.kvs(), 0) =~= Seq::<(i64, V)>::empty());
                                assert(c.items() =~= c.ns@[0].items() + after(c.child_items(), c.kvs(), 0));
                            }
                        }
                        if child.is_leaf() {
                            break;
                        }
                    }
                    continue;
                } else {
                    if self.curr.pos < node.ks.len() {
                        // Get the right neighbor
                        let key = &node.ks[self.curr.pos];
                        let val = &node.vs[self.curr.pos];
                        let ghost p = self.curr.pos as int;
                        self.curr.pos = self.curr.pos + 1;
                        self.curr.go_child = true;
                        proof {
                            lemma_after_step(node.child_items(), node.kvs(), p);
                            assert(self.remaining() =~= all.drop_first());
                        }
                        return Some((key, val));
                    } else {
                        proof {
                            assert(self.curr.rest() =~= Seq::<(i64, V)>::empty());
                        }
                        let ghost st = self.stack@;
                        match self.stack.pop() {
                            Some(x) => {
                                self.curr = x;
                                proof {
                                    assert(self.stack@ =~= st.drop_last());
                                    assert(st[st.len() - 1] == x);
                                    assert forall|i: int| 0 <= i < self.stack@.len() implies (
                                    #[trigger] self.stack@[i]).wf() && self.stack@[i].node.ns@.len()
                                        > 0 && !self.stack@[i].go_child by {
                                        assert(self.stack@[i] == st[i]);
                                    }
                                }
                                continue;
                            },
                            None => {
                                proof {
                                    assert(all =~= Seq::<(i64, V)>::empty());
                                    assert(self.remaining() =~= all);
                                }
                                return None;
                            },
                        }
                    }
                }
            }
        }
    }
}

/// Where `x` is key `p` of a node, the entries from `x` on are what follows
/// that position.
proof fn lemma_from_key_found<V>(n: Node<V>, p: int, x: i64)
    requires
        n.wf(),
        0 <= p < n.ks@.len(),
        n.ks@[p] == x,
    ensures
        n.ns@.len() == 0 ==> from_key(n.items(), x) == n.kvs().subrange(p, n.ks@.len() as int),
        n.ns@.len() > 0 ==> from_key(n.items(), x) == after(n.child_items(), n.kvs(), p),
{
    if n.ns@.len() == 0 {
        lemma_from_key_at(n.items(), p, x);
    } else {
        let cs = n.child_items();
        let kv = n.kvs();
        lemma_inter_update(cs, kv, p, cs[p]);
        let f = flat(cs, kv, p);
        let q = f.len() + cs[p].len();
        assert(after(cs, kv, p)[0] == kv[p]);
        assert(n.items()[q as int] == kv[p]);
        lemma_from_key_at(n.items(), q as int, x);
        assert(n.items().subrange(q as int, n.items().len() as int) =~= after(cs, kv, p));
    }
}

/// In a leaf, the entries from `x` on are those from the number of keys below `x` on.
proof fn lemma_from_key_leaf<V>(n: Node<V>, p: int, x: i64)
    requires
        n.wf(),
        n.ns@.len() == 0,
        0 <= p <= n.ks@.len(),
        forall|j: int| 0 <= j < p ==> #[trigger] n.ks@[j] < x,
        forall|j: int| p <= j < n.ks@.len() ==> #[trigger] n.ks@[j] >= x,
    ensures
        from_key(n.items(), x) == n.kvs().subrange(p, n.ks@.len() as int),
{
    let s = n.items();
    assert forall|i: int| 0 <= i < p implies #[trigger] s[i].0 < x by {
        assert(n.ks@[i] < x);
    }
    assert forall|i: int| p <= i < s.len() implies #[trigger] s[i].0 >= x by {
        assert(n.ks@[i] >= x);
    }
    crate::seqs::lemma_rank_unique(s, x, p);
    lemma_from_key_rank(s, x);
}

/// Where `x` falls before key `p` of an inner node, the entries from `x` on
/// are those of child `p` from `x` on, then what follows that child.
proof fn lemma_from_key_descend<V>(n: Node<V>, p: int, x: i64)
    requires
        n.wf(),
        n.ns@.len() > 0,
        0 <= p <= n.ks@.len(),
        forall|j: int| 0 <= j < p ==> #[trigger] n.ks@[j] < x,
        forall|j: int| p <= j < n.ks@.len() ==> #[trigger] n.ks@[j] >= x,
        p < n.ks@.len() ==> n.ks@[p] != x,
    ensures
        from_key(n.items(), x) == from_key(n.ns@[p].items(), x) + after(
            n.child_items(),
            n.kvs(),
            p,
        ),
{
    n.lemma_child_wf(p);
    n.lemma_child_bounds(p, x);
    let cs = n.child_items();
    let kv = n.kvs();
    let f = flat(cs, kv, p);
    let c = n.ns@[p].items();
    let a = after(cs, kv, p);
    lemma_filter_add(f + c, a, x);
    lemma_filter_add(f, c, x);
    lemma_filter_none(f, x);
    assert forall|i: int| 0 <= i < a.len() implies #[trigger] a[i].0 >= x by {}
    lemma_filter_all(a, x);
    assert(Seq::<(i64, V)>::empty() + from_key(c, x) =~= from_key(c, x));
}

} // verus!
