//! Sequence algebra behind the tree's in-order view: the interleaving of
//! child sequences with separators, ordered entry sequences, their ranks,
//! ordered insertion and deletion, and the map an entry sequence denotes.
use vstd::prelude::*;

verus! {

/// The first `j` segments `cs[0] kvs[0] cs[1] kvs[1] ... cs[j-1] kvs[j-1]`.
pub open spec fn flat<I>(cs: Seq<Seq<I>>, kvs: Seq<I>, j: int) -> Seq<I>
    decreases j,
{
    if j <= 0 {
        Seq::empty()
    } else {
        flat(cs, kvs, j - 1) + cs[j - 1] + seq![kvs[j - 1]]
    }
}

/// The in-order interleaving `cs[0] kvs[0] cs[1] ... kvs[L-1] cs[L]` of
/// `L + 1` child sequences with `L` separators.
pub open spec fn inter<I>(cs: Seq<Seq<I>>, kvs: Seq<I>) -> Seq<I> {
    flat(cs, kvs, kvs.len() as int) + cs[kvs.len() as int]
}

/// What follows child `b` in the interleaving: separator `b` and everything after it.
pub open spec fn after<I>(cs: Seq<Seq<I>>, kvs: Seq<I>, b: int) -> Seq<I> {
    if b < kvs.len() {
        seq![kvs[b]] + inter(cs.subrange(b + 1, cs.len() as int), kvs.subrange(b + 1, kvs.len() as int))
    } else {
        Seq::empty()
    }
}

pub proof fn lemma_flat_prefix<I>(
    cs1: Seq<Seq<I>>,
    kvs1: Seq<I>,
    cs2: Seq<Seq<I>>,
    kvs2: Seq<I>,
    j: int,
)
    requires
        0 <= j,
        j <= cs1.len(),
        j <= cs2.len(),
        j <= kvs1.len(),
        j <= kvs2.len(),
        forall|i: int| 0 <= i < j ==> #[trigger] cs1[i] == cs2[i],
        forall|i: int| 0 <= i < j ==> #[trigger] kvs1[i] == kvs2[i],
    ensures
        flat(cs1, kvs1, j) == flat(cs2, kvs2, j),
    decreases j,
{
    if j > 0 {
        lemma_flat_prefix(cs1, kvs1, cs2, kvs2, j - 1);
        assert(cs1[j - 1] == cs2[j - 1]);
        assert(kvs1[j - 1] == kvs2[j - 1]);
    }
}

pub proof fn lemma_inter_unfold_last<I>(cs: Seq<Seq<I>>, kvs: Seq<I>)
    requires
        cs.len() == kvs.len() + 1,
        kvs.len() > 0,
    ensures
        inter(cs, kvs) == inter(cs.drop_last(), kvs.drop_last()) + seq![kvs.last()] + cs.last(),
{
    let n = kvs.len() as int;
    lemma_flat_prefix(cs, kvs, cs.drop_last(), kvs.drop_last(), n - 1);
    let f = flat(cs, kvs, n - 1);
    assert(f + cs[n - 1] + seq![kvs[n - 1]] + cs[n] =~= (f + cs[n - 1]) + seq![kvs[n - 1]]
        + cs[n]);
}

/// Interleavings concatenate around a separator.
pub proof fn lemma_inter_concat<I>(a: Seq<Seq<I>>, ka: Seq<I>, k: I, b: Seq<Seq<I>>, kb: Seq<I>)
    requires
        a.len() == ka.len() + 1,
        b.len() == kb.len() + 1,
    ensures
        inter(a + b, ka.push(k) + kb) == inter(a, ka) + seq![k] + inter(b, kb),
    decreases kb.len(),
{
    let cs = a + b;
    let ks = ka.push(k) + kb;
    let n = ka.len() as int;
    if kb.len() == 0 {
        assert(ks =~= ka.push(k));
        lemma_flat_prefix(cs, ks, a, ka, n);
        assert(cs[n] == a[n]);
        assert(cs[n + 1] == b[0]);
        assert(ks[n] == k);
        let f = flat(a, ka, n);
        assert(inter(cs, ks) == f + a[n] + seq![k] + b[0]);
        assert(inter(b, kb) == b[0]);
        assert(f + a[n] + seq![k] + b[0] =~= (f + a[n]) + seq![k] + b[0]);
    } else {
        let b2 = b.drop_last();
        let kb2 = kb.drop_last();
        lemma_inter_concat(a, ka, k, b2, kb2);
        lemma_inter_unfold_last(cs, ks);
        lemma_inter_unfold_last(b, kb);
        assert(cs.drop_last() =~= a + b2);
        assert(ks.drop_last() =~= ka.push(k) + kb2);
        assert(cs.last() == b.last());
        assert(ks.last() == kb.last());
        let x = inter(a, ka);
        let y = inter(b2, kb2);
        assert(x + seq![k] + y + seq![kb.last()] + b.last() =~= x + seq![k] + (y + seq![
            kb.last(),
        ] + b.last()));
    }
}

/// The interleaving of a single child with no separator is that child.
pub proof fn lemma_inter_single<I>(cs: Seq<Seq<I>>, kvs: Seq<I>)
    requires
        cs.len() == 1,
        kvs.len() == 0,
    ensures
        inter(cs, kvs) == cs[0],
{
    assert(Seq::<I>::empty() + cs[0] =~= cs[0]);
}

/// Splitting the interleaving in front of child `a`.
pub proof fn lemma_inter_drop_prefix<I>(cs: Seq<Seq<I>>, kvs: Seq<I>, a: int)
    requires
        cs.len() == kvs.len() + 1,
        0 <= a <= kvs.len(),
    ensures
        inter(cs, kvs) == flat(cs, kvs, a) + inter(
            cs.subrange(a, cs.len() as int),
            kvs.subrange(a, kvs.len() as int),
        ),
{
    if a == 0 {
        assert(cs.subrange(0, cs.len() as int) =~= cs);
        assert(kvs.subrange(0, kvs.len() as int) =~= kvs);
        assert(Seq::<I>::empty() + inter(cs, kvs) =~= inter(cs, kvs));
    } else {
        let ca = cs.subrange(0, a);
        let ka = kvs.subrange(0, a - 1);
        let cb = cs.subrange(a, cs.len() as int);
        let kb = kvs.subrange(a, kvs.len() as int);
        assert(cs =~= ca + cb);
        assert(kvs =~= ka.push(kvs[a - 1]) + kb);
        lemma_inter_concat(ca, ka, kvs[a - 1], cb, kb);
        lemma_flat_prefix(cs, kvs, ca, ka, a - 1);
        assert(ca[a - 1] == cs[a - 1]);
    }
}

/// The interleaving seen around the window of children `a..=b`.
pub proof fn lemma_inter_window<I>(cs: Seq<Seq<I>>, kvs: Seq<I>, a: int, b: int)
    requires
        cs.len() == kvs.len() + 1,
        0 <= a <= b <= kvs.len(),
    ensures
        inter(cs, kvs) == flat(cs, kvs, a) + inter(cs.subrange(a, b + 1), kvs.subrange(a, b))
            + after(cs, kvs, b),
{
    lemma_inter_drop_prefix(cs, kvs, a);
    let cr = cs.subrange(a, cs.len() as int);
    let kr = kvs.subrange(a, kvs.len() as int);
    if b < kvs.len() {
        let w = cr.subrange(0, b - a + 1);
        let kw = kr.subrange(0, b - a);
        let cz = cr.subrange(b - a + 1, cr.len() as int);
        let kz = kr.subrange(b - a + 1, kr.len() as int);
        assert(cr =~= w + cz);
        assert(kr =~= kw.push(kvs[b]) + kz);
        lemma_inter_concat(w, kw, kvs[b], cz, kz);
        assert(w =~= cs.subrange(a, b + 1));
        assert(kw =~= kvs.subrange(a, b));
        assert(cz =~= cs.subrange(b + 1, cs.len() as int));
        assert(kz =~= kvs.subrange(b + 1, kvs.len() as int));
        let f = flat(cs, kvs, a);
        let m = inter(w, kw);
        let t = inter(cz, kz);
        assert(f + (m + seq![kvs[b]] + t) =~= f + m + (seq![kvs[b]] + t));
    } else {
        assert(cr =~= cs.subrange(a, b + 1));
        assert(kr =~= kvs.subrange(a, b));
        let f = flat(cs, kvs, a);
        assert(f + inter(cr, kr) =~= f + inter(cr, kr) + Seq::<I>::empty());
    }
}

/// The interleaving with child `p` replaced.
pub proof fn lemma_inter_update<I>(cs: Seq<Seq<I>>, kvs: Seq<I>, p: int, c: Seq<I>)
    requires
        cs.len() == kvs.len() + 1,
        0 <= p <= kvs.len(),
    ensures
        inter(cs, kvs) == flat(cs, kvs, p) + cs[p] + after(cs, kvs, p),
        inter(cs.update(p, c), kvs) == flat(cs, kvs, p) + c + after(cs, kvs, p),
        flat(cs.update(p, c), kvs, p) == flat(cs, kvs, p),
        after(cs.update(p, c), kvs, p) == after(cs, kvs, p),
{
    let cs2 = cs.update(p, c);
    lemma_inter_window(cs, kvs, p, p);
    lemma_inter_window(cs2, kvs, p, p);
    lemma_inter_single(cs.subrange(p, p + 1), kvs.subrange(p, p));
    lemma_inter_single(cs2.subrange(p, p + 1), kvs.subrange(p, p));
    lemma_flat_prefix(cs2, kvs, cs, kvs, p);
    assert(cs2.subrange(p + 1, cs2.len() as int) =~= cs.subrange(p + 1, cs.len() as int));
}

/// The interleaving after child `p` is split into `l`, separator `e` and `r`.
pub proof fn lemma_inter_split_child<I>(cs: Seq<Seq<I>>, kvs: Seq<I>, p: int, l: Seq<I>, e: I, r: Seq<I>)
    requires
        cs.len() == kvs.len() + 1,
        0 <= p <= kvs.len(),
    ensures
        inter(cs.update(p, l).insert(p + 1, r), kvs.insert(p, e)) == flat(cs, kvs, p) + (l + seq![e]
            + r) + after(cs, kvs, p),
{
    let cs2 = cs.update(p, l).insert(p + 1, r);
    let kv2 = kvs.insert(p, e);
    lemma_inter_window(cs2, kv2, p, p + 1);
    let w = cs2.subrange(p, p + 2);
    let kw = kv2.subrange(p, p + 1);
    assert(w =~= seq![l] + seq![r]);
    assert(kw =~= Seq::<I>::empty().push(e) + Seq::<I>::empty());
    lemma_inter_concat(seq![l], Seq::<I>::empty(), e, seq![r], Seq::<I>::empty());
    lemma_inter_single(seq![l], Seq::<I>::empty());
    lemma_inter_single(seq![r], Seq::<I>::empty());
    lemma_flat_prefix(cs2, kv2, cs, kvs, p);
    assert(cs2.subrange(p + 2, cs2.len() as int) =~= cs.subrange(p + 1, cs.len() as int));
    if p < kvs.len() {
        assert(kv2.subrange(p + 2, kv2.len() as int) =~= kvs.subrange(p + 1, kvs.len() as int));
    }
}

/// The interleaving seen around children `p` and `p + 1` and the separator between them.
pub proof fn lemma_inter_pair<I>(cs: Seq<Seq<I>>, kvs: Seq<I>, p: int)
    requires
        cs.len() == kvs.len() + 1,
        0 <= p < kvs.len(),
    ensures
        inter(cs, kvs) == flat(cs, kvs, p) + (cs[p] + seq![kvs[p]] + cs[p + 1]) + after(
            cs,
            kvs,
            p + 1,
        ),
{
    lemma_inter_window(cs, kvs, p, p + 1);
    let w = cs.subrange(p, p + 2);
    let kw = kvs.subrange(p, p + 1);
    assert(w =~= seq![cs[p]] + seq![cs[p + 1]]);
    assert(kw =~= Seq::<I>::empty().push(kvs[p]) + Seq::<I>::empty());
    lemma_inter_concat(seq![cs[p]], Seq::<I>::empty(), kvs[p], seq![cs[p + 1]], Seq::<I>::empty());
    lemma_inter_single(seq![cs[p]], Seq::<I>::empty());
    lemma_inter_single(seq![cs[p + 1]], Seq::<I>::empty());
}

/// The interleaving after children `p`, `p + 1` and the separator between
/// them are replaced.
pub proof fn lemma_inter_update_pair<I>(
    cs: Seq<Seq<I>>,
    kvs: Seq<I>,
    p: int,
    c1: Seq<I>,
    k: I,
    c2: Seq<I>,
)
    requires
        cs.len() == kvs.len() + 1,
        0 <= p < kvs.len(),
    ensures
        inter(cs.update(p, c1).update(p + 1, c2), kvs.update(p, k)) == flat(cs, kvs, p) + (c1
            + seq![k] + c2) + after(cs, kvs, p + 1),
{
    let cs2 = cs.update(p, c1).update(p + 1, c2);
    let kv2 = kvs.update(p, k);
    lemma_inter_pair(cs2, kv2, p);
    lemma_flat_prefix(cs2, kv2, cs, kvs, p);
    assert(cs2.subrange(p + 2, cs2.len() as int) =~= cs.subrange(p + 2, cs.len() as int));
    if p + 1 < kvs.len() {
        assert(kv2.subrange(p + 2, kv2.len() as int) =~= kvs.subrange(p + 2, kvs.len() as int));
    }
}

/// The interleaving after children `p`, `p + 1` and the separator between
/// them are merged into one child.
pub proof fn lemma_inter_merge<I>(cs: Seq<Seq<I>>, kvs: Seq<I>, p: int, c: Seq<I>)
    requires
        cs.len() == kvs.len() + 1,
        0 <= p < kvs.len(),
    ensures
        inter(cs.update(p, c).remove(p + 1), kvs.remove(p)) == flat(cs, kvs, p) + c + after(
            cs,
            kvs,
            p + 1,
        ),
{
    let cs2 = cs.update(p, c).remove(p + 1);
    let kv2 = kvs.remove(p);
    lemma_inter_update(cs2, kv2, p, c);
    assert(cs2.update(p, c) =~= cs2);
    lemma_flat_prefix(cs2, kv2, cs, kvs, p);
    assert(cs2.subrange(p + 1, cs2.len() as int) =~= cs.subrange(p + 2, cs.len() as int));
    if p + 1 < kvs.len() {
        assert(kv2.subrange(p + 1, kv2.len() as int) =~= kvs.subrange(p + 2, kvs.len() as int));
    }
}

/// Looking `x` up in an ordered concatenation whose outer parts lie below
/// and above it is looking it up in the middle part.
pub proof fn lemma_lookup_middle<V>(a: Seq<(i64, V)>, c: Seq<(i64, V)>, b: Seq<(i64, V)>, x: i64)
    requires
        sorted(a + c + b),
        forall|i: int| 0 <= i < a.len() ==> #[trigger] a[i].0 < x,
        forall|i: int| 0 <= i < b.len() ==> #[trigger] b[i].0 > x,
    ensures
        sorted(c),
        to_map(a + c + b).dom().contains(x) == to_map(c).dom().contains(x),
        to_map(c).dom().contains(x) ==> to_map(a + c + b)[x] == to_map(c)[x],
{
    let s = a + c + b;
    assert(c =~= s.subrange(a.len() as int, (a.len() + c.len()) as int));
    lemma_sorted_sub(s, a.len() as int, (a.len() + c.len()) as int);
    lemma_to_map_dom(s, x);
    lemma_to_map_dom(c, x);
    if to_map(s).dom().contains(x) {
        let i = choose|i: int| 0 <= i < s.len() && #[trigger] s[i].0 == x;
        if i < a.len() {
            assert(s[i] == a[i]);
        } else if i >= a.len() + c.len() {
            assert(s[i] == b[i - a.len() - c.len()]);
        } else {
            assert(s[i] == c[i - a.len()]);
        }
    }
    if to_map(c).dom().contains(x) {
        let i = choose|i: int| 0 <= i < c.len() && #[trigger] c[i].0 == x;
        assert(s[a.len() + i] == c[i]);
        lemma_to_map_value(s, a.len() + i);
        lemma_to_map_value(c, i);
    }
}

/// Entries whose keys strictly increase.
pub open spec fn sorted<V>(s: Seq<(i64, V)>) -> bool {
    forall|i: int, j: int| 0 <= i < j < s.len() ==> #[trigger] s[i].0 < #[trigger] s[j].0
}

/// Keys that strictly increase.
pub open spec fn sorted_keys(s: Seq<i64>) -> bool {
    forall|i: int, j: int| 0 <= i < j < s.len() ==> #[trigger] s[i] < #[trigger] s[j]
}

/// The number of entries whose key is below `x` in an ordered entry sequence:
/// where an entry with key `x` is, or would go.
pub open spec fn rank<V>(s: Seq<(i64, V)>, x: i64) -> int
    decreases s.len(),
{
    if s.len() == 0 {
        0
    } else if s.last().0 < x {
        s.len() as int
    } else {
        rank(s.drop_last(), x)
    }
}

/// The number of keys below `x` in an ascending key list: where key `x` is,
/// or would go.
pub open spec fn key_rank(ks: Seq<i64>, x: i64) -> int
    decreases ks.len(),
{
    if ks.len() == 0 {
        0
    } else if ks.last() < x {
        ks.len() as int
    } else {
        key_rank(ks.drop_last(), x)
    }
}

/// The key rank lies within the key list.
pub proof fn lemma_key_rank_bound(ks: Seq<i64>, x: i64)
    ensures
        0 <= key_rank(ks, x) <= ks.len(),
    decreases ks.len(),
{
    if ks.len() > 0 && ks.last() >= x {
        lemma_key_rank_bound(ks.drop_last(), x);
    }
}

/// Any index that separates the keys below `x` from the others is the key rank.
pub proof fn lemma_key_rank(ks: Seq<i64>, x: i64, p: int)
    requires
        0 <= p <= ks.len(),
        forall|j: int| 0 <= j < p ==> #[trigger] ks[j] < x,
        forall|j: int| p <= j < ks.len() ==> #[trigger] ks[j] >= x,
    ensures
        key_rank(ks, x) == p,
    decreases ks.len(),
{
    if ks.len() > 0 {
        if ks.last() < x {
            if p < ks.len() {
                assert(ks[ks.len() - 1] >= x);
            }
        } else {
            if p == ks.len() {
                assert(ks[ks.len() - 1] < x);
            }
            let t = ks.drop_last();
            assert forall|j: int| 0 <= j < p implies #[trigger] t[j] < x by {
                assert(t[j] == ks[j]);
            }
            assert forall|j: int| p <= j < t.len() implies #[trigger] t[j] >= x by {
                assert(t[j] == ks[j]);
            }
            lemma_key_rank(t, x, p);
        }
    }
}

/// Entry `(x, v)` put in its place: it replaces the entry with key `x`, or is
/// inserted where the keys pass `x`.
pub open spec fn sorted_insert<V>(s: Seq<(i64, V)>, x: i64, v: V) -> Seq<(i64, V)> {
    let r = rank(s, x);
    if r < s.len() && s[r].0 == x {
        s.update(r, (x, v))
    } else {
        s.insert(r, (x, v))
    }
}

/// The entry with key `x` taken out, if there is one.
pub open spec fn sorted_remove<V>(s: Seq<(i64, V)>, x: i64) -> Seq<(i64, V)> {
    let r = rank(s, x);
    if r < s.len() && s[r].0 == x {
        s.remove(r)
    } else {
        s
    }
}

/// The entries whose key is at least `x`, in their order.
pub open spec fn from_key<V>(s: Seq<(i64, V)>, x: i64) -> Seq<(i64, V)> {
    s.filter(|e: (i64, V)| e.0 >= x)
}

/// The map an entry sequence denotes (a later entry wins over an earlier one
/// with the same key; in an ordered sequence there is none).
pub open spec fn to_map<V>(s: Seq<(i64, V)>) -> Map<i64, V>
    decreases s.len(),
{
    if s.len() == 0 {
        Map::empty()
    } else {
        to_map(s.drop_last()).insert(s.last().0, s.last().1)
    }
}

pub proof fn lemma_rank<V>(s: Seq<(i64, V)>, x: i64)
    requires
        sorted(s),
    ensures
        0 <= rank(s, x) <= s.len(),
        forall|i: int| 0 <= i < rank(s, x) ==> #[trigger] s[i].0 < x,
        forall|i: int| rank(s, x) <= i < s.len() ==> #[trigger] s[i].0 >= x,
    decreases s.len(),
{
    if s.len() > 0 {
        if s.last().0 < x {
            assert forall|i: int| 0 <= i < s.len() implies #[trigger] s[i].0 < x by {
                if i < s.len() - 1 {
                    assert(s[i].0 < s[s.len() - 1].0);
                }
            }
        } else {
            let t = s.drop_last();
            lemma_rank(t, x);
            assert forall|i: int| 0 <= i < rank(s, x) implies #[trigger] s[i].0 < x by {
                assert(s[i] == t[i]);
            }
            assert forall|i: int| rank(s, x) <= i < s.len() implies #[trigger] s[i].0 >= x by {
                if i < s.len() - 1 {
                    assert(s[i] == t[i]);
                }
            }
        }
    }
}

/// Any index that separates the keys below `x` from the others is the rank.
pub proof fn lemma_rank_unique<V>(s: Seq<(i64, V)>, x: i64, r: int)
    requires
        sorted(s),
        0 <= r <= s.len(),
        forall|i: int| 0 <= i < r ==> #[trigger] s[i].0 < x,
        forall|i: int| r <= i < s.len() ==> #[trigger] s[i].0 >= x,
    ensures
        rank(s, x) == r,
{
    lemma_rank(s, x);
    let q = rank(s, x);
    if q < r {
        assert(s[q].0 >= x);
    }
    if r < q {
        assert(s[r].0 >= x);
    }
}

pub proof fn lemma_sorted_sub<V>(s: Seq<(i64, V)>, a: int, b: int)
    requires
        sorted(s),
        0 <= a <= b <= s.len(),
    ensures
        sorted(s.subrange(a, b)),
{
    let t = s.subrange(a, b);
    assert forall|i: int, j: int| 0 <= i < j < t.len() implies #[trigger] t[i].0 < #[trigger] t[j].0 by {
        assert(t[i] == s[a + i]);
        assert(t[j] == s[a + j]);
    }
}

/// An ordered concatenation `A + C + B` in which `A` ends below `x` and `B`
/// starts above it has all of `A` below `x` and all of `B` above it.
pub proof fn lemma_sorted_bounds<V>(a: Seq<(i64, V)>, c: Seq<(i64, V)>, b: Seq<(i64, V)>, x: i64)
    requires
        sorted(a + c + b),
        a.len() > 0 ==> a.last().0 < x,
        b.len() > 0 ==> b[0].0 > x,
    ensures
        forall|i: int| 0 <= i < a.len() ==> #[trigger] a[i].0 < x,
        forall|i: int| 0 <= i < b.len() ==> #[trigger] b[i].0 > x,
{
    let s = a + c + b;
    assert forall|i: int| 0 <= i < a.len() implies #[trigger] a[i].0 < x by {
        assert(s[i] == a[i]);
        assert(s[a.len() - 1] == a.last());
        if i < a.len() - 1 {
            assert(s[i].0 < s[a.len() - 1].0);
        }
    }
    assert forall|i: int| 0 <= i < b.len() implies #[trigger] b[i].0 > x by {
        let o = (a.len() + c.len()) as int;
        assert(s[o + i] == b[i]);
        assert(s[o] == b[0]);
        if i > 0 {
            assert(s[o].0 < s[o + i].0);
        }
    }
}

/// Insertion into the middle part of an ordered concatenation whose outer
/// parts lie below and above the key.
pub proof fn lemma_insert_middle<V>(
    a: Seq<(i64, V)>,
    c: Seq<(i64, V)>,
    b: Seq<(i64, V)>,
    x: i64,
    v: V,
)
    requires
        sorted(a + c + b),
        forall|i: int| 0 <= i < a.len() ==> #[trigger] a[i].0 < x,
        forall|i: int| 0 <= i < b.len() ==> #[trigger] b[i].0 > x,
    ensures
        sorted_insert(a + c + b, x, v) == a + sorted_insert(c, x, v) + b,
        sorted_remove(a + c + b, x) == a + sorted_remove(c, x) + b,
{
    let s = a + c + b;
    assert(c =~= s.subrange(a.len() as int, (a.len() + c.len()) as int));
    lemma_sorted_sub(s, a.len() as int, (a.len() + c.len()) as int);
    lemma_rank(c, x);
    let rc = rank(c, x);
    let r = a.len() + rc;
    assert forall|i: int| 0 <= i < r implies #[trigger] s[i].0 < x by {
        if i < a.len() {
            assert(s[i] == a[i]);
        } else {
            assert(s[i] == c[i - a.len()]);
        }
    }
    assert forall|i: int| r <= i < s.len() implies #[trigger] s[i].0 >= x by {
        if i < a.len() + c.len() {
            assert(s[i] == c[i - a.len()]);
        } else {
            assert(s[i] == b[i - a.len() - c.len()]);
        }
    }
    lemma_rank_unique(s, x, r);
    let found = rc < c.len() && c[rc].0 == x;
    if rc < c.len() {
        assert(s[r] == c[rc]);
    } else if r < s.len() {
        assert(s[r] == b[0]);
    }
    assert(found == (r < s.len() && s[r].0 == x));
    if found {
        assert(s.update(r, (x, v)) =~= a + c.update(rc, (x, v)) + b);
        assert(s.remove(r) =~= a + c.remove(rc) + b);
    } else {
        assert(s.insert(r, (x, v)) =~= a + c.insert(rc, (x, v)) + b);
    }
}

pub proof fn lemma_sorted_remove_sorted<V>(s: Seq<(i64, V)>, x: i64)
    requires
        sorted(s),
    ensures
        sorted(sorted_remove(s, x)),
{
    lemma_rank(s, x);
    let r = rank(s, x);
    if r < s.len() && s[r].0 == x {
        let u = s.remove(r);
        assert forall|i: int, j: int| 0 <= i < j < u.len() implies #[trigger] u[i].0
            < #[trigger] u[j].0 by {
            let i2 = if i < r { i } else { i + 1 };
            let j2 = if j < r { j } else { j + 1 };
            assert(u[i] == s[i2]);
            assert(u[j] == s[j2]);
            assert(s[i2].0 < s[j2].0);
        }
    }
}

pub proof fn lemma_sorted_insert_sorted<V>(s: Seq<(i64, V)>, x: i64, v: V)
    requires
        sorted(s),
    ensures
        sorted(sorted_insert(s, x, v)),
{
    lemma_rank(s, x);
    let r = rank(s, x);
    let t = sorted_insert(s, x, v);
    if r < s.len() && s[r].0 == x {
        assert forall|i: int, j: int| 0 <= i < j < t.len() implies #[trigger] t[i].0
            < #[trigger] t[j].0 by {
            if i != r && j != r {
                assert(s[i].0 < s[j].0);
            } else if i == r {
                assert(s[r].0 < s[j].0);
            } else {
                assert(s[i].0 < s[r].0);
            }
        }
    } else {
        assert forall|i: int, j: int| 0 <= i < j < t.len() implies #[trigger] t[i].0
            < #[trigger] t[j].0 by {
            if i < r && j < r {
                assert(s[i].0 < s[j].0);
            } else if i < r && j == r {
            } else if i < r {
                assert(t[j] == s[j - 1]);
            } else if i == r {
                assert(t[j] == s[j - 1]);
                assert(s[r].0 >= x);
                if j - 1 > r {
                    assert(s[r].0 < s[j - 1].0);
                }
            } else {
                assert(t[i] == s[i - 1]);
                assert(t[j] == s[j - 1]);
                assert(s[i - 1].0 < s[j - 1].0);
            }
        }
    }
}

/// A key is in the map exactly when some entry carries it.
pub proof fn lemma_to_map_dom<V>(s: Seq<(i64, V)>, k: i64)
    ensures
        to_map(s).dom().contains(k) <==> exists|i: int| 0 <= i < s.len() && #[trigger] s[i].0 == k,
    decreases s.len(),
{
    if s.len() > 0 {
        let t = s.drop_last();
        lemma_to_map_dom(t, k);
        if exists|i: int| 0 <= i < t.len() && #[trigger] t[i].0 == k {
            let i = choose|i: int| 0 <= i < t.len() && #[trigger] t[i].0 == k;
            assert(s[i] == t[i]);
        }
        if exists|i: int| 0 <= i < s.len() && #[trigger] s[i].0 == k {
            let i = choose|i: int| 0 <= i < s.len() && #[trigger] s[i].0 == k;
            if i < s.len() - 1 {
                assert(t[i] == s[i]);
            }
        }
    }
}

/// In an ordered sequence the map gives each entry's value for its key.
pub proof fn lemma_to_map_value<V>(s: Seq<(i64, V)>, i: int)
    requires
        sorted(s),
        0 <= i < s.len(),
    ensures
        to_map(s).dom().contains(s[i].0),
        to_map(s)[s[i].0] == s[i].1,
    decreases s.len(),
{
    let t = s.drop_last();
    if i < s.len() - 1 {
        assert(t[i] == s[i]);
        assert(sorted(t));
        lemma_to_map_value(t, i);
        assert(s[i].0 < s[s.len() - 1].0);
    }
}

/// Looking a key up in an ordered sequence: it is present exactly when the
/// entry at its rank carries it.
pub proof fn lemma_to_map_lookup<V>(s: Seq<(i64, V)>, x: i64)
    requires
        sorted(s),
    ensures
        to_map(s).dom().contains(x) <==> (rank(s, x) < s.len() && s[rank(s, x)].0 == x),
        rank(s, x) < s.len() && s[rank(s, x)].0 == x ==> to_map(s)[x] == s[rank(s, x)].1,
{
    lemma_rank(s, x);
    lemma_to_map_dom(s, x);
    let r = rank(s, x);
    if to_map(s).dom().contains(x) {
        let i = choose|i: int| 0 <= i < s.len() && #[trigger] s[i].0 == x;
        if i < r {
        } else if i > r {
            assert(s[r].0 < s[i].0);
        }
    }
    if r < s.len() && s[r].0 == x {
        lemma_to_map_value(s, r);
    }
}

/// Where an entry of `s` sits in `sorted_insert(s, x, v)`.
pub open spec fn insert_index<V>(s: Seq<(i64, V)>, x: i64, j: int) -> int {
    let r = rank(s, x);
    if (r < s.len() && s[r].0 == x) || j < r {
        j
    } else {
        j + 1
    }
}

proof fn lemma_insert_index<V>(s: Seq<(i64, V)>, x: i64, v: V, j: int)
    requires
        sorted(s),
        0 <= j < s.len(),
        s[j].0 != x,
    ensures
        0 <= insert_index(s, x, j) < sorted_insert(s, x, v).len(),
        sorted_insert(s, x, v)[insert_index(s, x, j)] == s[j],
{
    lemma_rank(s, x);
}

proof fn lemma_insert_entry<V>(s: Seq<(i64, V)>, x: i64, v: V, i: int)
    requires
        sorted(s),
        0 <= i < sorted_insert(s, x, v).len(),
        sorted_insert(s, x, v)[i].0 != x,
    ensures
        exists|j: int|
            0 <= j < s.len() && s[j] == sorted_insert(s, x, v)[i] && #[trigger] insert_index(
                s,
                x,
                j,
            ) == i,
{
    lemma_rank(s, x);
    let r = rank(s, x);
    let found = r < s.len() && s[r].0 == x;
    let j = if found || i < r { i } else { i - 1 };
    assert(insert_index(s, x, j) == i);
}

/// In an ordered sequence, deleting key `x` removes the entry that carries it.
pub proof fn lemma_remove_at<V>(s: Seq<(i64, V)>, q: int, x: i64)
    requires
        sorted(s),
        0 <= q < s.len(),
        s[q].0 == x,
    ensures
        sorted_remove(s, x) == s.remove(q),
        to_map(s).dom().contains(x),
        to_map(s)[x] == s[q].1,
{
    assert forall|i: int| 0 <= i < q implies #[trigger] s[i].0 < x by {
        assert(s[i].0 < s[q].0);
    }
    assert forall|i: int| q <= i < s.len() implies #[trigger] s[i].0 >= x by {
        if i > q {
            assert(s[q].0 < s[i].0);
        }
    }
    lemma_rank_unique(s, x, q);
    lemma_to_map_value(s, q);
}

/// Ordered insertion is map insertion.
pub proof fn lemma_to_map_insert<V>(s: Seq<(i64, V)>, x: i64, v: V)
    requires
        sorted(s),
    ensures
        to_map(sorted_insert(s, x, v)) == to_map(s).insert(x, v),
{
    lemma_rank(s, x);
    lemma_sorted_insert_sorted(s, x, v);
    let r = rank(s, x);
    let t = sorted_insert(s, x, v);
    let m = to_map(s).insert(x, v);
    let mt = to_map(t);
    assert(t[r] == (x, v));
    lemma_to_map_value(t, r);
    assert forall|k: i64| k != x implies (#[trigger] mt.dom().contains(k) <==> m.dom().contains(k))
        && (mt.dom().contains(k) ==> mt[k] == m[k]) by {
        lemma_to_map_dom(t, k);
        lemma_to_map_dom(s, k);
        if mt.dom().contains(k) {
            let i = choose|i: int| 0 <= i < t.len() && #[trigger] t[i].0 == k;
            lemma_insert_entry(s, x, v, i);
            let j = choose|j: int|
                0 <= j < s.len() && s[j] == t[i] && #[trigger] insert_index(s, x, j) == i;
            lemma_to_map_value(t, i);
            lemma_to_map_value(s, j);
        }
        if to_map(s).dom().contains(k) {
            let j = choose|j: int| 0 <= j < s.len() && #[trigger] s[j].0 == k;
            lemma_insert_index(s, x, v, j);
            assert(t[insert_index(s, x, j)].0 == k);
        }
    }
    assert(mt =~= m);
}

/// Where an entry of `sorted_remove(s, x)` sits in `s`.
pub open spec fn remove_source<V>(s: Seq<(i64, V)>, x: i64, i: int) -> int {
    let r = rank(s, x);
    if r < s.len() && s[r].0 == x && i >= r {
        i + 1
    } else {
        i
    }
}

proof fn lemma_remove_source<V>(s: Seq<(i64, V)>, x: i64, i: int)
    requires
        sorted(s),
        0 <= i < sorted_remove(s, x).len(),
    ensures
        0 <= remove_source(s, x, i) < s.len(),
        s[remove_source(s, x, i)] == sorted_remove(s, x)[i],
        s[remove_source(s, x, i)].0 != x,
{
    lemma_rank(s, x);
    let r = rank(s, x);
    let j = remove_source(s, x, i);
    if r < s.len() && s[r].0 == x {
        if j > r {
            assert(s[r].0 < s[j].0);
        }
    }
}

proof fn lemma_remove_target<V>(s: Seq<(i64, V)>, x: i64, j: int)
    requires
        sorted(s),
        0 <= j < s.len(),
        s[j].0 != x,
    ensures
        exists|i: int|
            0 <= i < sorted_remove(s, x).len() && sorted_remove(s, x)[i] == s[j]
                && #[trigger] remove_source(s, x, i) == j,
{
    lemma_rank(s, x);
    let r = rank(s, x);
    let found = r < s.len() && s[r].0 == x;
    let i = if found && j > r { j - 1 } else { j };
    assert(remove_source(s, x, i) == j);
}

/// Ordered deletion is map removal.
pub proof fn lemma_to_map_remove<V>(s: Seq<(i64, V)>, x: i64)
    requires
        sorted(s),
    ensures
        to_map(sorted_remove(s, x)) == to_map(s).remove(x),
{
    lemma_sorted_remove_sorted(s, x);
    let t = sorted_remove(s, x);
    let m = to_map(s).remove(x);
    let mt = to_map(t);
    assert forall|k: i64| #[trigger] mt.dom().contains(k) <==> m.dom().contains(k) by {
        lemma_to_map_dom(t, k);
        lemma_to_map_dom(s, k);
        if mt.dom().contains(k) {
            let i = choose|i: int| 0 <= i < t.len() && #[trigger] t[i].0 == k;
            lemma_remove_source(s, x, i);
        }
        if m.dom().contains(k) {
            let j = choose|j: int| 0 <= j < s.len() && #[trigger] s[j].0 == k;
            lemma_remove_target(s, x, j);
            let i = choose|i: int|
                0 <= i < t.len() && t[i] == s[j] && #[trigger] remove_source(s, x, i) == j;
            assert(t[i].0 == k);
        }
    }
    assert forall|k: i64| #[trigger] mt.dom().contains(k) implies mt[k] == m[k] by {
        lemma_to_map_dom(t, k);
        let i = choose|i: int| 0 <= i < t.len() && #[trigger] t[i].0 == k;
        lemma_to_map_value(t, i);
        lemma_remove_source(s, x, i);
        lemma_to_map_value(s, remove_source(s, x, i));
    }
    assert(mt =~= m);
}

pub proof fn lemma_filter_all<V>(s: Seq<(i64, V)>, x: i64)
    requires
        forall|i: int| 0 <= i < s.len() ==> #[trigger] s[i].0 >= x,
    ensures
        from_key(s, x) == s,
    decreases s.len(),
{
    reveal(Seq::filter);
    if s.len() > 0 {
        let t = s.drop_last();
        assert forall|i: int| 0 <= i < t.len() implies #[trigger] t[i].0 >= x by {
            assert(t[i] == s[i]);
        }
        lemma_filter_all(t, x);
        assert(s.last().0 >= x);
        assert(t.push(s.last()) =~= s);
    }
}

pub proof fn lemma_filter_none<V>(s: Seq<(i64, V)>, x: i64)
    requires
        forall|i: int| 0 <= i < s.len() ==> #[trigger] s[i].0 < x,
    ensures
        from_key(s, x) == Seq::<(i64, V)>::empty(),
    decreases s.len(),
{
    reveal(Seq::filter);
    if s.len() > 0 {
        let t = s.drop_last();
        assert forall|i: int| 0 <= i < t.len() implies #[trigger] t[i].0 < x by {
            assert(t[i] == s[i]);
        }
        lemma_filter_none(t, x);
        assert(s.last().0 < x);
    } else {
        assert(s.filter(|e: (i64, V)| e.0 >= x) =~= Seq::<(i64, V)>::empty());
    }
}

pub proof fn lemma_filter_add<V>(a: Seq<(i64, V)>, b: Seq<(i64, V)>, x: i64)
    ensures
        from_key(a + b, x) == from_key(a, x) + from_key(b, x),
{
    Seq::filter_distributes_over_add(a, b, |e: (i64, V)| e.0 >= x);
}

/// In an ordered sequence, the entries from key `x` on are those from its rank on.
pub proof fn lemma_from_key_rank<V>(s: Seq<(i64, V)>, x: i64)
    requires
        sorted(s),
    ensures
        from_key(s, x) == s.subrange(rank(s, x), s.len() as int),
{
    lemma_rank(s, x);
    let r = rank(s, x);
    let a = s.subrange(0, r);
    let b = s.subrange(r, s.len() as int);
    assert(s =~= a + b);
    assert forall|i: int| 0 <= i < a.len() implies #[trigger] a[i].0 < x by {
        assert(a[i] == s[i]);
    }
    assert forall|i: int| 0 <= i < b.len() implies #[trigger] b[i].0 >= x by {
        assert(b[i] == s[r + i]);
    }
    lemma_filter_add(a, b, x);
    lemma_filter_none(a, x);
    lemma_filter_all(b, x);
    assert(Seq::<(i64, V)>::empty() + b =~= b);
}


/// In an ordered sequence, the entries from key `x` on start where `x` is.
pub proof fn lemma_from_key_at<V>(s: Seq<(i64, V)>, q: int, x: i64)
    requires
        sorted(s),
        0 <= q < s.len(),
        s[q].0 == x,
    ensures
        from_key(s, x) == s.subrange(q, s.len() as int),
{
    assert forall|i: int| 0 <= i < q implies #[trigger] s[i].0 < x by {
        assert(s[i].0 < s[q].0);
    }
    assert forall|i: int| q <= i < s.len() implies #[trigger] s[i].0 >= x by {
        if i > q {
            assert(s[q].0 < s[i].0);
        }
    }
    lemma_rank_unique(s, x, q);
    lemma_from_key_rank(s, x);
}

/// Stepping past separator `p` and child `p + 1`.
pub proof fn lemma_after_step<I>(cs: Seq<Seq<I>>, kvs: Seq<I>, p: int)
    requires
        cs.len() == kvs.len() + 1,
        0 <= p < kvs.len(),
    ensures
        after(cs, kvs, p) == seq![kvs[p]] + cs[p + 1] + after(cs, kvs, p + 1),
{
    let cs2 = cs.subrange(p + 1, cs.len() as int);
    let kv2 = kvs.subrange(p + 1, kvs.len() as int);
    lemma_inter_update(cs2, kv2, 0, cs2[0]);
    assert(flat(cs2, kv2, 0) =~= Seq::<I>::empty());
    if p + 1 < kvs.len() {
        assert(cs2.subrange(1, cs2.len() as int) =~= cs.subrange(p + 2, cs.len() as int));
        assert(kv2.subrange(1, kv2.len() as int) =~= kvs.subrange(p + 2, kvs.len() as int));
    }
    assert(seq![kvs[p]] + (Seq::<I>::empty() + cs2[0] + after(cs2, kv2, 0)) =~= seq![kvs[p]]
        + cs[p + 1] + after(cs, kvs, p + 1));
}


/// An ordered sequence denotes a finite map with one key per entry.
pub proof fn lemma_to_map_len<V>(s: Seq<(i64, V)>)
    requires
        sorted(s),
    ensures
        to_map(s).dom().finite(),
        to_map(s).dom().len() == s.len(),
    decreases s.len(),
{
    if s.len() > 0 {
        let t = s.drop_last();
        assert(sorted(t));
        lemma_to_map_len(t);
        lemma_to_map_dom(t, s.last().0);
        if to_map(t).dom().contains(s.last().0) {
            let i = choose|i: int| 0 <= i < t.len() && #[trigger] t[i].0 == s.last().0;
            assert(s[i].0 < s[s.len() - 1].0);
        }
    }
}


/// Deleting a key that ordered insertion put in restores the sequence.
pub proof fn lemma_remove_insert<V>(s: Seq<(i64, V)>, x: i64, v: V)
    requires
        sorted(s),
        !to_map(s).dom().contains(x),
    ensures
        sorted_remove(sorted_insert(s, x, v), x) == s,
{
    lemma_rank(s, x);
    lemma_to_map_lookup(s, x);
    lemma_sorted_insert_sorted(s, x, v);
    let r = rank(s, x);
    let t = sorted_insert(s, x, v);
    assert(t[r] == (x, v));
    lemma_remove_at(t, r, x);
    assert(t.remove(r) =~= s);
}

/// Two ordered sequences that denote the same map are the same sequence.
pub proof fn lemma_same_map_same_seq<V>(s1: Seq<(i64, V)>, s2: Seq<(i64, V)>)
    requires
        sorted(s1),
        sorted(s2),
        to_map(s1) == to_map(s2),
    ensures
        s1 == s2,
    decreases s1.len(),
{
    lemma_to_map_len(s1);
    lemma_to_map_len(s2);
    if s1.len() > 0 {
        let n = s1.len() - 1;
        let k1 = s1[n].0;
        let k2 = s2[n].0;
        lemma_to_map_value(s1, n);
        lemma_to_map_value(s2, n);
        lemma_to_map_dom(s2, k1);
        lemma_to_map_dom(s1, k2);
        let j2 = choose|i: int| 0 <= i < s2.len() && #[trigger] s2[i].0 == k1;
        let j1 = choose|i: int| 0 <= i < s1.len() && #[trigger] s1[i].0 == k2;
        if j2 < n {
            assert(s2[j2].0 < s2[n].0);
        }
        if j1 < n {
            assert(s1[j1].0 < s1[n].0);
        }
        assert(k1 == k2);
        let t1 = s1.drop_last();
        let t2 = s2.drop_last();
        assert(sorted(t1));
        assert(sorted(t2));
        lemma_to_map_dom(t1, k1);
        lemma_to_map_dom(t2, k1);
        if to_map(t1).dom().contains(k1) {
            let i = choose|i: int| 0 <= i < t1.len() && #[trigger] t1[i].0 == k1;
            assert(s1[i].0 < s1[n].0);
        }
        if to_map(t2).dom().contains(k1) {
            let i = choose|i: int| 0 <= i < t2.len() && #[trigger] t2[i].0 == k1;
            assert(s2[i].0 < s2[n].0);
        }
        assert(to_map(t1) =~= to_map(s1).remove(k1));
        assert(to_map(t2) =~= to_map(s2).remove(k1));
        lemma_same_map_same_seq(t1, t2);
        assert(s1 =~= t1.push(s1[n]));
        assert(s2 =~= t2.push(s2[n]));
    } else {
        assert(s1 =~= s2);
    }
}

} // verus!
