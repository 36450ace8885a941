//! How a node's keys are written out: `[k0,k1,...]`, each key in decimal.
use vstd::prelude::*;
use crate::node::Node;

verus! {

/// The character of decimal digit `d`.
pub open spec fn digit_char(d: int) -> char {
    if d == 0 {
        '0'
    } else if d == 1 {
        '1'
    } else if d == 2 {
        '2'
    } else if d == 3 {
        '3'
    } else if d == 4 {
        '4'
    } else if d == 5 {
        '5'
    } else if d == 6 {
        '6'
    } else if d == 7 {
        '7'
    } else if d == 8 {
        '8'
    } else {
        '9'
    }
}

/// The decimal digits of `n`, without leading zeros.
pub open spec fn decimal(n: nat) -> Seq<char>
    decreases n,
{
    if n < 10 {
        seq![digit_char(n as int)]
    } else {
        decimal(n / 10) + seq![digit_char((n % 10) as int)]
    }
}

/// A key in decimal, with a minus sign when negative.
pub open spec fn key_text(k: int) -> Seq<char> {
    if k < 0 {
        seq!['-'] + decimal((-k) as nat)
    } else {
        decimal(k as nat)
    }
}

/// Keys in decimal, separated by commas.
pub open spec fn joined(ks: Seq<i64>) -> Seq<char>
    decreases ks.len(),
{
    if ks.len() == 0 {
        Seq::empty()
    } else if ks.len() == 1 {
        key_text(ks[0] as int)
    } else {
        joined(ks.drop_last()) + seq![','] + key_text(ks.last() as int)
    }
}

/// The value of a decimal digit character.
pub open spec fn digit_value(c: char) -> int {
    c as int - '0' as int
}

/// Whether `c` is one of the characters `0` to `9`.
pub open spec fn is_digit(c: char) -> bool {
    '0' as int <= c as int <= '9' as int
}

/// The number that a string of decimal digits reads as, most significant
/// digit first.
pub open spec fn read_natural(s: Seq<char>) -> int
    decreases s.len(),
{
    if s.len() == 0 {
        0
    } else {
        read_natural(s.drop_last()) * 10 + digit_value(s.last())
    }
}

/// The integer that a key's text reads as: digits, after a minus sign for a
/// negative one.
pub open spec fn read_key(s: Seq<char>) -> int {
    if s.len() > 0 && s[0] == '-' {
        -read_natural(s.drop_first())
    } else {
        read_natural(s)
    }
}

/// The pieces of `s` between its commas, in order: one more than there are
/// commas.
pub open spec fn pieces(s: Seq<char>) -> Seq<Seq<char>>
    decreases s.len(),
{
    if s.len() == 0 {
        seq![Seq::<char>::empty()]
    } else if s.last() == ',' {
        pieces(s.drop_last()).push(Seq::<char>::empty())
    } else {
        let p = pieces(s.drop_last());
        p.update(p.len() - 1, p.last().push(s.last()))
    }
}

/// A number's decimal text is a non-empty string of digits, without a
/// leading zero unless it is zero itself, that reads back as the number.
pub proof fn law_decimal_reads_back(n: nat)
    ensures
        decimal(n).len() > 0,
        forall|i: int| 0 <= i < decimal(n).len() ==> is_digit(#[trigger] decimal(n)[i]),
        decimal(n)[0] == '0' ==> n == 0,
        read_natural(decimal(n)) == n,
    decreases n,
{
    reveal_strlit("0");
    if n >= 10 {
        law_decimal_reads_back(n / 10);
        let t = decimal(n / 10);
        let d = (n % 10) as int;
        assert(decimal(n) == t + seq![digit_char(d)]);
        assert((t + seq![digit_char(d)]).drop_last() =~= t);
        assert(digit_value(digit_char(d)) == d);
        assert(n == (n / 10) * 10 + n % 10) by (nonlinear_arith);
        assert(read_natural(decimal(n)) == read_natural(t) * 10 + d);
        assert(read_natural(t) * 10 == (n / 10) * 10);
        assert forall|i: int| 0 <= i < decimal(n).len() implies is_digit(#[trigger] decimal(n)[i]) by {
            if i < t.len() {
                assert(decimal(n)[i] == t[i]);
            }
        }
        assert(decimal(n)[0] == t[0]);
    } else {
        assert(digit_value(digit_char(n as int)) == n);
        assert(seq![digit_char(n as int)].drop_last() =~= Seq::<char>::empty());
        assert(read_natural(Seq::<char>::empty()) == 0);
        assert(read_natural(decimal(n)) == 0 * 10 + digit_value(digit_char(n as int)));
    }
}

/// A key's text holds no comma and reads back as the key.
pub proof fn law_key_text_reads_back(k: int)
    ensures
        forall|i: int| 0 <= i < key_text(k).len() ==> #[trigger] key_text(k)[i] != ',',
        read_key(key_text(k)) == k,
{
    if k < 0 {
        law_decimal_reads_back((-k) as nat);
        let d = decimal((-k) as nat);
        assert((seq!['-'] + d).drop_first() =~= d);
        assert forall|i: int| 0 <= i < key_text(k).len() implies #[trigger] key_text(k)[i] != ',' by {
            if i > 0 {
                assert(key_text(k)[i] == d[i - 1]);
                assert(is_digit(d[i - 1]));
            }
        }
    } else {
        law_decimal_reads_back(k as nat);
        let d = decimal(k as nat);
        assert(is_digit(d[0]));
        assert forall|i: int| 0 <= i < key_text(k).len() implies #[trigger] key_text(k)[i] != ',' by {
            assert(is_digit(d[i]));
        }
    }
}

/// Appending text without commas extends the last piece.
proof fn lemma_pieces_extend(a: Seq<char>, b: Seq<char>)
    requires
        forall|i: int| 0 <= i < b.len() ==> #[trigger] b[i] != ',',
    ensures
        pieces(a + b).len() == pieces(a).len(),
        pieces(a + b) == pieces(a).update(pieces(a).len() - 1, pieces(a).last() + b),
    decreases b.len(),
{
    lemma_pieces_len(a);
    if b.len() == 0 {
        assert(a + b =~= a);
        assert(pieces(a).last() + b =~= pieces(a).last());
        assert(pieces(a).update(pieces(a).len() - 1, pieces(a).last()) =~= pieces(a));
    } else {
        let b1 = b.drop_last();
        lemma_pieces_extend(a, b1);
        assert((a + b).drop_last() =~= a + b1);
        assert((a + b).last() == b.last());
        assert(b.last() != ',');
        let p = pieces(a);
        assert((p.last() + b1).push(b.last()) =~= p.last() + b);
        assert(pieces(a + b) =~= p.update(p.len() - 1, p.last() + b));
    }
}

proof fn lemma_pieces_len(s: Seq<char>)
    ensures
        pieces(s).len() > 0,
    decreases s.len(),
{
    if s.len() > 0 {
        lemma_pieces_len(s.drop_last());
    }
}

/// Keys written in decimal and separated by commas split at the commas into
/// one piece per key, piece `i` reading back as key `i`.
pub proof fn law_joined_reads_back(ks: Seq<i64>)
    requires
        ks.len() > 0,
    ensures
        pieces(joined(ks)).len() == ks.len(),
        forall|i: int| 0 <= i < ks.len() ==> read_key(#[trigger] pieces(joined(ks))[i]) == ks[i],
    decreases ks.len(),
{
    lemma_pieces_are_keys(ks);
    assert forall|i: int| 0 <= i < ks.len() implies read_key(#[trigger] pieces(joined(ks))[i])
        == ks[i] by {
        law_key_text_reads_back(ks[i] as int);
    }
}

proof fn lemma_pieces_are_keys(ks: Seq<i64>)
    requires
        ks.len() > 0,
    ensures
        pieces(joined(ks)).len() == ks.len(),
        forall|i: int| 0 <= i < ks.len() ==> #[trigger] pieces(joined(ks))[i] == key_text(ks[i] as int),
    decreases ks.len(),
{
    let k = ks.last() as int;
    law_key_text_reads_back(k);
    if ks.len() == 1 {
        lemma_pieces_extend(Seq::<char>::empty(), key_text(k));
        assert(Seq::<char>::empty() + key_text(k) =~= key_text(k));
        assert(Seq::<char>::empty() + key_text(k) =~= key_text(k));
        assert(ks[0] == ks.last());
    } else {
        let t = ks.drop_last();
        lemma_pieces_are_keys(t);
        let a = joined(t) + seq![','];
        assert(a.drop_last() =~= joined(t));
        assert(pieces(a) == pieces(joined(t)).push(Seq::<char>::empty()));
        lemma_pieces_extend(a, key_text(k));
        assert(joined(ks) == a + key_text(k));
        assert(Seq::<char>::empty() + key_text(k) =~= key_text(k));
        assert forall|i: int| 0 <= i < ks.len() implies #[trigger] pieces(joined(ks))[i] == key_text(
            ks[i] as int,
        ) by {
            if i < t.len() {
                assert(ks[i] == t[i]);
            }
        }
    }
}

fn digit_str(d: u64) -> (r: &'static str)
    requires
        d < 10,
    ensures
        r@ == seq![digit_char(d as int)],
{
    proof {
        reveal_strlit("0");
        reveal_strlit("1");
        reveal_strlit("2");
        reveal_strlit("3");
        reveal_strlit("4");
        reveal_strlit("5");
        reveal_strlit("6");
        reveal_strlit("7");
        reveal_strlit("8");
        reveal_strlit("9");
    }
    if d == 0 {
        "0"
    } else if d == 1 {
        "1"
    } else if d == 2 {
        "2"
    } else if d == 3 {
        "3"
    } else if d == 4 {
        "4"
    } else if d == 5 {
        "5"
    } else if d == 6 {
        "6"
    } else if d == 7 {
        "7"
    } else if d == 8 {
        "8"
    } else {
        "9"
    }
}

fn push_decimal(s: &mut String, n: u64)
    ensures
        final(s)@ == old(s)@ + decimal(n as nat),
    decreases n,
{
    if n >= 10 {
        push_decimal(s, n / 10);
    }
    s.append(digit_str(n % 10));
}

fn push_key(s: &mut String, k: i64)
    ensures
        final(s)@ == old(s)@ + key_text(k as int),
{
    if k < 0 {
        proof {
            reveal_strlit("-");
        }
        s.append("-");
        let a: i128 = 0 - (k as i128);
        push_decimal(s, a as u64);
        proof {
            assert(old(s)@ + seq!['-'] + decimal((-k) as nat) =~= old(s)@ + key_text(k as int));
        }
    } else {
        push_decimal(s, k as u64);
    }
}

/// Keys written as `[k0,k1,...]`, each in decimal.
pub fn keys_fmt(ks: &Vec<i64>) -> (r: String)
    ensures
        r@ == seq!['['] + joined(ks@) + seq![']'],
        r@.len() >= 2,
        r@[0] == '[',
        r@.last() == ']',
        ks@.len() == 0 ==> r@.len() == 2,
        ks@.len() > 0 ==> pieces(r@.subrange(1, r@.len() - 1)).len() == ks@.len(),
        forall|i: int|
            0 <= i < ks@.len() ==> read_key(#[trigger] pieces(r@.subrange(1, r@.len() - 1))[i])
                == ks@[i],
{
    proof {
        reveal_strlit("[");
        reveal_strlit("]");
        reveal_strlit(",");
    }
    let mut s = String::new();
    s.append("[");
    if ks.len() > 0 {
        push_key(&mut s, ks[0]);
        proof {
            assert(ks@.subrange(0, 1).drop_last() =~= Seq::<i64>::empty());
            assert(s@ =~= seq!['['] + joined(ks@.subrange(0, 1)));
        }
        let mut i: usize = 1;
        while i < ks.len()
            invariant
                1 <= i <= ks@.len(),
                s@ == seq!['['] + joined(ks@.subrange(0, i as int)),
            decreases ks@.len() - i,
        {
            let ghost before = s@;
            proof {
                reveal_strlit(",");
            }
            s.append(",");
            push_key(&mut s, ks[i]);
            proof {
                let t = ks@.subrange(0, i + 1);
                assert(t.drop_last() =~= ks@.subrange(0, i as int));
                assert(t.last() == ks@[i as int]);
                assert(joined(t) == joined(t.drop_last()) + seq![','] + key_text(t.last() as int));
                assert(s@ == before + seq![','] + key_text(ks@[i as int] as int));
                assert(s@ =~= seq!['['] + joined(t));
            }
            i = i + 1;
        }
        proof {
            assert(ks@.subrange(0, ks@.len() as int) =~= ks@);
        }
    } else {
        proof {
            assert(s@ =~= seq!['['] + joined(ks@));
        }
    }
    s.append("]");
    proof {
        assert(s@.subrange(1, s@.len() - 1) =~= joined(ks@));
        if ks@.len() > 0 {
            law_joined_reads_back(ks@);
        } else {
            assert(joined(ks@).len() == 0);
        }
    }
    s
}

impl<V> Node<V> {
    /// The node's keys as `[k0,k1,...]`, each in decimal.
    pub fn fmt(&self) -> (r: String)
        ensures
            r@ == seq!['['] + joined(self.ks@) + seq![']'],
            r@.len() >= 2,
            r@[0] == '[',
            r@.last() == ']',
            self.ks@.len() == 0 ==> r@.len() == 2,
            self.ks@.len() > 0 ==> pieces(r@.subrange(1, r@.len() - 1)).len() == self.ks@.len(),
            forall|i: int|
                0 <= i < self.ks@.len() ==> read_key(
                    #[trigger] pieces(r@.subrange(1, r@.len() - 1))[i],
                ) == self.ks@[i],
    {
        keys_fmt(&self.ks)
    }
}

} // verus!
