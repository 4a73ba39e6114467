//! The candidate keyspace: 8-byte keys whose every byte is one of the
//! sixteen ASCII symbols `'0'..='9', 'A'..='F'`, enumerated like an
//! odometer with the rightmost byte cycling fastest, so that every one of
//! the `16^8` candidates appears exactly once before the space is
//! exhausted.

use vstd::arithmetic::div_mod::lemma_fundamental_div_mod;
use vstd::arithmetic::div_mod::lemma_fundamental_div_mod_converse;
use vstd::prelude::*;

verus! {

/// A byte is one of the sixteen key symbols `'0'..='9', 'A'..='F'`.
pub open spec fn is_sym(b: u8) -> bool {
    (48 <= b <= 57) || (65 <= b <= 70)
}

/// The digit value, `0..16`, that a key symbol stands for.
pub open spec fn sym_val(b: u8) -> int
    recommends
        is_sym(b),
{
    if b <= 57 {
        b - 48
    } else {
        b - 65 + 10
    }
}

/// The key symbol standing for a digit value `0..16`.
pub open spec fn sym_of(v: int) -> u8
    recommends
        0 <= v < 16,
{
    if v < 10 {
        (48 + v) as u8
    } else {
        (65 + (v - 10)) as u8
    }
}

/// Every position of the sequence holds a key symbol.
pub open spec fn all_syms(s: Seq<u8>) -> bool {
    forall|i: int| 0 <= i < s.len() ==> is_sym(#[trigger] s[i])
}

/// A well-formed candidate key: 8 positions, each a key symbol.
pub open spec fn wf_key(s: Seq<u8>) -> bool {
    &&& s.len() == 8
    &&& all_syms(s)
}

/// The number of candidates over `n` positions: `16^n`.
pub open spec fn pow16(n: nat) -> int
    decreases n,
{
    if n == 0 {
        1
    } else {
        16 * pow16((n - 1) as nat)
    }
}

/// The position of a candidate in enumeration order: the bytes read as
/// base-16 digits, the rightmost least significant.
pub open spec fn key_index(s: Seq<u8>) -> int
    decreases s.len(),
{
    if s.len() == 0 {
        0
    } else {
        key_index(s.drop_last()) * 16 + sym_val(s.last())
    }
}

/// The candidate standing at position `i` of the enumeration of keys over
/// `n` positions.
pub open spec fn key_of_index(i: int, n: nat) -> Seq<u8>
    decreases n,
{
    if n == 0 {
        Seq::empty()
    } else {
        key_of_index(i / 16, (n - 1) as nat).push(sym_of(i % 16))
    }
}

/// The sequence of `n` copies of the byte `b`.
pub open spec fn rep(b: u8, n: nat) -> Seq<u8> {
    Seq::new(n, |i: int| b)
}

/// Mapping a digit value to its symbol and back returns the value.
pub proof fn lemma_sym_val_of(v: int)
    requires
        0 <= v < 16,
    ensures
        is_sym(sym_of(v)),
        sym_val(sym_of(v)) == v,
{
}

/// Mapping a key symbol to its digit value and back returns the symbol.
pub proof fn lemma_sym_of_val(b: u8)
    requires
        is_sym(b),
    ensures
        0 <= sym_val(b) < 16,
        sym_of(sym_val(b)) == b,
{
}

/// Enumeration positions are in range: a sequence of key symbols stands at
/// a position between `0` and `16^n - 1`.
pub proof fn lemma_key_index_bounds(s: Seq<u8>)
    requires
        all_syms(s),
    ensures
        0 <= key_index(s) < pow16(s.len() as nat),
    decreases s.len(),
{
    if s.len() == 0 {
    } else {
        let d = s.drop_last();
        assert(all_syms(d));
        lemma_key_index_bounds(d);
        assert(is_sym(s[s.len() - 1]));
        let a: int = key_index(d);
        let v: int = sym_val(s.last());
        let p: int = pow16(d.len() as nat);
        assert(pow16(s.len() as nat) == 16 * p);
        assert(0 <= a * 16 + v < 16 * p) by (nonlinear_arith)
            requires
                0 <= a < p,
                0 <= v < 16,
        {
        }
    }
}

/// Enumeration is onto: for every position `i` below `16^n` there is a
/// well-formed candidate standing exactly there, namely `key_of_index(i, n)`.
pub proof fn lemma_key_of_index(i: int, n: nat)
    requires
        0 <= i < pow16(n),
    ensures
        key_of_index(i, n).len() == n,
        all_syms(key_of_index(i, n)),
        key_index(key_of_index(i, n)) == i,
    decreases n,
{
    if n == 0 {
    } else {
        let p: int = pow16((n - 1) as nat);
        assert(pow16(n) == 16 * p);
        lemma_fundamental_div_mod(i, 16);
        let q: int = i / 16;
        let r: int = i % 16;
        assert(0 <= r < 16) by (nonlinear_arith)
            requires
                r == i % 16,
                0 <= i,
        {
        }
        assert(q < p) by (nonlinear_arith)
            requires
                i == 16 * q + r,
                i < 16 * p,
                0 <= r < 16,
        {
        }
        assert(0 <= q) by (nonlinear_arith)
            requires
                i == 16 * q + r,
                0 <= i,
                0 <= r < 16,
        {
        }
        lemma_key_of_index(q, (n - 1) as nat);
        lemma_sym_val_of(r);
        let prev = key_of_index(q, (n - 1) as nat);
        let s = key_of_index(i, n);
        assert(s == prev.push(sym_of(r)));
        assert(s.drop_last() =~= prev);
        assert(s.last() == sym_of(r));
        assert(key_index(s) == q * 16 + r);
        assert(forall|t: int| 0 <= t < s.len() ==> is_sym(#[trigger] s[t])) by {
            assert(forall|t: int| 0 <= t < prev.len() ==> s[t] == #[trigger] prev[t]);
        }
    }
}

/// Enumeration position determines the candidate: taking a candidate's
/// position and rebuilding the candidate at that position returns it.
pub proof fn lemma_key_index_inverse(s: Seq<u8>)
    requires
        all_syms(s),
    ensures
        key_of_index(key_index(s), s.len() as nat) == s,
    decreases s.len(),
{
    if s.len() == 0 {
        assert(key_of_index(key_index(s), 0) =~= s);
    } else {
        let d = s.drop_last();
        assert(all_syms(d));
        lemma_key_index_inverse(d);
        lemma_key_index_bounds(d);
        assert(is_sym(s[s.len() - 1]));
        lemma_sym_of_val(s.last());
        let a: int = key_index(d);
        let v: int = sym_val(s.last());
        let i: int = key_index(s);
        assert(i == a * 16 + v);
        lemma_fundamental_div_mod_converse(i, 16, a, v);
        assert(key_of_index(i, s.len() as nat) == key_of_index(a, (s.len() - 1) as nat).push(
            sym_of(v),
        ));
        assert(key_of_index(i, s.len() as nat) =~= s);
    }
}

/// Enumeration never repeats: two well-formed candidates standing at the
/// same position are the same candidate.
pub proof fn lemma_key_index_injective(s: Seq<u8>, t: Seq<u8>)
    requires
        wf_key(s),
        wf_key(t),
        key_index(s) == key_index(t),
    ensures
        s == t,
{
    lemma_key_index_inverse(s);
    lemma_key_index_inverse(t);
}

/// Splitting a candidate: the position of a concatenation is the position
/// of the left part shifted past the right part, plus the position of the
/// right part.
pub proof fn lemma_key_index_append(a: Seq<u8>, b: Seq<u8>)
    ensures
        key_index(a + b) == key_index(a) * pow16(b.len() as nat) + key_index(b),
    decreases b.len(),
{
    if b.len() == 0 {
        assert(a + b =~= a);
    } else {
        let b0 = b.drop_last();
        lemma_key_index_append(a, b0);
        assert((a + b).drop_last() =~= a + b0);
        assert((a + b).last() == b.last());
        let ka: int = key_index(a);
        let p0: int = pow16(b0.len() as nat);
        let kb0: int = key_index(b0);
        let v: int = sym_val(b.last());
        assert(pow16(b.len() as nat) == 16 * p0);
        assert((ka * p0 + kb0) * 16 + v == ka * (16 * p0) + (kb0 * 16 + v)) by (nonlinear_arith) {
        }
    }
}

/// A run of maximum symbols stands at the last position of its length.
pub proof fn lemma_key_index_rep_max(n: nat)
    ensures
        key_index(rep(70, n)) == pow16(n) - 1,
    decreases n,
{
    if n == 0 {
    } else {
        lemma_key_index_rep_max((n - 1) as nat);
        assert(rep(70, n).drop_last() =~= rep(70, (n - 1) as nat));
        assert(rep(70, n).last() == 70);
    }
}

/// A run of minimum symbols stands at position zero.
pub proof fn lemma_key_index_rep_min(n: nat)
    ensures
        key_index(rep(48, n)) == 0,
    decreases n,
{
    if n == 0 {
    } else {
        lemma_key_index_rep_min((n - 1) as nat);
        assert(rep(48, n).drop_last() =~= rep(48, (n - 1) as nat));
        assert(rep(48, n).last() == 48);
    }
}

/// The first candidate of the enumeration: every position at the minimum
/// symbol `'0'`.
pub fn min_key() -> (k: [u8; 8])
    ensures
        wf_key(k@),
        key_index(k@) == 0,
{
    let k: [u8; 8] = [48; 8];
    proof {
        assert(k@ =~= rep(48, 8));
        lemma_key_index_rep_min(8);
    }
    k
}

/// Steps a candidate to its successor in enumeration order, carrying
/// right-to-left, and reports whether there was one: when every byte
/// already holds the maximum symbol the keyspace is exhausted, the
/// candidate is left unchanged and `false` comes back; otherwise the
/// candidate moves to the next position exactly.
#[verifier::loop_isolation(false)]
pub fn advance_key(key: &mut [u8; 8]) -> (more: bool)
    requires
        wf_key(old(key)@),
    ensures
        wf_key(final(key)@),
        key_index(old(key)@) < pow16(8) - 1 ==> more && key_index(final(key)@) == key_index(
            old(key)@,
        ) + 1,
        key_index(old(key)@) == pow16(8) - 1 ==> !more && final(key)@ == old(key)@,
{
    let mut i: usize = 8;
    while i > 0 && key[i - 1] == 70
        invariant
            0 <= i <= 8,
            key@ == old(key)@,
            forall|j: int| i <= j < 8 ==> key@[j] == 70,
        decreases i,
    {
        i -= 1;
    }
    if i == 0 {
        proof {
            assert(old(key)@ =~= rep(70, 8));
            lemma_key_index_rep_max(8);
        }
        return false;
    }
    let pos: usize = i - 1;
    let x: u8 = key[pos];
    let nx: u8 = if x == 57 {
        65
    } else {
        x + 1
    };
    assert(is_sym(x) && x != 70);
    key[pos] = nx;
    let mut j: usize = i;
    while j < 8
        invariant
            i <= j <= 8,
            forall|t: int| 0 <= t < pos ==> key@[t] == old(key)@[t],
            key@[pos as int] == nx,
            forall|t: int| i <= t < j ==> key@[t] == 48,
            forall|t: int| j <= t < 8 ==> key@[t] == old(key)@[t],
        decreases 8 - j,
    {
        key[j] = 48;
        j += 1;
    }
    proof {
        let k: nat = (7 - pos) as nat;
        let pre = old(key)@.subrange(0, pos as int);
        assert(old(key)@ =~= (pre + seq![x]) + rep(70, k));
        assert(key@ =~= (pre + seq![nx]) + rep(48, k));
        lemma_key_index_append(pre + seq![x], rep(70, k));
        lemma_key_index_append(pre + seq![nx], rep(48, k));
        lemma_key_index_append(pre, seq![x]);
        lemma_key_index_append(pre, seq![nx]);
        lemma_key_index_rep_max(k);
        lemma_key_index_rep_min(k);
        assert(seq![x].drop_last() =~= Seq::<u8>::empty());
        assert(seq![nx].drop_last() =~= Seq::<u8>::empty());
        assert(key_index(Seq::<u8>::empty()) == 0);
        assert(seq![x].last() == x);
        assert(seq![nx].last() == nx);
        assert(key_index(seq![x]) == key_index(Seq::<u8>::empty()) * 16 + sym_val(x));
        assert(key_index(seq![nx]) == key_index(Seq::<u8>::empty()) * 16 + sym_val(nx));
        assert(sym_val(nx) == sym_val(x) + 1);
        assert(pow16(1) == 16 * pow16(0));
        assert(pow16(0) == 1);
        let a: int = key_index(pre);
        let p: int = pow16(k);
        let vx: int = sym_val(x);
        assert(key_index(pre + seq![x]) == a * 16 + vx);
        assert(key_index(pre + seq![nx]) == a * 16 + vx + 1);
        assert(key_index(old(key)@) == (a * 16 + vx) * p + (p - 1));
        assert(key_index(key@) == (a * 16 + vx + 1) * p);
        assert((a * 16 + vx) * p + (p - 1) + 1 == (a * 16 + vx + 1) * p) by (nonlinear_arith) {
        }
        assert(key_index(key@) == key_index(old(key)@) + 1);
        assert(forall|t: int| 0 <= t < 8 ==> is_sym(#[trigger] key@[t]));
        lemma_key_index_bounds(key@);
    }
    true
}

} // verus!
