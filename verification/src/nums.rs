//! Arithmetic ground truth shared by the codecs and parsers: decimal
//! numerals, little-endian byte strings, and the powers that bound them.

use vstd::prelude::*;

verus! {

/// The byte is an ASCII decimal digit.
pub open spec fn is_digit(b: u8) -> bool {
    48 <= b && b <= 57
}

/// Every byte of the sequence is an ASCII decimal digit.
pub open spec fn all_digits(s: Seq<u8>) -> bool {
    forall|i: int| 0 <= i < s.len() ==> is_digit(#[trigger] s[i])
}

/// Value of a decimal numeral written most-significant digit first.
pub open spec fn dec_val(s: Seq<u8>) -> nat
    decreases s.len(),
{
    if s.len() == 0 {
        0
    } else {
        (dec_val(s.drop_last()) * 10 + (s.last() - 48)) as nat
    }
}

pub open spec fn pow256(n: nat) -> nat
    decreases n,
{
    if n == 0 {
        1
    } else {
        256 * pow256((n - 1) as nat)
    }
}

/// The `n` little-endian bytes of `v`.
pub open spec fn le_bytes(v: nat, n: nat) -> Seq<u8>
    decreases n,
{
    if n == 0 {
        Seq::empty()
    } else {
        seq![(v % 256) as u8] + le_bytes(v / 256, (n - 1) as nat)
    }
}

/// Value of a little-endian byte string.
pub open spec fn le_val(s: Seq<u8>) -> nat
    decreases s.len(),
{
    if s.len() == 0 {
        0
    } else {
        (s[0] + 256 * le_val(s.skip(1))) as nat
    }
}

pub proof fn lemma_le_bytes_len(v: nat, n: nat)
    ensures
        le_bytes(v, n).len() == n,
    decreases n,
{
    if n > 0 {
        lemma_le_bytes_len(v / 256, (n - 1) as nat);
    }
}

/// A value below `256^n` is recovered exactly from its `n` little-endian bytes.
pub proof fn lemma_le_val_of_le_bytes(v: nat, n: nat)
    requires
        v < pow256(n),
    ensures
        le_val(le_bytes(v, n)) == v,
    decreases n,
{
    if n > 0 {
        assert(v == 256 * (v / 256) + v % 256);
        assert(256 * (v / 256) <= v);
        assert(v / 256 < pow256((n - 1) as nat));
        lemma_le_val_of_le_bytes(v / 256, (n - 1) as nat);
        let s = le_bytes(v, n);
        assert(s.skip(1) =~= le_bytes(v / 256, (n - 1) as nat));
        assert(le_val(s) == v % 256 + 256 * (v / 256));
    }
}

/// Consuming one more digit multiplies the prefix value by ten and adds it.
pub proof fn lemma_dec_val_take_step(s: Seq<u8>, i: int)
    requires
        0 <= i < s.len(),
        is_digit(s[i]),
    ensures
        dec_val(s.take(i + 1)) == dec_val(s.take(i)) * 10 + (s[i] - 48),
{
    assert(s.take(i + 1).drop_last() =~= s.take(i));
    assert(s.take(i + 1).last() == s[i]);
}

/// A prefix of a digit string never denotes more than the whole.
pub proof fn lemma_dec_val_prefix(s: Seq<u8>, i: int)
    requires
        all_digits(s),
        0 <= i <= s.len(),
    ensures
        dec_val(s.take(i)) <= dec_val(s),
    decreases s.len() - i,
{
    if i < s.len() {
        lemma_dec_val_take_step(s, i);
        assert(dec_val(s.take(i)) * 10 >= dec_val(s.take(i))) by (nonlinear_arith);
        lemma_dec_val_prefix(s, i + 1);
        assert(s.take(s.len() as int) =~= s);
    } else {
        assert(s.take(i) =~= s);
    }
}

pub open spec fn pow10(n: nat) -> nat
    decreases n,
{
    if n == 0 {
        1
    } else {
        10 * pow10((n - 1) as nat)
    }
}

pub proof fn lemma_pow10_le(a: nat, b: nat)
    requires
        a <= b,
    ensures
        pow10(a) <= pow10(b),
    decreases b,
{
    if a < b {
        lemma_pow10_le(a, (b - 1) as nat);
        assert(pow10(b) == 10 * pow10((b - 1) as nat));
    }
}

/// A decimal numeral of `n` digits denotes a value below `10^n`.
pub proof fn lemma_dec_val_upper(s: Seq<u8>)
    requires
        all_digits(s),
    ensures
        dec_val(s) < pow10(s.len() as nat),
    decreases s.len(),
{
    if s.len() > 0 {
        assert(all_digits(s.drop_last())) by {
            assert(forall|i: int| 0 <= i < s.len() - 1 ==> s.drop_last()[i] == s[i]);
        }
        lemma_dec_val_upper(s.drop_last());
        assert(is_digit(s.last()));
        assert(dec_val(s.drop_last()) * 10 <= (pow10((s.len() - 1) as nat) - 1) * 10) by (nonlinear_arith)
            requires
                dec_val(s.drop_last()) <= pow10((s.len() - 1) as nat) - 1,
        ;
    }
}

/// A decimal numeral with a non-zero leading digit denotes at least
/// `10^(n-1)`.
pub proof fn lemma_dec_val_lower(s: Seq<u8>)
    requires
        all_digits(s),
        s.len() >= 1,
        s[0] != 48,
    ensures
        dec_val(s) >= pow10((s.len() - 1) as nat),
    decreases s.len(),
{
    if s.len() == 1 {
        assert(dec_val(s.drop_last()) == 0) by {
            assert(s.drop_last() =~= Seq::<u8>::empty());
        }
    } else {
        assert(all_digits(s.drop_last()) && s.drop_last()[0] == s[0]) by {
            assert(forall|i: int| 0 <= i < s.len() - 1 ==> s.drop_last()[i] == s[i]);
        }
        lemma_dec_val_lower(s.drop_last());
        assert(dec_val(s.drop_last()) * 10 >= pow10((s.len() - 2) as nat) * 10) by (nonlinear_arith)
            requires
                dec_val(s.drop_last()) >= pow10((s.len() - 2) as nat),
        ;
    }
}

/// Leading zeros do not change a numeral's value.
pub proof fn lemma_dec_val_zeros(s: Seq<u8>, k: int)
    requires
        0 <= k <= s.len(),
        forall|i: int| 0 <= i < k ==> s[i] == 48,
    ensures
        dec_val(s) == dec_val(s.skip(k)),
    decreases s.len(),
{
    if s.len() == k {
        assert(s.skip(k) =~= Seq::<u8>::empty());
        lemma_dec_val_all_zero(s);
    } else {
        assert(forall|i: int| 0 <= i < k ==> s.drop_last()[i] == s[i]);
        lemma_dec_val_zeros(s.drop_last(), k);
        assert(s.drop_last().skip(k) =~= s.skip(k).drop_last());
        assert(s.skip(k).last() == s.last());
        assert(s.skip(k).len() > 0);
    }
}

proof fn lemma_dec_val_all_zero(s: Seq<u8>)
    requires
        forall|i: int| 0 <= i < s.len() ==> s[i] == 48,
    ensures
        dec_val(s) == 0,
    decreases s.len(),
{
    if s.len() > 0 {
        assert(forall|i: int| 0 <= i < s.len() - 1 ==> s.drop_last()[i] == s[i]);
        lemma_dec_val_all_zero(s.drop_last());
    }
}

/// A numeral splits: the head digits weigh `10^len` of the tail.
pub proof fn lemma_dec_val_concat(x: Seq<u8>, y: Seq<u8>)
    requires
        all_digits(y),
    ensures
        dec_val(x + y) == dec_val(x) * pow10(y.len() as nat) + dec_val(y),
    decreases y.len(),
{
    if y.len() == 0 {
        assert(x + y =~= x);
        assert(dec_val(y) == 0);
        assert(pow10(0) == 1);
        assert(dec_val(x) * 1 == dec_val(x)) by (nonlinear_arith);
    } else {
        assert((x + y).drop_last() =~= x + y.drop_last());
        assert((x + y).last() == y.last());
        assert(all_digits(y.drop_last())) by {
            assert(forall|i: int| 0 <= i < y.len() - 1 ==> y.drop_last()[i] == y[i]);
        }
        lemma_dec_val_concat(x, y.drop_last());
        let p = pow10((y.len() - 1) as nat);
        assert(pow10(y.len() as nat) == 10 * p);
        assert(is_digit(y.last()));
        assert(dec_val(x + y) == dec_val(x + y.drop_last()) * 10 + (y.last() - 48));
        assert(dec_val(y) == dec_val(y.drop_last()) * 10 + (y.last() - 48));
        assert((dec_val(x) * p + dec_val(y.drop_last())) * 10 == dec_val(x) * (10 * p)
            + dec_val(y.drop_last()) * 10) by (nonlinear_arith);
        assert(dec_val(x + y) == dec_val(x) * (10 * p) + dec_val(y));
    }
}

/// Between equal-length numerals, the first differing digit decides the
/// order.
pub proof fn lemma_dec_val_lex(a: Seq<u8>, b: Seq<u8>, j: int)
    requires
        a.len() == b.len(),
        0 <= j < a.len(),
        all_digits(a),
        all_digits(b),
        a.take(j) == b.take(j),
        a[j] < b[j],
    ensures
        dec_val(a) < dec_val(b),
{
    let l = (a.len() - j - 1) as nat;
    assert(a =~= a.take(j + 1) + a.skip(j + 1));
    assert(b =~= b.take(j + 1) + b.skip(j + 1));
    assert(all_digits(a.skip(j + 1)) && all_digits(b.skip(j + 1))) by {
        assert(forall|i: int| 0 <= i < l ==> is_digit(#[trigger] a.skip(j + 1)[i]));
        assert(forall|i: int| 0 <= i < l ==> is_digit(#[trigger] b.skip(j + 1)[i]));
    }
    lemma_dec_val_concat(a.take(j + 1), a.skip(j + 1));
    lemma_dec_val_concat(b.take(j + 1), b.skip(j + 1));
    lemma_dec_val_take_step(a, j);
    lemma_dec_val_take_step(b, j);
    lemma_dec_val_upper(a.skip(j + 1));
    let va = dec_val(a.take(j + 1));
    let vb = dec_val(b.take(j + 1));
    assert(va + 1 <= vb);
    assert(va * pow10(l) + pow10(l) <= vb * pow10(l)) by (nonlinear_arith)
        requires
            va + 1 <= vb,
    ;
}

pub proof fn lemma_pow256_le(a: nat, b: nat)
    requires
        a <= b,
    ensures
        pow256(a) <= pow256(b),
    decreases b,
{
    if a < b {
        lemma_pow256_le(a, (b - 1) as nat);
        assert(pow256(b) == 256 * pow256((b - 1) as nat));
    }
}

pub proof fn lemma_pow256_8()
    ensures
        pow256(8) == 0x10000000000000000,
{
    reveal_with_fuel(pow256, 9);
}

pub proof fn lemma_pow256_32()
    ensures
        pow256(32) == 0x10000000000000000000000000000000000000000000000000000000000000000,
{
    reveal_with_fuel(pow256, 33);
}

} // verus!
