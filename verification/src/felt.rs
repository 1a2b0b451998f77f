//! The VM's native value type: a 252-bit prime-field element, held as
//! `cairo_vm::Felt252` and modelled by its canonical integer value.

use vstd::prelude::*;
use crate::nums::{
    all_digits, dec_val, is_digit, le_bytes, le_val, pow256, pow10, lemma_dec_val_concat,
};
use cairo_vm::Felt252;

verus! {

#[verifier::external_type_specification]
#[verifier::external_body]
pub struct ExFelt(Felt252);

/// The canonical integer value a field element holds: a non-negative
/// integer below the field prime.
pub uninterp spec fn felt_val(f: Felt252) -> nat;

/// Relies on the derived `Clone` of `Felt252`, a `Copy` type: a clone is
/// the same value.
pub assume_specification[ <Felt252 as core::clone::Clone>::clone ](f: &Felt252) -> (r: Felt252)
    ensures
        r == *f,
;

/// The Stark field prime, `2^251 + 17 * 2^192 + 1`.
pub open spec fn stark_prime() -> nat {
    3618502788666131213697322783095070105623107215331596699973092056135872020481nat
}

/// A decimal token the field-element parser accepts: an optional leading
/// minus sign, then a non-empty run of digits whose value is below
/// `2^256` — the 256-bit window the parser reads before reducing modulo
/// the prime.  Zero padding is allowed and does not change the value.
pub open spec fn is_felt_token(s: Seq<u8>) -> bool {
    if s.len() > 0 && s[0] == 45 {
        s.len() >= 2 && all_digits(s.skip(1)) && dec_val(s.skip(1)) < pow256(32)
    } else {
        s.len() >= 1 && all_digits(s) && dec_val(s) < pow256(32)
    }
}

/// The decimal spelling of `2^256`, the first value the field-element
/// parser rejects.
pub open spec fn two_pow_256_digits() -> Seq<u8> {
    seq![49u8, 49u8, 53u8, 55u8, 57u8, 50u8, 48u8, 56u8, 57u8, 50u8, 51u8, 55u8, 51u8, 49u8, 54u8, 49u8, 57u8, 53u8, 52u8, 50u8, 51u8, 53u8, 55u8, 48u8, 57u8, 56u8, 53u8, 48u8, 48u8, 56u8, 54u8, 56u8, 55u8, 57u8, 48u8, 55u8, 56u8, 53u8, 51u8, 50u8, 54u8, 57u8, 57u8, 56u8, 52u8, 54u8, 54u8, 53u8, 54u8, 52u8, 48u8, 53u8, 54u8, 52u8, 48u8, 51u8, 57u8, 52u8, 53u8, 55u8, 53u8, 56u8, 52u8, 48u8, 48u8, 55u8, 57u8, 49u8, 51u8, 49u8, 50u8, 57u8, 54u8, 51u8, 57u8, 57u8, 51u8, 54u8]
}

#[verifier::rlimit(100)]
pub proof fn lemma_two_pow_256_digits()
    ensures
        two_pow_256_digits().len() == 78,
        all_digits(two_pow_256_digits()),
        two_pow_256_digits()[0] != 48,
        dec_val(two_pow_256_digits()) == pow256(32),
{
    let s = two_pow_256_digits();
    assert(all_digits(s)) by {
        assert(forall|i: int| 0 <= i < s.len() ==> is_digit(#[trigger] s[i]));
    }
    let a = s.take(39);
    let b = s.skip(39);
    assert(s =~= a + b);
    assert(all_digits(b)) by {
        assert(forall|i: int| 0 <= i < b.len() ==> is_digit(#[trigger] b[i]));
    }
    assert(dec_val(a) == 115792089237316195423570985008687907853nat) by {
        reveal_with_fuel(dec_val, 41);
    }
    assert(dec_val(b) == 269984665640564039457584007913129639936nat) by {
        reveal_with_fuel(dec_val, 41);
    }
    lemma_dec_val_concat(a, b);
    assert(pow10(39) == 1000000000000000000000000000000000000000nat) by {
        reveal_with_fuel(pow10, 41);
    }
    crate::nums::lemma_pow256_32();
}

#[verifier::rlimit(100)]
pub proof fn lemma_pow10_77_lt()
    ensures
        pow10(77) < pow256(32),
        pow256(32) < pow10(78),
{
    assert(pow10(78) == 10 * pow10(77));
    assert(pow10(77) == 100000000000000000000000000000000000000000000000000000000000000000000000000000nat)
        by {
        reveal_with_fuel(pow10, 79);
    }
    crate::nums::lemma_pow256_32();
}

/// The field value a felt token denotes: the numeral's value reduced
/// modulo the prime, negated for a leading minus sign.
pub open spec fn felt_of_dec(s: Seq<u8>) -> nat {
    if s.len() > 0 && s[0] == 45 {
        (((stark_prime() - dec_val(s.skip(1)) % stark_prime()) as nat) % stark_prime()) as nat
    } else {
        dec_val(s) % stark_prime()
    }
}

/// Relies on `Felt252::from_dec_str` (and the 256-bit unsigned parser
/// under it): a non-empty digit string whose value is below `2^256`,
/// optionally signed, always parses, to its value reduced modulo the
/// prime — a leading minus negates in the field.  Larger values are left
/// out: past the 256-bit window the parser's behaviour is not relied on.
#[verifier::external_body]
pub(crate) fn felt_from_token(s: &[u8]) -> (r: Felt252)
    requires
        is_felt_token(s@),
    ensures
        felt_val(r) == felt_of_dec(s@),
{
    let t = core::str::from_utf8(s).unwrap();
    Felt252::from_dec_str(t).unwrap()
}

/// Relies on `Felt252::to_bytes_le`: the canonical (reduced) value in 32
/// little-endian bytes.
#[verifier::external_body]
pub(crate) fn felt_to_bytes_le(f: &Felt252) -> (r: Vec<u8>)
    ensures
        r@ == le_bytes(felt_val(*f), 32),
{
    f.to_bytes_le().to_vec()
}

/// Relies on `Felt252::from_bytes_le`: 32 little-endian bytes are read as
/// a 256-bit integer and reduced modulo the prime.
#[verifier::external_body]
pub(crate) fn felt_from_bytes_le(b: &[u8]) -> (r: Felt252)
    requires
        b@.len() == 32,
    ensures
        felt_val(r) == le_val(b@) % stark_prime(),
{
    Felt252::from_bytes_le(b.try_into().unwrap())
}

} // verus!
