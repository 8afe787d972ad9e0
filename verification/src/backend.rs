//! The limb arithmetic for the modulus `n`, taken from `fiat-crypto`.
//!
//! No contract of a function here is proved: each restates what the
//! generated code documents of itself. All of it works on saturated 64-bit
//! limbs, least significant first, and runs in constant time.

use crate::bytes::le_bytes_value;
use crate::divstep::{divstep, divstep_bounded, DivstepState};
use crate::field::{
    field_add, field_mul, field_neg, field_pow, field_sub, limbs_value, mont_decode, order, radix,
};
use vstd::prelude::*;

verus! {

/// The number that seven 64-bit limbs stand for in two's complement, least
/// significant limb first: the top bit of the last limb is the sign.
pub open spec fn signed_limbs_value(limbs: Seq<u64>) -> int
    recommends
        limbs.len() == 7,
{
    let low = limbs_value(limbs.subrange(0, 6)) as int;
    let top = limbs[6] as int;
    let unsigned = low + top
        * 0x1_0000000000000000_0000000000000000_0000000000000000_0000000000000000_0000000000000000_0000000000000000int;
    if top < 0x8000000000000000 {
        unsigned
    } else {
        unsigned
            - 0x1_0000000000000000_0000000000000000_0000000000000000_0000000000000000_0000000000000000_0000000000000000_0000000000000000int
    }
}

/// The number that a 64-bit word stands for in two's complement.
pub open spec fn signed_word(word: u64) -> int {
    if word < 0x8000000000000000 {
        word as int
    } else {
        word - 0x1_0000000000000000
    }
}

/// The state of the inversion in limbs: `d` as a word in two's complement,
/// `f` and `g` as seven limbs in two's complement, `v` and `r` in the
/// Montgomery domain.
pub struct DivstepLimbs {
    pub d: u64,
    pub f: [u64; 7],
    pub g: [u64; 7],
    pub v: [u64; 6],
    pub r: [u64; 6],
}

impl DivstepLimbs {
    /// The numbers that the limbs stand for.
    pub open spec fn model(self) -> DivstepState {
        DivstepState {
            d: signed_word(self.d),
            f: signed_limbs_value(self.f@),
            g: signed_limbs_value(self.g@),
            v: mont_decode(limbs_value(self.v@)),
            r: mont_decode(limbs_value(self.r@)),
        }
    }

    /// `v` and `r` are reduced.
    pub open spec fn reduced(self) -> bool {
        limbs_value(self.v@) < order() && limbs_value(self.r@) < order()
    }
}

/// `fiat_p384_scalar_mul`: the product of two reduced Montgomery-domain
/// elements, reduced.
#[verifier::external_body]
pub(crate) fn fe_mul(a: &[u64; 6], b: &[u64; 6]) -> (out: [u64; 6])
    requires
        limbs_value(a@) < order(),
        limbs_value(b@) < order(),
    ensures
        limbs_value(out@) < order(),
        mont_decode(limbs_value(out@)) == field_mul(
            mont_decode(limbs_value(a@)),
            mont_decode(limbs_value(b@)),
        ),
{
    let mut out = [0u64; 6];
    fiat_crypto::p384_scalar_64::fiat_p384_scalar_mul(&mut out, a, b);
    out
}

/// `fiat_p384_scalar_square`: the square of a reduced Montgomery-domain
/// element, reduced.
#[verifier::external_body]
pub(crate) fn fe_square(a: &[u64; 6]) -> (out: [u64; 6])
    requires
        limbs_value(a@) < order(),
    ensures
        limbs_value(out@) < order(),
        mont_decode(limbs_value(out@)) == field_mul(
            mont_decode(limbs_value(a@)),
            mont_decode(limbs_value(a@)),
        ),
{
    let mut out = [0u64; 6];
    fiat_crypto::p384_scalar_64::fiat_p384_scalar_square(&mut out, a);
    out
}

/// `fiat_p384_scalar_add`: the sum of two reduced Montgomery-domain elements,
/// reduced.
#[verifier::external_body]
pub(crate) fn fe_add(a: &[u64; 6], b: &[u64; 6]) -> (out: [u64; 6])
    requires
        limbs_value(a@) < order(),
        limbs_value(b@) < order(),
    ensures
        limbs_value(out@) < order(),
        mont_decode(limbs_value(out@)) == field_add(
            mont_decode(limbs_value(a@)),
            mont_decode(limbs_value(b@)),
        ),
{
    let mut out = [0u64; 6];
    fiat_crypto::p384_scalar_64::fiat_p384_scalar_add(&mut out, a, b);
    out
}

/// `fiat_p384_scalar_sub`: the difference of two reduced Montgomery-domain
/// elements, reduced.
#[verifier::external_body]
pub(crate) fn fe_sub(a: &[u64; 6], b: &[u64; 6]) -> (out: [u64; 6])
    requires
        limbs_value(a@) < order(),
        limbs_value(b@) < order(),
    ensures
        limbs_value(out@) < order(),
        mont_decode(limbs_value(out@)) == field_sub(
            mont_decode(limbs_value(a@)),
            mont_decode(limbs_value(b@)),
        ),
{
    let mut out = [0u64; 6];
    fiat_crypto::p384_scalar_64::fiat_p384_scalar_sub(&mut out, a, b);
    out
}

/// `fiat_p384_scalar_opp`: the negation of a reduced Montgomery-domain
/// element, reduced.
#[verifier::external_body]
pub(crate) fn fe_opp(a: &[u64; 6]) -> (out: [u64; 6])
    requires
        limbs_value(a@) < order(),
    ensures
        limbs_value(out@) < order(),
        mont_decode(limbs_value(out@)) == field_neg(mont_decode(limbs_value(a@))),
{
    let mut out = [0u64; 6];
    fiat_crypto::p384_scalar_64::fiat_p384_scalar_opp(&mut out, a);
    out
}

/// `fiat_p384_scalar_from_montgomery`: the element that reduced
/// Montgomery-domain limbs stand for, as a reduced number. The generated code
/// states the factor as `((2^64)^-1 mod n)^6`, which is `radix_inverse()`
/// modulo `n`: see `lemma_radix_inverse_by_words`.
#[verifier::external_body]
pub(crate) fn fe_from_montgomery(a: &[u64; 6]) -> (out: [u64; 6])
    requires
        limbs_value(a@) < order(),
    ensures
        limbs_value(out@) == mont_decode(limbs_value(a@)),
{
    let mut out = [0u64; 6];
    fiat_crypto::p384_scalar_64::fiat_p384_scalar_from_montgomery(&mut out, a);
    out
}

/// `fiat_p384_scalar_to_montgomery`: reduced Montgomery-domain limbs that
/// stand for a reduced number.
#[verifier::external_body]
pub(crate) fn fe_to_montgomery(a: &[u64; 6]) -> (out: [u64; 6])
    requires
        limbs_value(a@) < order(),
    ensures
        limbs_value(out@) < order(),
        mont_decode(limbs_value(out@)) == limbs_value(a@),
{
    let mut out = [0u64; 6];
    fiat_crypto::p384_scalar_64::fiat_p384_scalar_to_montgomery(&mut out, a);
    out
}

/// `fiat_p384_scalar_selectznz`: the first array where the flag is 0, the
/// second where it is 1, read without branching.
#[verifier::external_body]
pub(crate) fn fe_selectznz(flag: u8, a: &[u64; 6], b: &[u64; 6]) -> (out: [u64; 6])
    requires
        flag == 0 || flag == 1,
    ensures
        out == (if flag == 0 {
            *a
        } else {
            *b
        }),
{
    let mut out = [0u64; 6];
    fiat_crypto::p384_scalar_64::fiat_p384_scalar_selectznz(&mut out, flag, a, b);
    out
}

/// `fiat_p384_scalar_to_bytes`: the 48 little-endian bytes of a reduced number.
#[verifier::external_body]
pub(crate) fn fe_to_bytes(a: &[u64; 6]) -> (out: [u8; 48])
    requires
        limbs_value(a@) < order(),
    ensures
        le_bytes_value(out@) == limbs_value(a@),
{
    let mut out = [0u8; 48];
    fiat_crypto::p384_scalar_64::fiat_p384_scalar_to_bytes(&mut out, a);
    out
}

/// `fiat_p384_scalar_from_bytes`: the limbs of the reduced number that 48
/// little-endian bytes stand for.
#[verifier::external_body]
pub(crate) fn fe_from_bytes(bytes: &[u8; 48]) -> (out: [u64; 6])
    requires
        le_bytes_value(bytes@) < order(),
    ensures
        limbs_value(out@) == le_bytes_value(bytes@),
{
    let mut out = [0u64; 6];
    fiat_crypto::p384_scalar_64::fiat_p384_scalar_from_bytes(&mut out, bytes);
    out
}

/// `fiat_p384_scalar_set_one`: the element one in the Montgomery domain.
#[verifier::external_body]
pub(crate) fn fe_set_one() -> (out: [u64; 6])
    ensures
        limbs_value(out@) < order(),
        mont_decode(limbs_value(out@)) == 1,
{
    let mut out = [0u64; 6];
    fiat_crypto::p384_scalar_64::fiat_p384_scalar_set_one(&mut out);
    out
}

/// `fiat_p384_scalar_msat`: the modulus in seven limbs, two's complement.
#[verifier::external_body]
pub(crate) fn fe_msat() -> (out: [u64; 7])
    ensures
        signed_limbs_value(out@) == order(),
{
    let mut out = [0u64; 7];
    fiat_crypto::p384_scalar_64::fiat_p384_scalar_msat(&mut out);
    out
}

/// `fiat_p384_scalar_divstep_precomp`: the element `((n - 1) / 2)^1110` in
/// the Montgomery domain, 1110 being the number of division steps that a
/// 384-bit modulus takes.
#[verifier::external_body]
pub(crate) fn fe_divstep_precomp() -> (out: [u64; 6])
    ensures
        limbs_value(out@) < order(),
        mont_decode(limbs_value(out@)) == field_pow(((order() - 1) / 2) as nat, 1110),
{
    let mut out = [0u64; 6];
    fiat_crypto::p384_scalar_64::fiat_p384_scalar_divstep_precomp(&mut out);
    out
}

/// `fiat_p384_scalar_divstep`: one division step.
///
/// The generated code documents the step as `divstep` states it, but for the
/// new `r` where `f` and `g` change places, which it prints as `v - v`; the
/// code computes `r - v`, as the algorithm asks. It reads the parity of `-f`
/// where it should add `g` to it, so `f` has to be odd. It works in 448-bit
/// and 64-bit two's complement, so `f`, `g` and `d` have to leave room for a
/// sum and for one more step: `f` and `g` within `2^384` of zero, `d` within
/// `2^62`.
#[verifier::external_body]
pub(crate) fn fe_divstep(s: &DivstepLimbs) -> (out: DivstepLimbs)
    requires
        s.reduced(),
        divstep_bounded(s.model(), radix() as int),
        -0x4000000000000000 < s.model().d < 0x4000000000000000,
    ensures
        out.reduced(),
        out.model() == divstep(s.model()),
{
    let mut out = DivstepLimbs { d: 0, f: [0u64; 7], g: [0u64; 7], v: [0u64; 6], r: [0u64; 6] };
    fiat_crypto::p384_scalar_64::fiat_p384_scalar_divstep(
        &mut out.d, &mut out.f, &mut out.g, &mut out.v, &mut out.r, s.d, &s.f, &s.g, &s.v, &s.r,
    );
    out
}

} // verus!
