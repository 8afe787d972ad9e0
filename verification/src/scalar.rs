//! Elements of the scalar field: the type, its encodings and its arithmetic.

use crate::backend::{
    fe_add, fe_from_bytes, fe_from_montgomery, fe_mul, fe_opp, fe_selectznz, fe_set_one,
    fe_square, fe_sub, fe_to_bytes, fe_to_montgomery,
};
use crate::bytes::{
    be_bytes_value, le_bytes_value, le_suffix_value, lemma_le_suffix_ends, lemma_le_suffix_step,
    lemma_reverse_twice, swap48,
};
use crate::ct::{
    choice_and, choice_bit, choice_from, choice_is_set, option_is_some, option_new,
    option_reveal, option_value, u64_ct_eq,
};
use crate::field::{
    field_add, field_mul, field_neg, field_pow, field_sub, lemma_field_pow_one,
    lemma_field_pow_square, lemma_limbs_of, lemma_limbs_value_injective,
    lemma_mont_decode_bound, lemma_mont_decode_injective, lemma_mont_encode_decodes,
    lemma_order_bounds, limbs_of, limbs_value, mont_decode, mont_encode, order, radix_inverse,
};
use crate::uint::{uint_from_words, uint_to_le_bytes, uint_value};
use core::ops::{Add, Mul, Neg, Sub};
use elliptic_curve::bigint::U384;
use elliptic_curve::subtle::{Choice, ConditionallySelectable, ConstantTimeEq, CtOption};
use vstd::arithmetic::power2::{lemma2_to64, lemma_pow2_unfold, pow2};
use vstd::array::{spec_array_fill_for_copy_type, spec_array_update};
use vstd::prelude::*;
use vstd::std_specs::ops::{
    AddSpec, AddSpecImpl, MulSpec, MulSpecImpl, NegSpecImpl, SubSpecImpl,
};

verus! {

/// Why a byte string or an integer is no scalar.
#[derive(Clone, Copy, Debug, PartialEq, Eq)]
pub enum Error {
    /// The number is not below the order of the group.
    NonCanonicalEncoding,
}

/// An element of the field of integers modulo `order()`.
///
/// It is held as six limbs in the Montgomery domain, reduced. Its view is the
/// element itself, a number below `order()`.
#[derive(Clone, Copy, Debug, PartialEq, Eq)]
pub struct Scalar {
    pub(crate) limbs: [u64; 6],
}

impl View for Scalar {
    type V = nat;

    open(crate) spec fn view(&self) -> nat {
        mont_decode(limbs_value(self.limbs@))
    }
}

impl Scalar {
    /// The limbs stand for a number below the order. This holds of every
    /// scalar that a program can get hold of.
    #[verifier::type_invariant]
    pub open(crate) spec fn is_reduced(self) -> bool {
        limbs_value(self.limbs@) < order()
    }

    /// The reduced scalar whose value is `v`.
    pub open(crate) spec fn of_value(v: nat) -> Scalar {
        choose|s: Scalar| s.is_reduced() && s@ == v
    }

    /// A reduced scalar is determined by its value.
    pub proof fn lemma_value_determines(a: Scalar, b: Scalar)
        requires
            a.is_reduced(),
            b.is_reduced(),
            a@ == b@,
        ensures
            a == b,
    {
        lemma_mont_decode_injective(limbs_value(a.limbs@), limbs_value(b.limbs@));
        lemma_limbs_value_injective(a.limbs@, b.limbs@);
        assert(a.limbs =~= b.limbs);
    }

    /// The value of a scalar is below the order.
    pub proof fn lemma_value_bound(s: Scalar)
        ensures
            s@ < order(),
    {
        lemma_mont_decode_bound(limbs_value(s.limbs@));
    }

    /// `of_value` gives back the scalar that the value was read from.
    pub proof fn lemma_of_value(s: Scalar)
        requires
            s.is_reduced(),
        ensures
            Scalar::of_value(s@) == s,
    {
        let t = Scalar::of_value(s@);
        assert(t.is_reduced() && t@ == s@);
        Scalar::lemma_value_determines(t, s);
    }

    /// Every field element is the value of a reduced scalar, and `of_value`
    /// names it.
    pub proof fn lemma_of_value_exists(v: nat)
        requires
            v < order(),
        ensures
            Scalar::of_value(v).is_reduced(),
            Scalar::of_value(v)@ == v,
    {
        let x = mont_encode(v);
        lemma_mont_encode_decodes(v);
        lemma_order_bounds();
        lemma_limbs_of(x);
        let digits = limbs_of(x);
        let a0 = spec_array_fill_for_copy_type::<u64, 6>(0);
        let a1 = spec_array_update(a0, 0, digits[0]);
        let a2 = spec_array_update(a1, 1, digits[1]);
        let a3 = spec_array_update(a2, 2, digits[2]);
        let a4 = spec_array_update(a3, 3, digits[3]);
        let a5 = spec_array_update(a4, 4, digits[4]);
        let a6 = spec_array_update(a5, 5, digits[5]);
        let witness = Scalar { limbs: a6 };
        assert(a6@ =~= digits);
        assert(witness.is_reduced() && witness@ == v);
    }

    /// The additive identity.
    pub fn zero() -> (r: Scalar)
        ensures
            r@ == 0,
    {
        let limbs = [0u64; 6];
        proof {
            lemma_order_bounds();
            assert(limbs@[0] == 0 && limbs@[1] == 0 && limbs@[2] == 0 && limbs@[3] == 0
                && limbs@[4] == 0 && limbs@[5] == 0);
            assert(limbs_value(limbs@) == 0);
            assert(0nat * radix_inverse() == 0);
        }
        Scalar { limbs }
    }

    /// The multiplicative identity.
    pub fn one() -> (r: Scalar)
        ensures
            r@ == 1,
    {
        Scalar { limbs: fe_set_one() }
    }

    /// Twice the scalar: the scalar added to itself.
    pub fn double(&self) -> (r: Scalar)
        ensures
            r@ == field_add(self@, self@),
            r == AddSpec::add_spec(*self, *self),
    {
        proof {
            use_type_invariant(self);
        }
        let r = Scalar { limbs: fe_add(&self.limbs, &self.limbs) };
        proof {
            Scalar::lemma_of_value(r);
        }
        r
    }

    /// The square of the scalar: the scalar times itself.
    #[must_use]
    pub fn square(&self) -> (r: Scalar)
        ensures
            r@ == field_mul(self@, self@),
            r == MulSpec::mul_spec(*self, *self),
    {
        proof {
            use_type_invariant(self);
        }
        let r = Scalar { limbs: fe_square(&self.limbs) };
        proof {
            Scalar::lemma_of_value(r);
        }
        r
    }

    /// The square, squared again and again: `self^(2^n)`.
    pub fn sqn(&self, n: usize) -> (r: Scalar)
        ensures
            r@ == field_pow(self@, pow2(n as nat)),
    {
        let mut x = *self;
        let mut i: usize = 0;
        proof {
            use_type_invariant(self);
            lemma_mont_decode_bound(limbs_value(self.limbs@));
            lemma_field_pow_one(self@);
            lemma2_to64();
        }
        while i < n
            invariant
                i <= n,
                x@ == field_pow(self@, pow2(i as nat)),
            decreases n - i,
        {
            proof {
                lemma_field_pow_square(self@, pow2(i as nat));
                lemma_pow2_unfold((i + 1) as nat);
            }
            x = x.square();
            i += 1;
        }
        x
    }

    /// The limbs of the element itself, out of the Montgomery domain.
    pub(crate) fn to_non_mont(&self) -> (limbs: [u64; 6])
        ensures
            limbs_value(limbs@) == self@,
            limbs_value(limbs@) < order(),
    {
        proof {
            use_type_invariant(self);
            lemma_mont_decode_bound(limbs_value(self.limbs@));
        }
        fe_from_montgomery(&self.limbs)
    }

    /// The scalar that 48 little-endian bytes stand for, where it is below
    /// the order.
    ///
    /// The bytes are held against those of the order from the most
    /// significant down, with two running flags and no branch: `equal` says
    /// that no byte has differed so far, `less` that the first byte that
    /// differed was the smaller. So the time taken does not tell where the
    /// two first differ. Bytes that pass go into limbs, and the limbs into the
    /// Montgomery domain.
    pub fn from_le_bytes(bytes: &[u8; 48]) -> (r: Result<Scalar, Error>)
        ensures
            match r {
                Ok(s) => le_bytes_value(bytes@) < order() && s@ == le_bytes_value(bytes@),
                Err(e) => le_bytes_value(bytes@) >= order() && e == Error::NonCanonicalEncoding,
            },
    {
        let order_le = uint_to_le_bytes(&order_uint());
        let mut less: u8 = 0;
        let mut equal: u8 = 1;
        let mut i: usize = 48;
        proof {
            lemma_le_suffix_ends(bytes@);
            lemma_le_suffix_ends(order_le@);
        }
        while i > 0
            invariant
                i <= 48,
                less <= 1,
                equal <= 1,
                (equal == 1) <==> le_suffix_value(bytes@, i as int) == le_suffix_value(
                    order_le@,
                    i as int,
                ),
                (less == 1) <==> le_suffix_value(bytes@, i as int) < le_suffix_value(
                    order_le@,
                    i as int,
                ),
            decreases i,
        {
            i -= 1;
            let below = mask_if_less(bytes[i], order_le[i]);
            let same = mask_if_equal(bytes[i], order_le[i]);
            proof {
                lemma_le_suffix_step(bytes@, i as int);
                lemma_le_suffix_step(order_le@, i as int);
                assert(below == 0xff && equal <= 1 ==> below & equal == equal) by (bit_vector);
                assert(below == 0 ==> below & equal == 0) by (bit_vector);
                assert(same == 0xff && equal <= 1 ==> equal & same == equal) by (bit_vector);
                assert(same == 0 ==> equal & same == 0) by (bit_vector);
                let now = below & equal;
                assert(less <= 1 && now <= 1 ==> (less | now) <= 1 && ((less | now) == 1 <==> (less
                    == 1 || now == 1))) by (bit_vector);
            }
            less |= below & equal;
            equal &= same;
        }
        if less == 0 {
            return Err(Error::NonCanonicalEncoding);
        }
        let non_mont = fe_from_bytes(bytes);
        let mont = fe_to_montgomery(&non_mont);
        Ok(Scalar { limbs: mont })
    }

    /// The scalar that 48 big-endian bytes stand for, where it is below the
    /// order.
    pub fn from_be_bytes(bytes: &[u8; 48]) -> (r: Result<Scalar, Error>)
        ensures
            match r {
                Ok(s) => be_bytes_value(bytes@) < order() && s@ == be_bytes_value(bytes@),
                Err(e) => be_bytes_value(bytes@) >= order() && e == Error::NonCanonicalEncoding,
            },
    {
        Scalar::from_le_bytes(&swap48(bytes))
    }

    /// The 48 little-endian bytes of the scalar.
    pub fn to_le_bytes(&self) -> (bytes: [u8; 48])
        ensures
            le_bytes_value(bytes@) == self@,
    {
        let non_mont = self.to_non_mont();
        fe_to_bytes(&non_mont)
    }

    /// The 48 big-endian bytes of the scalar.
    pub fn to_be_bytes(&self) -> (bytes: [u8; 48])
        ensures
            be_bytes_value(bytes@) == self@,
    {
        let le = self.to_le_bytes();
        proof {
            lemma_reverse_twice(le@);
        }
        swap48(&le)
    }

    /// The SEC1 encoding of the scalar: its 48 big-endian bytes.
    pub fn to_bytes(&self) -> (bytes: [u8; 48])
        ensures
            be_bytes_value(bytes@) == self@,
    {
        self.to_be_bytes()
    }

    /// The scalar that 48 big-endian bytes stand for, as a constant-time
    /// option: some exactly where the number is below the order.
    pub fn from_repr(bytes: [u8; 48]) -> (r: CtOption<Scalar>)
        ensures
            option_is_some(r) == (be_bytes_value(bytes@) < order()),
            option_value(r)@ == (if be_bytes_value(bytes@) < order() {
                be_bytes_value(bytes@)
            } else {
                0
            }),
            option_value(r).is_reduced(),
    {
        match Scalar::from_be_bytes(&bytes) {
            Ok(s) => {
                proof {
                    use_type_invariant(s);
                }
                option_new(s, choice_from(1))
            },
            Err(_) => {
                let z = Scalar::zero();
                proof {
                    use_type_invariant(z);
                }
                option_new(z, choice_from(0))
            },
        }
    }

    /// The 48 big-endian bytes of the scalar.
    pub fn to_repr(&self) -> (bytes: [u8; 48])
        ensures
            be_bytes_value(bytes@) == self@,
    {
        self.to_be_bytes()
    }

    /// What a sampler does with 48 fresh random bytes: the scalar they stand
    /// for, or nothing where they have to be drawn again.
    pub fn from_random_bytes(bytes: [u8; 48]) -> (r: Option<Scalar>)
        ensures
            match r {
                Some(s) => be_bytes_value(bytes@) < order() && s@ == be_bytes_value(bytes@),
                None => be_bytes_value(bytes@) >= order(),
            },
    {
        option_reveal(Scalar::from_repr(bytes))
    }

    /// Whether two scalars are equal, in constant time: every limb is
    /// compared, whatever the earlier ones gave.
    pub fn ct_eq(&self, rhs: &Scalar) -> (c: Choice)
        ensures
            choice_is_set(c) == (self@ == rhs@),
            choice_is_set(c) == (*self == *rhs),
    {
        let mut acc = choice_from(1);
        let mut i: usize = 0;
        while i < 6
            invariant
                i <= 6,
                choice_is_set(acc) == (forall|j: int| 0 <= j < i ==> self.limbs@[j] == rhs.limbs@[j]),
            decreases 6 - i,
        {
            acc = choice_and(acc, u64_ct_eq(self.limbs[i], rhs.limbs[i]));
            i += 1;
        }
        proof {
            use_type_invariant(self);
            use_type_invariant(rhs);
            if self@ == rhs@ {
                Scalar::lemma_value_determines(*self, *rhs);
            }
            if choice_is_set(acc) {
                assert(self.limbs@ =~= rhs.limbs@);
                assert(self.limbs == rhs.limbs);
            }
        }
        acc
    }

    /// Whether the scalar is zero, in constant time.
    pub fn is_zero(&self) -> (c: Choice)
        ensures
            choice_is_set(c) == (self@ == 0),
    {
        Scalar::zero().ct_eq(self)
    }

    /// The second scalar where the flag is set, the first where it is not,
    /// read limb by limb without branching.
    pub fn conditional_select(a: &Scalar, b: &Scalar, choice: Choice) -> (r: Scalar)
        ensures
            r == (if choice_is_set(choice) {
                *b
            } else {
                *a
            }),
    {
        proof {
            use_type_invariant(a);
            use_type_invariant(b);
        }
        Scalar { limbs: fe_selectznz(choice_bit(choice), &a.limbs, &b.limbs) }
    }

    /// The limbs of the order of the group, least significant first.
    pub fn char_le_bits() -> (limbs: [u64; 6])
        ensures
            limbs_value(limbs@) == order(),
    {
        let limbs = [
            0xecec196accc52973u64,
            0x581a0db248b0a77au64,
            0xc7634d81f4372ddfu64,
            0xffffffffffffffffu64,
            0xffffffffffffffffu64,
            0xffffffffffffffffu64,
        ];
        proof {
            reveal(order);
        }
        limbs
    }

    /// The limbs of the element itself, least significant first.
    pub fn to_le_bits(&self) -> (limbs: [u64; 6])
        ensures
            limbs_value(limbs@) == self@,
    {
        self.to_non_mont()
    }
}

/// The order of the group as a 384-bit integer.
pub fn order_uint() -> (n: U384)
    ensures
        uint_value(n) == order(),
{
    uint_from_words(Scalar::char_le_bits())
}

/// `0xff` where `a < b` and `0` where not, without branching.
fn mask_if_less(a: u8, b: u8) -> (mask: u8)
    ensures
        mask == (if a < b {
            0xffu8
        } else {
            0u8
        }),
{
    let d: u16 = (a as u16).wrapping_sub(b as u16);
    let hi: u16 = d >> 8;
    proof {
        assert(d >= 0xff01 ==> d >> 8 == 0xff) by (bit_vector);
        assert(d <= 0xff ==> d >> 8 == 0) by (bit_vector);
    }
    hi as u8
}

/// `0xff` where `a == b` and `0` where not, without branching.
fn mask_if_equal(a: u8, b: u8) -> (mask: u8)
    ensures
        mask == (if a == b {
            0xffu8
        } else {
            0u8
        }),
{
    let x: u8 = a ^ b;
    let d: u16 = (x as u16).wrapping_sub(1);
    let hi: u16 = d >> 8;
    proof {
        assert((a ^ b) == 0 <==> a == b) by (bit_vector);
        assert(d == 0xffff ==> d >> 8 == 0xff) by (bit_vector);
        assert(d <= 0xff ==> d >> 8 == 0) by (bit_vector);
    }
    hi as u8
}

impl AddSpecImpl<Scalar> for Scalar {
    open(crate) spec fn obeys_add_spec() -> bool {
        true
    }

    open(crate) spec fn add_req(self, other: Scalar) -> bool {
        true
    }

    open(crate) spec fn add_spec(self, other: Scalar) -> Scalar {
        Scalar::of_value(field_add(self@, other@))
    }
}

impl Add<Scalar> for Scalar {
    type Output = Scalar;

    fn add(self, other: Scalar) -> (r: Scalar)
        ensures
            r@ == field_add(self@, other@),
    {
        proof {
            use_type_invariant(self);
            use_type_invariant(other);
        }
        let r = Scalar { limbs: fe_add(&self.limbs, &other.limbs) };
        proof {
            Scalar::lemma_of_value(r);
        }
        r
    }
}

impl AddSpecImpl<&Scalar> for Scalar {
    open(crate) spec fn obeys_add_spec() -> bool {
        true
    }

    open(crate) spec fn add_req(self, other: &Scalar) -> bool {
        true
    }

    open(crate) spec fn add_spec(self, other: &Scalar) -> Scalar {
        Scalar::of_value(field_add(self@, other@))
    }
}

impl Add<&Scalar> for Scalar {
    type Output = Scalar;

    fn add(self, other: &Scalar) -> (r: Scalar)
        ensures
            r@ == field_add(self@, other@),
    {
        proof {
            use_type_invariant(self);
            use_type_invariant(other);
        }
        let r = Scalar { limbs: fe_add(&self.limbs, &other.limbs) };
        proof {
            Scalar::lemma_of_value(r);
        }
        r
    }
}

impl SubSpecImpl<Scalar> for Scalar {
    open(crate) spec fn obeys_sub_spec() -> bool {
        true
    }

    open(crate) spec fn sub_req(self, other: Scalar) -> bool {
        true
    }

    open(crate) spec fn sub_spec(self, other: Scalar) -> Scalar {
        Scalar::of_value(field_sub(self@, other@))
    }
}

impl Sub<Scalar> for Scalar {
    type Output = Scalar;

    fn sub(self, other: Scalar) -> (r: Scalar)
        ensures
            r@ == field_sub(self@, other@),
    {
        proof {
            use_type_invariant(self);
            use_type_invariant(other);
        }
        let r = Scalar { limbs: fe_sub(&self.limbs, &other.limbs) };
        proof {
            Scalar::lemma_of_value(r);
        }
        r
    }
}

impl SubSpecImpl<&Scalar> for Scalar {
    open(crate) spec fn obeys_sub_spec() -> bool {
        true
    }

    open(crate) spec fn sub_req(self, other: &Scalar) -> bool {
        true
    }

    open(crate) spec fn sub_spec(self, other: &Scalar) -> Scalar {
        Scalar::of_value(field_sub(self@, other@))
    }
}

impl Sub<&Scalar> for Scalar {
    type Output = Scalar;

    fn sub(self, other: &Scalar) -> (r: Scalar)
        ensures
            r@ == field_sub(self@, other@),
    {
        proof {
            use_type_invariant(self);
            use_type_invariant(other);
        }
        let r = Scalar { limbs: fe_sub(&self.limbs, &other.limbs) };
        proof {
            Scalar::lemma_of_value(r);
        }
        r
    }
}

impl MulSpecImpl<Scalar> for Scalar {
    open(crate) spec fn obeys_mul_spec() -> bool {
        true
    }

    open(crate) spec fn mul_req(self, other: Scalar) -> bool {
        true
    }

    open(crate) spec fn mul_spec(self, other: Scalar) -> Scalar {
        Scalar::of_value(field_mul(self@, other@))
    }
}

impl Mul<Scalar> for Scalar {
    type Output = Scalar;

    fn mul(self, other: Scalar) -> (r: Scalar)
        ensures
            r@ == field_mul(self@, other@),
    {
        proof {
            use_type_invariant(self);
            use_type_invariant(other);
        }
        let r = Scalar { limbs: fe_mul(&self.limbs, &other.limbs) };
        proof {
            Scalar::lemma_of_value(r);
        }
        r
    }
}

impl MulSpecImpl<&Scalar> for Scalar {
    open(crate) spec fn obeys_mul_spec() -> bool {
        true
    }

    open(crate) spec fn mul_req(self, other: &Scalar) -> bool {
        true
    }

    open(crate) spec fn mul_spec(self, other: &Scalar) -> Scalar {
        Scalar::of_value(field_mul(self@, other@))
    }
}

impl Mul<&Scalar> for Scalar {
    type Output = Scalar;

    fn mul(self, other: &Scalar) -> (r: Scalar)
        ensures
            r@ == field_mul(self@, other@),
    {
        proof {
            use_type_invariant(self);
            use_type_invariant(other);
        }
        let r = Scalar { limbs: fe_mul(&self.limbs, &other.limbs) };
        proof {
            Scalar::lemma_of_value(r);
        }
        r
    }
}

impl NegSpecImpl for Scalar {
    open(crate) spec fn obeys_neg_spec() -> bool {
        true
    }

    open(crate) spec fn neg_req(self) -> bool {
        true
    }

    open(crate) spec fn neg_spec(self) -> Scalar {
        Scalar::of_value(field_neg(self@))
    }
}

impl Neg for Scalar {
    type Output = Scalar;

    fn neg(self) -> (r: Scalar)
        ensures
            r@ == field_neg(self@),
    {
        proof {
            use_type_invariant(self);
        }
        let r = Scalar { limbs: fe_opp(&self.limbs) };
        proof {
            Scalar::lemma_of_value(r);
        }
        r
    }
}

impl ConditionallySelectable for Scalar {
    fn conditional_select(a: &Scalar, b: &Scalar, choice: Choice) -> (r: Scalar)
        ensures
            r == (if choice_is_set(choice) {
                *b
            } else {
                *a
            }),
    {
        Scalar::conditional_select(a, b, choice)
    }
}

impl ConstantTimeEq for Scalar {
    fn ct_eq(&self, rhs: &Scalar) -> (c: Choice)
        ensures
            choice_is_set(c) == (self@ == rhs@),
    {
        Scalar::ct_eq(self, rhs)
    }
}

impl Default for Scalar {
    fn default() -> (r: Scalar)
        ensures
            r@ == 0,
    {
        Scalar::zero()
    }
}

} // verus!
