//! Cutting numbers into limbs and putting them back together.
use crate::big::BigNat;
use crate::field::big_to_fe;
use crate::spec::{compose, decompose_fe, limb_of, values};
use vstd::arithmetic::div_mod::*;
use vstd::arithmetic::power2::*;
use vstd::prelude::*;

verus! {

/// The number whose little endian limbs of `bit_len` bits are `input`.
pub fn compose_big(input: &Vec<BigNat>, bit_len: usize) -> (r: BigNat)
    ensures
        r@ == compose(values(input@), bit_len as nat),
{
    let ghost s = values(input@);
    let mut acc = BigNat::from_u64(0);
    let mut i = input.len();
    assert(s.subrange(i as int, i as int) =~= Seq::<nat>::empty());
    while i > 0
        invariant
            i <= input.len(),
            s == values(input@),
            acc@ == compose(s.subrange(i as int, input.len() as int), bit_len as nat),
        decreases i,
    {
        i -= 1;
        let ghost prev = acc@;
        acc = acc.shl(bit_len as u64).add(&input[i]);
        proof {
            let t = s.subrange(i as int, input.len() as int);
            assert(t.drop_first() =~= s.subrange(i + 1, input.len() as int));
            assert(t[0] == input@[i as int]@);
            vstd::arithmetic::mul::lemma_mul_is_commutative(prev as int, pow2(bit_len as nat) as int);
        }
    }
    assert(s.subrange(0, input.len() as int) =~= s);
    acc
}

/// The `number_of_limbs` lowest limbs of `bit_len` bits of `e`, each taken as an
/// element of the field of order `n`.
pub fn decompose_big(e: &BigNat, number_of_limbs: usize, bit_len: usize, n: &BigNat) -> (r: Vec<BigNat>)
    requires
        n@ > 0,
    ensures
        r.len() == number_of_limbs,
        values(r@) == decompose_fe(e@, number_of_limbs as nat, bit_len as nat, n@),
{
    let base = BigNat::from_u64(1).shl(bit_len as u64);
    let mut cur = e.duplicate();
    let mut limbs: Vec<BigNat> = Vec::new();
    let mut i: usize = 0;
    proof {
        lemma_pow2_pos(bit_len as nat);
        assert(bit_len * 0 == 0) by (nonlinear_arith);
        lemma2_to64();
        lemma_div_basics(e@ as int);
        assert(cur@ == e@ / pow2((bit_len * i) as nat));
    }
    while i < number_of_limbs
        invariant
            i <= number_of_limbs,
            n@ > 0,
            base@ == pow2(bit_len as nat),
            cur@ == e@ / pow2((bit_len * i) as nat),
            limbs.len() == i,
            forall|j: int| 0 <= j < i ==> #[trigger] limbs@[j]@ == limb_of(e@, bit_len as nat, j as nat) % n@,
        decreases number_of_limbs - i,
    {
        proof {
            lemma_pow2_pos(bit_len as nat);
        }
        let (q, r) = cur.div_rem(&base);
        limbs.push(big_to_fe(&r, n));
        proof {
            let bl = bit_len as nat;
            assert((bit_len * i) as nat == bl * (i as nat));
            assert(bl * ((i + 1) as nat) == bl * (i as nat) + bl) by (nonlinear_arith);
            lemma_pow2_adds(bl * (i as nat), bl);
            lemma_pow2_pos(bl * (i as nat));
            lemma_div_denominator(e@ as int, pow2(bl * (i as nat)) as int, pow2(bl) as int);
        }
        cur = q;
        i += 1;
    }
    proof {
        let d = decompose_fe(e@, number_of_limbs as nat, bit_len as nat, n@);
        assert(d.len() == number_of_limbs);
        assert(values(limbs@) =~= d);
    }
    limbs
}

} // verus!
