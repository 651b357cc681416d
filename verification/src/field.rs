//! Elements of a prime field of order `n`, held as naturals below `n`.
//!
//! A field element is modelled by its canonical value; every operation gives the
//! canonical value of its result.
use crate::big::BigNat;
use vstd::arithmetic::div_mod::*;
use vstd::arithmetic::power::*;
use vstd::prelude::*;

verus! {

/// The field element of order `n` whose value is `e` modulo `n`.
pub fn big_to_fe(e: &BigNat, n: &BigNat) -> (r: BigNat)
    requires
        n@ > 0,
    ensures
        r@ == e@ % n@,
{
    e.div_rem(n).1
}

/// `a + b` in the field of order `n`.
pub fn fe_add(a: &BigNat, b: &BigNat, n: &BigNat) -> (r: BigNat)
    requires
        n@ > 0,
    ensures
        r@ == (a@ + b@) % n@,
{
    big_to_fe(&a.add(b), n)
}

/// `a - b` in the field of order `n`, for a field element `b`.
pub fn fe_sub(a: &BigNat, b: &BigNat, n: &BigNat) -> (r: BigNat)
    requires
        b@ < n@,
    ensures
        r@ == (a@ - b@) % (n@ as int),
{
    let s = a.add(&n.sub(b));
    proof {
        lemma_mod_add_multiples_vanish(a@ - b@, n@ as int);
    }
    big_to_fe(&s, n)
}

/// `a * b` in the field of order `n`.
pub fn fe_mul(a: &BigNat, b: &BigNat, n: &BigNat) -> (r: BigNat)
    requires
        n@ > 0,
    ensures
        r@ == (a@ * b@) % n@,
{
    big_to_fe(&a.mul(b), n)
}

/// `a^e` in the field of order `n`.
pub fn fe_pow(a: &BigNat, e: u64, n: &BigNat) -> (r: BigNat)
    requires
        n@ > 0,
    ensures
        r@ == pow(a@ as int, e as nat) % (n@ as int),
{
    a.modpow(&BigNat::from_u64(e), n)
}

/// The inverse of `a` in the field of order `n`: `None` for zero, and otherwise the
/// `x < n` with `a * x = 1 (mod n)` when there is one.
pub fn fe_invert(a: &BigNat, n: &BigNat) -> (r: Option<BigNat>)
    requires
        n@ > 0,
    ensures
        r matches Some(x) ==> x@ < n@ && (a@ * x@) % n@ == 1nat % n@ && a@ % n@ != 0,
        r is None ==> a@ % n@ == 0 || forall|x: nat| #![trigger (a@ * x) % n@] (a@ * x) % n@ != 1nat % n@,
{
    let a_red = big_to_fe(a, n);
    if a_red.equals(&BigNat::from_u64(0)) {
        return None;
    }
    let r = a_red.modinv(n);
    proof {
        assert forall|x: nat| #![trigger (a@ * x) % n@] (a_red@ * x) % n@ == (a@ * x) % n@ by {
            lemma_mul_mod_noop_left(a@ as int, x as int, n@ as int);
        }
    }
    r
}

} // verus!
