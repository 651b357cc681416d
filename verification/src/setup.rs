//! Building the parameters of a residue number system.
use crate::big::{bit_length, BigNat};
use crate::field::{big_to_fe, fe_invert, fe_pow};
use crate::limbs::{compose_big, decompose_big};
use crate::params::{
    base_aux, base_aux_after, base_aux_ok, base_aux_start, binary_modulus, crt_modulus, emulated_bit_len,
    emulated_carry, emulated_column, emulated_columns, emulated_term, left_shifters, max_gate_value,
    max_operand, max_operand_bit_len, max_operand_limbs, max_quotient, max_quotient_limbs, max_reduced_limb,
    max_remainder, max_unreduced_limb, max_unreduced_value, moduli_ok, most_significant, mul_v_bit_len,
    pre_max_quotient, red_v_bit_len, reduction_ok, right_shifters, rns_ok, two_inv,
};
use crate::rns::{Common, Integer, Quotient, Rns};
use crate::params;
use crate::spec::{all_below, decompose_fe, lemma_reduce_all_below, values};
use crate::NUMBER_OF_LOOKUP_LIMBS;
use std::rc::Rc;
use vstd::arithmetic::div_mod::*;
use vstd::arithmetic::power::*;
use vstd::arithmetic::power2::*;
use vstd::prelude::*;

verus! {

/// Emulates a gate on operand limbs `a`, modulus limbs `p` and quotient limbs
/// `q` of `nl` limbs of `bl` bits, and returns the largest of `bl` and the bit
/// lengths of the carries between pairs of limbs. The terms are
/// `a[i] * a[j] + p[i] * q[j]` when `squared` holds and `a[i] + p[i] * q[j]`
/// otherwise; when `odd_last` holds the last carry covers a single limb.
fn emulate_bit_len(a: &Vec<BigNat>, p: &Vec<BigNat>, q: &Vec<BigNat>, squared: bool, odd_last: bool, bl: usize) -> (r: u64)
    requires
        a.len() >= 2,
        p.len() == a.len(),
        q.len() == a.len(),
        2 * a.len() <= usize::MAX,
        2 * bl <= usize::MAX,
    ensures
        r == emulated_bit_len(
            Seq::new((2 * a.len() - 1) as nat, |k: int| emulated_column(values(a@), values(p@), values(q@), squared, k, a.len() as int)),
            bl as nat,
            ((a.len() + 1) / 2) as nat,
            odd_last,
            ((a.len() + 1) / 2) as nat,
        ),
{
    let nl = a.len();
    let ghost av = values(a@);
    let ghost pv = values(p@);
    let ghost qv = values(q@);
    let len = 2 * nl - 1;
    let mut t: Vec<BigNat> = Vec::new();
    let mut z: usize = 0;
    while z < len
        invariant
            z <= len,
            t.len() == z,
            forall|k: int| 0 <= k < z ==> #[trigger] t@[k]@ == 0,
        decreases len - z,
    {
        t.push(BigNat::from_u64(0));
        z += 1;
    }
    let mut i: usize = 0;
    while i < nl
        invariant
            nl == a.len(),
            len == 2 * nl - 1,
            p.len() == nl,
            q.len() == nl,
            av == values(a@),
            pv == values(p@),
            qv == values(q@),
            i <= nl,
            t.len() == len,
            forall|k: int| 0 <= k < len ==> #[trigger] t@[k]@ == emulated_column(av, pv, qv, squared, k, i as int),
        decreases nl - i,
    {
        let mut j: usize = 0;
        while j < nl
            invariant
                nl == a.len(),
                len == 2 * nl - 1,
                p.len() == nl,
                q.len() == nl,
                av == values(a@),
                pv == values(p@),
                qv == values(q@),
                i < nl,
                j <= nl,
                t.len() == len,
                forall|k: int| 0 <= k < len ==> #[trigger] t@[k]@ == emulated_column(av, pv, qv, squared, k, i as int) + if i <= k < i + j {
                    emulated_term(av, pv, qv, squared, i as int, k - i)
                } else {
                    0
                },
            decreases nl - j,
        {
            let term = if squared {
                a[i].mul(&a[j]).add(&p[i].mul(&q[j]))
            } else {
                a[i].add(&p[i].mul(&q[j]))
            };
            assert(term@ == emulated_term(av, pv, qv, squared, i as int, j as int));
            let updated = t[i + j].add(&term);
            t.set(i + j, updated);
            j += 1;
        }
        proof {
            assert forall|k: int| 0 <= k < len implies #[trigger] t@[k]@ == emulated_column(av, pv, qv, squared, k, i + 1) by {
                assert(emulated_column(av, pv, qv, squared, k, i + 1) == emulated_column(av, pv, qv, squared, k, i as int) + if 0 <= k - i < av.len() {
                    emulated_term(av, pv, qv, squared, i as int, k - i)
                } else {
                    0
                });
            }
        }
        i += 1;
    }
    let ghost tv = values(t@);
    proof {
        assert(tv =~= Seq::new((2 * a.len() - 1) as nat, |k: int| emulated_column(av, pv, qv, squared, k, a.len() as int)));
    }
    let u_len = nl / 2 + nl % 2;
    let mut carry = BigNat::from_u64(0);
    let mut bit_len: u64 = bl as u64;
    let mut i: usize = 0;
    while i < u_len
        invariant
            nl == a.len(),
            len == 2 * nl - 1,
            2 * bl <= usize::MAX,
            nl >= 2,
            u_len == (nl + 1) / 2,
            tv == values(t@),
            t.len() == len,
            i <= u_len,
            i > 0 ==> carry@ == emulated_carry(tv, bl as nat, u_len as nat, odd_last, (i - 1) as nat),
            i == 0 ==> carry@ == 0,
            bit_len == emulated_bit_len(tv, bl as nat, u_len as nat, odd_last, i as nat),
        decreases u_len - i,
    {
        let v = if i == u_len - 1 && odd_last {
            t[i].add(&carry).shr(bl as u64)
        } else {
            t[i].add(&t[i + 1].shl(bl as u64)).add(&carry).shr((2 * bl) as u64)
        };
        proof {
            assert(((2 * bl) as u64) as nat == 2 * (bl as nat));
            assert((bl as u64) as nat == bl as nat);
            assert(tv[i as int] == t@[i as int]@);
            if !(i == u_len - 1 && odd_last) {
                assert(tv[i + 1] == t@[i + 1]@);
            }
        }
        assert(v@ == emulated_carry(tv, bl as nat, u_len as nat, odd_last, i as nat));
        carry = v.duplicate();
        let b = v.bits();
        bit_len = if b > bit_len { b } else { bit_len };
        i += 1;
    }
    bit_len
}


/// `2^k` taken in the field of order `n` is `2^k mod n`.
pub proof fn lemma_pow_two_mod(k: nat, n: nat)
    requires
        n > 0,
    ensures
        pow((2nat % n) as int, k) % (n as int) == pow2(k) % n,
{
    lemma_pow_mod_noop(2, k, n as int);
    lemma_pow2(k);
}

impl<const NUMBER_OF_LIMBS: usize, const BIT_LEN_LIMB: usize> Rns<NUMBER_OF_LIMBS, BIT_LEN_LIMB> {
    /// The auxiliary value for subtraction: twice the limbs of the wrong modulus,
    /// where every limb that is not above a dense limb borrows from the limb
    /// above it. `None` when a borrow would take a limb below zero.
    pub fn calculate_base_aux(wrong_modulus: &BigNat, native_modulus: &BigNat) -> (r: Option<Vec<BigNat>>)
        requires
            native_modulus@ > 0,
            NUMBER_OF_LIMBS >= 1,
        ensures
            r is Some <==> base_aux(wrong_modulus@, native_modulus@, NUMBER_OF_LIMBS as nat, BIT_LEN_LIMB as nat) is Some,
            r matches Some(v) ==> v.len() == NUMBER_OF_LIMBS && base_aux(
                wrong_modulus@,
                native_modulus@,
                NUMBER_OF_LIMBS as nat,
                BIT_LEN_LIMB as nat,
            ) == Some(values(v@)),
    {
        let ghost nl = NUMBER_OF_LIMBS as nat;
        let ghost bl = BIT_LEN_LIMB as nat;
        let n = native_modulus;
        let two = big_to_fe(&BigNat::from_u64(2), n);
        let r_limb = fe_pow(&two, BIT_LEN_LIMB as u64, n);
        proof {
            lemma_pow_two_mod(bl, n@);
        }
        let wrong_limbs = decompose_big(wrong_modulus, NUMBER_OF_LIMBS, BIT_LEN_LIMB, n);
        let ghost start = base_aux_start(wrong_modulus@, n@, nl, bl);
        let mut aux: Vec<BigNat> = Vec::new();
        let mut i: usize = 0;
        while i < NUMBER_OF_LIMBS
            invariant
                i <= NUMBER_OF_LIMBS,
                wrong_limbs.len() == NUMBER_OF_LIMBS,
                values(wrong_limbs@) == decompose_fe(wrong_modulus@, nl, bl, n@),
                start == base_aux_start(wrong_modulus@, n@, nl, bl),
                aux.len() == i,
                forall|k: int| 0 <= k < i ==> #[trigger] aux@[k]@ == start[k],
            decreases NUMBER_OF_LIMBS - i,
        {
            proof {
                lemma2_to64();
            }
            let doubled = wrong_limbs[i].shl(1);
            assert(doubled@ == start[i as int]) by {
                assert(wrong_limbs@[i as int]@ == decompose_fe(wrong_modulus@, nl, bl, n@)[i as int]);
            }
            aux.push(doubled);
            i += 1;
        }
        assert(values(aux@) =~= start);
        let one = BigNat::from_u64(1);
        let mut i: usize = 0;
        while i < NUMBER_OF_LIMBS - 1
            invariant
                NUMBER_OF_LIMBS >= 1,
                nl == NUMBER_OF_LIMBS,
                bl == BIT_LEN_LIMB,
                start == base_aux_start(wrong_modulus@, n@, nl, bl),
                n@ == native_modulus@,
                i <= NUMBER_OF_LIMBS - 1,
                aux.len() == NUMBER_OF_LIMBS,
                one@ == 1,
                r_limb@ == pow2(bl) % n@,
                base_aux_after(start, nl, bl, r_limb@, i as nat) == Some(values(aux@)),
            decreases NUMBER_OF_LIMBS - 1 - i,
        {
            let hidx = NUMBER_OF_LIMBS - i - 1;
            let lidx = hidx - 1;
            let ghost prev = values(aux@);
            if aux[lidx].bits() <= BIT_LEN_LIMB as u64 {
                if aux[hidx].less_than(&one) {
                    proof {
                        assert(base_aux_after(start, nl, bl, r_limb@, (i + 1) as nat) is None);
                        lemma_base_aux_stays_none(start, nl, bl, r_limb@, (i + 1) as nat, (nl - 1) as nat);
                        assert(base_aux_after(start, nl, bl, r_limb@, (nl - 1) as nat) is None);
                        assert(r_limb@ == pow2(bl) % n@);
                        assert(crate::params::base_aux(wrong_modulus@, n@, nl, bl) is None);
                    }
                    return None;
                }
                let high = aux[hidx].sub(&one);
                let low = aux[lidx].add(&r_limb);
                aux.set(hidx, high);
                aux.set(lidx, low);
                proof {
                    assert(values(aux@) =~= prev.update(hidx as int, (prev[hidx as int] - 1) as nat).update(
                        lidx as int,
                        prev[lidx as int] + r_limb@,
                    ));
                }
            }
            i += 1;
        }
        Some(aux)
    }
}

/// Once a borrow has failed, the auxiliary value stays undefined.
pub(crate) proof fn lemma_base_aux_stays_none(start: Seq<nat>, nl: nat, bl: nat, r: nat, from: nat, to: nat)
    requires
        from <= to,
        base_aux_after(start, nl, bl, r, from) is None,
    ensures
        base_aux_after(start, nl, bl, r, to) is None,
    decreases to - from,
{
    if from < to {
        lemma_base_aux_stays_none(start, nl, bl, r, from, (to - 1) as nat);
    }
}


/// Two has an inverse in a field of odd order above one: `(n + 1) / 2`.
pub proof fn lemma_two_has_inverse(n: nat)
    requires
        n % 2 == 1,
        n > 1,
    ensures
        (2nat % n) % n != 0,
        ((2nat % n) * two_inv(n)) % n == 1nat % n,
        two_inv(n) < n,
{
    lemma_small_mod(2, n);
    assert(2 * two_inv(n) == n + 1);
    lemma_mod_add_multiples_vanish(1, n as int);
    lemma_small_mod(1, n);
}

/// An inverse of two below `n` exists only in a field of odd order above one,
/// and it is `(n + 1) / 2`.
proof fn lemma_two_inverse_unique(n: nat, x: nat)
    requires
        n > 0,
        x < n,
        (2nat % n) % n != 0,
        ((2nat % n) * x) % n == 1nat % n,
    ensures
        n % 2 == 1,
        n > 1,
        x == two_inv(n),
{
    if n == 1 {
        assert(2nat % 1 == 0);
    } else if n == 2 {
        assert(2nat % 2 == 0);
    } else {
        lemma_small_mod(2, n);
        lemma_small_mod(1, n);
        if 2 * x < n {
            lemma_small_mod(2 * x, n);
        } else {
            lemma_mod_sub_multiples_vanish((2 * x) as int, n as int);
            lemma_small_mod((2 * x - n) as nat, n);
        }
    }
}

/// A copy of every number in `v`.
fn duplicate_all(v: &Vec<BigNat>) -> (r: Vec<BigNat>)
    ensures
        r.len() == v.len(),
        values(r@) == values(v@),
{
    let mut out: Vec<BigNat> = Vec::new();
    let mut i: usize = 0;
    while i < v.len()
        invariant
            i <= v.len(),
            out.len() == i,
            forall|k: int| 0 <= k < i ==> #[trigger] out@[k]@ == v@[k]@,
        decreases v.len() - i,
    {
        out.push(v[i].duplicate());
        i += 1;
    }
    assert(values(out@) =~= values(v@));
    out
}

/// `nl` copies of `x`.
fn repeat(x: &BigNat, nl: usize) -> (r: Vec<BigNat>)
    ensures
        r.len() == nl,
        values(r@) == Seq::new(nl as nat, |i: int| x@),
{
    let mut out: Vec<BigNat> = Vec::new();
    let mut i: usize = 0;
    while i < nl
        invariant
            i <= nl,
            out.len() == i,
            forall|k: int| 0 <= k < i ==> #[trigger] out@[k]@ == x@,
        decreases nl - i,
    {
        out.push(x.duplicate());
        i += 1;
    }
    assert(values(out@) =~= Seq::new(nl as nat, |i: int| x@));
    out
}

/// `nl - 1` copies of `low` followed by `high`.
fn limbs_with_top(low: &BigNat, high: &BigNat, nl: usize) -> (r: Vec<BigNat>)
    requires
        nl >= 1,
    ensures
        r.len() == nl,
        values(r@) == Seq::new(nl as nat, |i: int| if i != nl - 1 { low@ } else { high@ }),
{
    let mut out: Vec<BigNat> = Vec::new();
    let mut i: usize = 0;
    while i < nl
        invariant
            i <= nl,
            out.len() == i,
            forall|k: int| 0 <= k < i ==> #[trigger] out@[k]@ == if k != nl - 1 { low@ } else { high@ },
        decreases nl - i,
    {
        if i != nl - 1 {
            out.push(low.duplicate());
        } else {
            out.push(high.duplicate());
        }
        i += 1;
    }
    assert(values(out@) =~= Seq::new(nl as nat, |i: int| if i != nl - 1 { low@ } else { high@ }));
    out
}

/// The powers `base^(i * bl)` for `i < nl` in the field of order `n`.
fn shifters(base: &BigNat, nl: usize, bl: usize, n: &BigNat) -> (r: Vec<BigNat>)
    requires
        n@ > 0,
        nl >= 1,
        (nl - 1) * bl <= usize::MAX,
    ensures
        r.len() == nl,
        values(r@) == Seq::new(nl as nat, |i: int| (pow(base@ as int, (i * bl) as nat) % (n@ as int)) as nat),
{
    let mut out: Vec<BigNat> = Vec::new();
    let mut i: usize = 0;
    while i < nl
        invariant
            n@ > 0,
            nl >= 1,
            (nl - 1) * bl <= usize::MAX,
            i <= nl,
            out.len() == i,
            forall|k: int| 0 <= k < i ==> #[trigger] out@[k]@ == (pow(base@ as int, (k * bl) as nat) % (n@ as int)) as nat,
        decreases nl - i,
    {
        assert(i * bl <= (nl - 1) * bl) by (nonlinear_arith)
            requires i <= nl - 1;
        let e = i * bl;
        out.push(fe_pow(base, e as u64, n));
        i += 1;
    }
    assert(values(out@) =~= Seq::new(nl as nat, |i: int| (pow(base@ as int, (i * bl) as nat) % (n@ as int)) as nat));
    out
}

impl<const NUMBER_OF_LIMBS: usize, const BIT_LEN_LIMB: usize> Rns<NUMBER_OF_LIMBS, BIT_LEN_LIMB> {
    /// The same values in every field.
    pub open spec fn same_values(&self, other: &Self) -> bool {
        &&& self.bit_len_lookup == other.bit_len_lookup
        &&& self.wrong_modulus@ == other.wrong_modulus@
        &&& self.native_modulus@ == other.native_modulus@
        &&& self.binary_modulus@ == other.binary_modulus@
        &&& self.crt_modulus@ == other.crt_modulus@
        &&& self.right_shifters.len() == other.right_shifters.len()
        &&& values(self.right_shifters@) == values(other.right_shifters@)
        &&& self.left_shifters.len() == other.left_shifters.len()
        &&& values(self.left_shifters@) == values(other.left_shifters@)
        &&& self.base_aux.len() == other.base_aux.len()
        &&& values(self.base_aux@) == values(other.base_aux@)
        &&& self.negative_wrong_modulus_decomposed.len() == other.negative_wrong_modulus_decomposed.len()
        &&& values(self.negative_wrong_modulus_decomposed@) == values(other.negative_wrong_modulus_decomposed@)
        &&& self.wrong_modulus_decomposed.len() == other.wrong_modulus_decomposed.len()
        &&& values(self.wrong_modulus_decomposed@) == values(other.wrong_modulus_decomposed@)
        &&& self.wrong_modulus_minus_one.len() == other.wrong_modulus_minus_one.len()
        &&& values(self.wrong_modulus_minus_one@) == values(other.wrong_modulus_minus_one@)
        &&& self.wrong_modulus_in_native_modulus@ == other.wrong_modulus_in_native_modulus@
        &&& self.max_reduced_limb@ == other.max_reduced_limb@
        &&& self.max_unreduced_limb@ == other.max_unreduced_limb@
        &&& self.max_remainder@ == other.max_remainder@
        &&& self.max_operand@ == other.max_operand@
        &&& self.max_mul_quotient@ == other.max_mul_quotient@
        &&& self.max_most_significant_reduced_limb@ == other.max_most_significant_reduced_limb@
        &&& self.max_most_significant_operand_limb@ == other.max_most_significant_operand_limb@
        &&& self.max_most_significant_mul_quotient_limb@ == other.max_most_significant_mul_quotient_limb@
        &&& self.mul_v_bit_len == other.mul_v_bit_len
        &&& self.red_v_bit_len == other.red_v_bit_len
    }

    /// A copy with the same values in every field.
    pub fn duplicate(&self) -> (r: Self)
        ensures
            r.same_values(self),
    {
        Rns {
            bit_len_lookup: self.bit_len_lookup,
            wrong_modulus: self.wrong_modulus.duplicate(),
            native_modulus: self.native_modulus.duplicate(),
            binary_modulus: self.binary_modulus.duplicate(),
            crt_modulus: self.crt_modulus.duplicate(),
            right_shifters: duplicate_all(&self.right_shifters),
            left_shifters: duplicate_all(&self.left_shifters),
            base_aux: duplicate_all(&self.base_aux),
            negative_wrong_modulus_decomposed: duplicate_all(&self.negative_wrong_modulus_decomposed),
            wrong_modulus_decomposed: duplicate_all(&self.wrong_modulus_decomposed),
            wrong_modulus_minus_one: duplicate_all(&self.wrong_modulus_minus_one),
            wrong_modulus_in_native_modulus: self.wrong_modulus_in_native_modulus.duplicate(),
            max_reduced_limb: self.max_reduced_limb.duplicate(),
            max_unreduced_limb: self.max_unreduced_limb.duplicate(),
            max_remainder: self.max_remainder.duplicate(),
            max_operand: self.max_operand.duplicate(),
            max_mul_quotient: self.max_mul_quotient.duplicate(),
            max_most_significant_reduced_limb: self.max_most_significant_reduced_limb.duplicate(),
            max_most_significant_operand_limb: self.max_most_significant_operand_limb.duplicate(),
            max_most_significant_mul_quotient_limb: self.max_most_significant_mul_quotient_limb.duplicate(),
            mul_v_bit_len: self.mul_v_bit_len,
            red_v_bit_len: self.red_v_bit_len,
        }
    }

    /// Parameters that hold what building them gives are well shaped.
    pub proof fn lemma_describes_well_shaped(&self, w: nat, n: nat)
        requires
            self.describes(w, n),
            NUMBER_OF_LIMBS > 2,
            w > 0,
            n > 0,
        ensures
            self.well_shaped(),
    {
        let nl = NUMBER_OF_LIMBS as nat;
        let bl = BIT_LEN_LIMB as nat;
        assert forall|i: int| 0 <= i < nl implies #[trigger] right_shifters(n, nl, bl)[i] < n by {
            lemma_mod_bound(pow(two_inv(n) as int, (i * bl) as nat), n as int);
        }
        assert forall|i: int| 0 <= i < nl implies #[trigger] left_shifters(n, nl, bl)[i] < n by {
            lemma_mod_bound(pow((2nat % n) as int, (i * bl) as nat), n as int);
        }
        lemma_reduce_all_below(crate::spec::decompose((binary_modulus(nl, bl) - w) as nat, nl, bl), n);
        lemma_reduce_all_below(crate::spec::decompose(w, nl, bl), n);
        lemma_reduce_all_below(crate::spec::decompose((w - 1) as nat, nl, bl), n);
    }

    /// Builds the parameters for the wrong modulus and the native modulus, or
    /// `None` when one of the checks on them fails.
    #[verifier::rlimit(50)]
    pub fn try_construct(wrong_modulus: &BigNat, native_modulus: &BigNat) -> (r: Option<Self>)
        ensures
            r is Some <==> rns_ok(wrong_modulus@, native_modulus@, NUMBER_OF_LIMBS as nat, BIT_LEN_LIMB as nat),
            r matches Some(rns) ==> rns.describes(wrong_modulus@, native_modulus@),
    {
        let ghost w = wrong_modulus@;
        let ghost n = native_modulus@;
        let ghost nl = NUMBER_OF_LIMBS as nat;
        let ghost bl = BIT_LEN_LIMB as nat;
        if NUMBER_OF_LIMBS <= 2 {
            return None;
        }
        if BIT_LEN_LIMB % 4 != 0 {
            return None;
        }
        let binary_modulus_bit_len = match BIT_LEN_LIMB.checked_mul(NUMBER_OF_LIMBS) {
            Some(x) => x,
            None => return None,
        };
        let unreduced_bit_len = match BIT_LEN_LIMB.checked_add(BIT_LEN_LIMB / 2) {
            Some(x) => x,
            None => return None,
        };
        let zero = BigNat::from_u64(0);
        let one = BigNat::from_u64(1);
        if wrong_modulus.equals(&zero) {
            return None;
        }
        proof {
            lemma2_to64();
            lemma_pow2_strictly_increases(0, bit_length(w));
        }
        // `T = 2^t` with `t = BIT_LEN_LIMB * NUMBER_OF_LIMBS`
        let binary_modulus = one.shl(binary_modulus_bit_len as u64);
        let crt_modulus = binary_modulus.mul(native_modulus);
        // the remainder may overflow the wrong modulus up to its next power of two
        let max_remainder = one.shl(wrong_modulus.bits()).sub(&one);
        assert(max_remainder@ == params::max_remainder(w));
        assert(crt_modulus@ == params::crt_modulus(n, nl, bl));
        if crt_modulus.less_than(&max_remainder) {
            return None;
        }
        // the largest quotient that keeps `quotient * w + remainder` below the CRT modulus,
        // lowered to a power of two less one for the range checks
        let pre_max_quotient = crt_modulus.sub(&max_remainder).div_rem(wrong_modulus).0;
        assert(pre_max_quotient@ == params::pre_max_quotient(w, n, nl, bl));
        let pre_bits = pre_max_quotient.bits();
        if pre_bits == 0 {
            return None;
        }
        proof {
            lemma_pow2_pos((pre_bits - 1) as nat);
        }
        let max_quotient = one.shl(pre_bits - 1).sub(&one);
        assert(max_quotient@ == params::max_quotient(w, n, nl, bl));
        // the largest operand: its square stays below `max_quotient * w + max_remainder`
        let rhs = max_quotient.mul(wrong_modulus).add(&max_remainder);
        assert(rhs@ == max_gate_value(w, n, nl, bl));
        let max_operand_bit_len = (rhs.bits() - 1) / 2;
        proof {
            lemma_pow2_pos(max_operand_bit_len as nat);
        }
        let max_operand = one.shl(max_operand_bit_len).sub(&one);
        assert(max_operand@ == params::max_operand(w, n, nl, bl));
        let lhs = max_operand.mul(&max_operand);
        if !wrong_modulus.less_than(&binary_modulus) || !native_modulus.less_than(&binary_modulus)
            || !wrong_modulus.less_than(&max_remainder) || !wrong_modulus.less_than(&max_operand)
            || !wrong_modulus.less_than(&max_quotient) || !max_remainder.less_than(&binary_modulus)
            || !max_operand.less_than(&binary_modulus) || !max_quotient.less_than(&binary_modulus)
            || !rhs.less_than(&crt_modulus) || !lhs.less_than(&rhs) {
            return None;
        }
        assert(moduli_ok(w, n, nl, bl));
        proof {
            assert(n > 0) by {
                if n == 0 {
                    assert(crt_modulus@ == 0) by (nonlinear_arith)
                        requires crt_modulus@ == binary_modulus@ * n, n == 0;
                }
            }
            assert(bl * nl > 0) by {
                if bl * nl == 0 {
                    assert(pow2(0) == 1);
                }
            }
            assert(bl > 0) by (nonlinear_arith)
                requires bl * nl > 0;
            assert(bl >= 4);
            assert(2 * nl <= bl * nl) by (nonlinear_arith)
                requires bl >= 4;
            assert(2 * bl <= bl * nl) by (nonlinear_arith)
                requires nl >= 3;
            assert((nl - 1) * bl <= bl * nl) by (nonlinear_arith)
                requires nl >= 3;
        }
        // `-w` modulo the binary modulus, `w` and `w - 1`, in limbs
        let negative_wrong_modulus_decomposed = decompose_big(
            &binary_modulus.sub(wrong_modulus),
            NUMBER_OF_LIMBS,
            BIT_LEN_LIMB,
            native_modulus,
        );
        let wrong_modulus_decomposed = decompose_big(wrong_modulus, NUMBER_OF_LIMBS, BIT_LEN_LIMB, native_modulus);
        let wrong_modulus_minus_one = decompose_big(
            &wrong_modulus.sub(&one),
            NUMBER_OF_LIMBS,
            BIT_LEN_LIMB,
            native_modulus,
        );
        proof {
            lemma_pow2_pos(bl);
            lemma_pow2_pos((bl + bl / 2) as nat);
        }
        let max_reduced_limb = one.shl(BIT_LEN_LIMB as u64).sub(&one);
        let max_unreduced_limb = one.shl(unreduced_bit_len as u64).sub(&one);
        let top_shift = (NUMBER_OF_LIMBS - 1) * BIT_LEN_LIMB;
        let max_most_significant_reduced_limb = max_remainder.shr(top_shift as u64);
        let max_most_significant_operand_limb = max_operand.shr(top_shift as u64);
        let max_most_significant_mul_quotient_limb = max_quotient.shr(top_shift as u64);
        // emulated multiplication and reduction on the largest values, for the
        // largest residues
        let a = limbs_with_top(&max_reduced_limb, &max_most_significant_operand_limb, NUMBER_OF_LIMBS);
        let q = limbs_with_top(&max_reduced_limb, &max_most_significant_mul_quotient_limb, NUMBER_OF_LIMBS);
        proof {
            assert(values(a@) =~= max_operand_limbs(w, n, nl, bl));
            assert(values(q@) =~= max_quotient_limbs(w, n, nl, bl));
            assert(emulated_columns(w, n, nl, bl, true) =~= Seq::new(
                (2 * a.len() - 1) as nat,
                |k: int| emulated_column(values(a@), values(negative_wrong_modulus_decomposed@), values(q@), true, k, a.len() as int),
            ));
            assert(emulated_columns(w, n, nl, bl, false) =~= Seq::new(
                (2 * a.len() - 1) as nat,
                |k: int| emulated_column(values(a@), values(negative_wrong_modulus_decomposed@), values(q@), false, k, a.len() as int),
            ));
        }
        let mul_v_bit_len = emulate_bit_len(&a, &negative_wrong_modulus_decomposed, &q, true, false, BIT_LEN_LIMB);
        let red_v_bit_len = emulate_bit_len(
            &a,
            &negative_wrong_modulus_decomposed,
            &q,
            false,
            NUMBER_OF_LIMBS % 2 == 1,
            BIT_LEN_LIMB,
        );
        if mul_v_bit_len > usize::MAX as u64 || red_v_bit_len > usize::MAX as u64 {
            return None;
        }
        let bit_len_lookup = BIT_LEN_LIMB / NUMBER_OF_LOOKUP_LIMBS;
        // the limbs of a limb split for the lookup must cover it exactly
        if bit_len_lookup * NUMBER_OF_LOOKUP_LIMBS != BIT_LEN_LIMB {
            return None;
        }
        // the auxiliary value for subtraction, and its checks
        let base_aux = match Self::calculate_base_aux(wrong_modulus, native_modulus) {
            Some(v) => v,
            None => return None,
        };
        let base_aux_value = compose_big(&base_aux, BIT_LEN_LIMB);
        if !base_aux_value.div_rem(wrong_modulus).1.equals(&zero) {
            return None;
        }
        if !max_remainder.less_than(&base_aux_value) {
            return None;
        }
        let mut i: usize = 0;
        while i < NUMBER_OF_LIMBS
            invariant
                nl == NUMBER_OF_LIMBS,
                bl == BIT_LEN_LIMB,
                w == wrong_modulus@,
                n == native_modulus@,
                params::base_aux(w, n, nl, bl) == Some(values(base_aux@)),
                NUMBER_OF_LIMBS > 2,
                base_aux.len() == NUMBER_OF_LIMBS,
                max_reduced_limb@ == params::max_reduced_limb(bl),
                max_most_significant_reduced_limb@ == most_significant(params::max_remainder(w), nl, bl),
                i <= NUMBER_OF_LIMBS,
                forall|k: int| 0 <= k < i && k < nl - 1 ==> #[trigger] values(base_aux@)[k] >= params::max_reduced_limb(bl),
                i == NUMBER_OF_LIMBS ==> values(base_aux@)[nl - 1] >= most_significant(params::max_remainder(w), nl, bl),
            decreases NUMBER_OF_LIMBS - i,
        {
            let is_last_limb = i == NUMBER_OF_LIMBS - 1;
            let target = if is_last_limb {
                &max_most_significant_reduced_limb
            } else {
                &max_reduced_limb
            };
            if base_aux[i].less_than(target) {
                proof {
                    assert(!base_aux_ok(values(base_aux@), w, nl, bl)) by {
                        if !is_last_limb {
                            assert(values(base_aux@)[i as int] < params::max_reduced_limb(bl));
                        }
                    }
                }
                return None;
            }
            i += 1;
        }
        assert(base_aux_ok(values(base_aux@), w, nl, bl));
        proof {
            lemma_small_mod(0, n);
        }
        let wrong_modulus_in_native_modulus = big_to_fe(&wrong_modulus.div_rem(native_modulus).1, native_modulus);
        proof {
            lemma_mod_twice(w as int, n as int);
        }
        // shifters: powers of two and of its inverse
        let two = big_to_fe(&BigNat::from_u64(2), native_modulus);
        let two_inv = match fe_invert(&two, native_modulus) {
            Some(x) => x,
            None => {
                proof {
                    if n % 2 == 1 && n > 1 {
                        lemma_two_has_inverse(n);
                        assert((two@ * params::two_inv(n)) % n == 1nat % n);
                    }
                }
                return None;
            },
        };
        proof {
            lemma_two_inverse_unique(n, two_inv@);
        }
        let right_shifters = shifters(&two_inv, NUMBER_OF_LIMBS, BIT_LEN_LIMB, native_modulus);
        let left_shifters = shifters(&two, NUMBER_OF_LIMBS, BIT_LEN_LIMB, native_modulus);
        proof {
            assert(values(right_shifters@) =~= params::right_shifters(n, nl, bl));
            assert(values(left_shifters@) =~= params::left_shifters(n, nl, bl));
        }
        let rns = Rns {
            bit_len_lookup,
            wrong_modulus: wrong_modulus.duplicate(),
            native_modulus: native_modulus.duplicate(),
            binary_modulus,
            crt_modulus,
            right_shifters,
            left_shifters,
            base_aux,
            negative_wrong_modulus_decomposed,
            wrong_modulus_decomposed,
            wrong_modulus_minus_one,
            wrong_modulus_in_native_modulus,
            max_reduced_limb,
            max_unreduced_limb,
            max_remainder,
            max_operand,
            max_mul_quotient: max_quotient,
            max_most_significant_reduced_limb,
            max_most_significant_operand_limb,
            max_most_significant_mul_quotient_limb,
            mul_v_bit_len: mul_v_bit_len as usize,
            red_v_bit_len: red_v_bit_len as usize,
        };
        assert(rns.describes(w, n));
        // the largest unreduced integer must reduce with a short quotient below a
        // dense limb
        let shared = Rc::new(rns.duplicate());
        proof {
            shared.lemma_describes_well_shaped(w, n);
        }
        let unreduced_limb = big_to_fe(&rns.max_unreduced_limb, native_modulus);
        let max_with_max_unreduced_limbs = repeat(&unreduced_limb, NUMBER_OF_LIMBS);
        let max_with_max_unreduced = Integer::from_limbs_vec(&max_with_max_unreduced_limbs, shared);
        proof {
            lemma_reduce_all_below(Seq::new(nl, |i: int| params::max_unreduced_limb(bl)), n);
            assert(values(max_with_max_unreduced_limbs@) =~= Seq::new(nl, |i: int| params::max_unreduced_limb(bl) % n));
            assert(all_below(values(max_with_max_unreduced_limbs@), n)) by {
                assert forall|k: int| 0 <= k < nl implies #[trigger] values(max_with_max_unreduced_limbs@)[k] < n by {
                    lemma_mod_bound(params::max_unreduced_limb(bl) as int, n as int);
                }
            }
        }
        let value = max_with_max_unreduced.value();
        assert(value@ == max_unreduced_value(n, nl, bl));
        let short_quotient = value.div_rem(wrong_modulus).0;
        if !short_quotient.less_than(&one.shl(BIT_LEN_LIMB as u64)) {
            return None;
        }
        let reduction_result = max_with_max_unreduced.reduce();
        let quotient = match reduction_result.quotient {
            Quotient::Short(quotient) => quotient,
            Quotient::Long(_) => return None,
        };
        if !quotient.less_than(&rns.max_reduced_limb) {
            return None;
        }
        assert(reduction_ok(w, n, nl, bl));
        Some(rns)
    }

    /// Builds the parameters for the wrong modulus and the native modulus, which
    /// must pass every check.
    pub fn construct(wrong_modulus: &BigNat, native_modulus: &BigNat) -> (r: Self)
        requires
            rns_ok(wrong_modulus@, native_modulus@, NUMBER_OF_LIMBS as nat, BIT_LEN_LIMB as nat),
        ensures
            r.describes(wrong_modulus@, native_modulus@),
            r.wf(),
    {
        let rns = Self::try_construct(wrong_modulus, native_modulus);
        rns.unwrap()
    }

    /// The bit lengths that overflow a whole number of lookup sub limbs: those of
    /// the multiplication and reduction residues and of the most significant
    /// limbs of the largest quotient, operand and remainder, each modulo the bit
    /// length of a sub limb.
    pub fn overflow_lengths(&self) -> (r: Vec<usize>)
        requires
            self.bit_len_lookup > 0,
        ensures
            r@ == seq![
                self.mul_v_bit_len % self.bit_len_lookup,
                self.red_v_bit_len % self.bit_len_lookup,
                (bit_length(self.max_most_significant_mul_quotient_limb@) % (self.bit_len_lookup as nat)) as usize,
                (bit_length(self.max_most_significant_operand_limb@) % (self.bit_len_lookup as nat)) as usize,
                (bit_length(self.max_most_significant_reduced_limb@) % (self.bit_len_lookup as nat)) as usize,
            ],
    {
        let lookup = self.bit_len_lookup as u64;
        let max_most_significant_mul_quotient_limb_size = (self.max_most_significant_mul_quotient_limb.bits()
            % lookup) as usize;
        let max_most_significant_operand_limb_size = (self.max_most_significant_operand_limb.bits() % lookup) as usize;
        let max_most_significant_reduced_limb_size = (self.max_most_significant_reduced_limb.bits() % lookup) as usize;
        let mut out: Vec<usize> = Vec::new();
        out.push(self.mul_v_bit_len % self.bit_len_lookup);
        out.push(self.red_v_bit_len % self.bit_len_lookup);
        out.push(max_most_significant_mul_quotient_limb_size);
        out.push(max_most_significant_operand_limb_size);
        out.push(max_most_significant_reduced_limb_size);
        assert(out@ =~= seq![
            self.mul_v_bit_len % self.bit_len_lookup,
            self.red_v_bit_len % self.bit_len_lookup,
            (bit_length(self.max_most_significant_mul_quotient_limb@) % (self.bit_len_lookup as nat)) as usize,
            (bit_length(self.max_most_significant_operand_limb@) % (self.bit_len_lookup as nat)) as usize,
            (bit_length(self.max_most_significant_reduced_limb@) % (self.bit_len_lookup as nat)) as usize,
        ]);
        out
    }
}

} // verus!
