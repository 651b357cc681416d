//! The residue number system parameters, limbs and integers, and the witnesses of
//! the arithmetic gates.
use crate::big::{bytes_value, parse_hex, BigNat};
use crate::field::{big_to_fe, fe_add, fe_invert, fe_mul, fe_sub};
use crate::limbs::{compose_big, decompose_big};
use crate::params::{
    base_aux, binary_modulus, crt_modulus, left_shifters, max_operand, max_quotient, max_reduced_limb,
    max_remainder, max_unreduced_limb, most_significant, mul_v_bit_len, negative_wrong_modulus, red_v_bit_len,
    right_shifters, rns_ok,
};
use crate::laws::{law_built_limb_fits, law_reduce_intermediate};
use crate::param_laws::{law_subtraction_shift_least, shift_reaches};
use crate::NUMBER_OF_LOOKUP_LIMBS;
use crate::spec::{
    all_below, borrow_in, borrow_out, compose, decompose, decompose_fe, difference_limb, gap,
    lemma_compose_decompose_fe, lemma_congruent_add2, lemma_congruent_mod, lemma_congruent_mul2, lemma_congruent_sub2,
    lemma_reduce_all_below, max_min_shift, min_shift, mul_column, mul_intermediate, reduce_intermediate,
    residue, residues, subtraction_fits, values,
};
use std::rc::Rc;
use vstd::arithmetic::div_mod::*;
use vstd::arithmetic::power2::*;
use vstd::prelude::*;

verus! {

/// Parameters of the residue number system that emulates the field of order
/// `wrong_modulus` in the field of order `native_modulus`, with integers of
/// `NUMBER_OF_LIMBS` limbs of `BIT_LEN_LIMB` bits.
#[derive(Debug, Clone)]
pub struct Rns<const NUMBER_OF_LIMBS: usize, const BIT_LEN_LIMB: usize> {
    pub bit_len_lookup: usize,
    pub wrong_modulus: BigNat,
    pub native_modulus: BigNat,
    pub binary_modulus: BigNat,
    pub crt_modulus: BigNat,
    pub right_shifters: Vec<BigNat>,
    pub left_shifters: Vec<BigNat>,
    pub base_aux: Vec<BigNat>,
    pub negative_wrong_modulus_decomposed: Vec<BigNat>,
    pub wrong_modulus_decomposed: Vec<BigNat>,
    pub wrong_modulus_minus_one: Vec<BigNat>,
    pub wrong_modulus_in_native_modulus: BigNat,
    pub max_reduced_limb: BigNat,
    pub max_unreduced_limb: BigNat,
    pub max_remainder: BigNat,
    pub max_operand: BigNat,
    pub max_mul_quotient: BigNat,
    pub max_most_significant_reduced_limb: BigNat,
    pub max_most_significant_operand_limb: BigNat,
    pub max_most_significant_mul_quotient_limb: BigNat,
    pub mul_v_bit_len: usize,
    pub red_v_bit_len: usize,
}

impl<const NUMBER_OF_LIMBS: usize, const BIT_LEN_LIMB: usize> Rns<NUMBER_OF_LIMBS, BIT_LEN_LIMB> {
    /// The shape that the integer operations rely on: at least three limbs, nonzero
    /// moduli, one entry per limb in each table, and field elements below the
    /// native modulus.
    pub open spec fn well_shaped(&self) -> bool {
        let n = self.native_modulus@;
        &&& NUMBER_OF_LIMBS > 2
        &&& self.wrong_modulus@ > 0
        &&& n > 0
        &&& self.right_shifters.len() == NUMBER_OF_LIMBS
        &&& self.left_shifters.len() == NUMBER_OF_LIMBS
        &&& self.base_aux.len() == NUMBER_OF_LIMBS
        &&& self.negative_wrong_modulus_decomposed.len() == NUMBER_OF_LIMBS
        &&& self.wrong_modulus_decomposed.len() == NUMBER_OF_LIMBS
        &&& self.wrong_modulus_minus_one.len() == NUMBER_OF_LIMBS
        &&& all_below(values(self.right_shifters@), n)
        &&& all_below(values(self.left_shifters@), n)
        &&& all_below(values(self.negative_wrong_modulus_decomposed@), n)
        &&& all_below(values(self.wrong_modulus_decomposed@), n)
        &&& all_below(values(self.wrong_modulus_minus_one@), n)
    }

    /// Every field holds what building the parameters from the wrong modulus `w`
    /// and the native modulus `n` gives.
    pub open spec fn describes(&self, w: nat, n: nat) -> bool {
        let nl = NUMBER_OF_LIMBS as nat;
        let bl = BIT_LEN_LIMB as nat;
        let max_rem = max_remainder(w);
        let max_op = max_operand(w, n, nl, bl);
        let max_q = max_quotient(w, n, nl, bl);
        &&& self.bit_len_lookup == BIT_LEN_LIMB / NUMBER_OF_LOOKUP_LIMBS
        &&& self.wrong_modulus@ == w
        &&& self.native_modulus@ == n
        &&& self.binary_modulus@ == binary_modulus(nl, bl)
        &&& self.crt_modulus@ == crt_modulus(n, nl, bl)
        &&& self.right_shifters.len() == NUMBER_OF_LIMBS
        &&& values(self.right_shifters@) == right_shifters(n, nl, bl)
        &&& self.left_shifters.len() == NUMBER_OF_LIMBS
        &&& values(self.left_shifters@) == left_shifters(n, nl, bl)
        &&& self.base_aux.len() == NUMBER_OF_LIMBS
        &&& base_aux(w, n, nl, bl) == Some(values(self.base_aux@))
        &&& self.negative_wrong_modulus_decomposed.len() == NUMBER_OF_LIMBS
        &&& values(self.negative_wrong_modulus_decomposed@) == negative_wrong_modulus(w, n, nl, bl)
        &&& self.wrong_modulus_decomposed.len() == NUMBER_OF_LIMBS
        &&& values(self.wrong_modulus_decomposed@) == decompose_fe(w, nl, bl, n)
        &&& self.wrong_modulus_minus_one.len() == NUMBER_OF_LIMBS
        &&& values(self.wrong_modulus_minus_one@) == decompose_fe((w - 1) as nat, nl, bl, n)
        &&& self.wrong_modulus_in_native_modulus@ == w % n
        &&& self.max_reduced_limb@ == max_reduced_limb(bl)
        &&& self.max_unreduced_limb@ == max_unreduced_limb(bl)
        &&& self.max_remainder@ == max_rem
        &&& self.max_operand@ == max_op
        &&& self.max_mul_quotient@ == max_q
        &&& self.max_most_significant_reduced_limb@ == most_significant(max_rem, nl, bl)
        &&& self.max_most_significant_operand_limb@ == most_significant(max_op, nl, bl)
        &&& self.max_most_significant_mul_quotient_limb@ == most_significant(max_q, nl, bl)
        &&& self.mul_v_bit_len == mul_v_bit_len(w, n, nl, bl)
        &&& self.red_v_bit_len == red_v_bit_len(w, n, nl, bl)
    }

    /// Parameters built from moduli that pass every check.
    pub open spec fn wf(&self) -> bool {
        &&& rns_ok(self.wrong_modulus@, self.native_modulus@, NUMBER_OF_LIMBS as nat, BIT_LEN_LIMB as nat)
        &&& self.describes(self.wrong_modulus@, self.native_modulus@)
    }

    /// The right shifter of index `i`: the field element that shifts right by
    /// `i * BIT_LEN_LIMB` bits.
    pub fn right_shifter(&self, i: usize) -> (r: BigNat)
        requires
            i < self.right_shifters.len(),
        ensures
            r@ == self.right_shifters@[i as int]@,
    {
        self.right_shifters[i].duplicate()
    }

    /// The left shifter of index `i`: the field element that shifts left by
    /// `i * BIT_LEN_LIMB` bits.
    pub fn left_shifter(&self, i: usize) -> (r: BigNat)
        requires
            i < self.left_shifters.len(),
        ensures
            r@ == self.left_shifters@[i as int]@,
    {
        self.left_shifters[i].duplicate()
    }
}

/// A limb: an element of the native field.
#[derive(Debug, Clone)]
pub struct Limb(BigNat);

impl View for Limb {
    type V = nat;

    closed spec fn view(&self) -> nat {
        self.0@
    }
}

/// What integers and limbs have in common: a value.
pub trait Common {
    /// The value, in the model.
    spec fn common_value(&self) -> nat;

    /// The value.
    fn value(&self) -> (r: BigNat)
        ensures
            r@ == self.common_value(),
    ;

    /// The value as an element of the native field of order `native_modulus`.
    fn native(&self, native_modulus: &BigNat) -> (r: BigNat)
        requires
            native_modulus@ > 0,
        ensures
            r@ == self.common_value() % native_modulus@,
    {
        let native_value = self.value();
        big_to_fe(&native_value, native_modulus)
    }

    /// Whether two values are equal.
    fn eq(&self, other: &Self) -> (r: bool)
        ensures
            r == (self.common_value() == other.common_value()),
    {
        self.value().equals(&other.value())
    }
}

impl Common for Limb {
    open spec fn common_value(&self) -> nat {
        self@
    }

    fn value(&self) -> (r: BigNat) {
        self.0.duplicate()
    }
}

impl Limb {
    /// The limb that holds the field element `value`.
    pub fn new(value: BigNat) -> (r: Limb)
        ensures
            r@ == value@,
    {
        Limb(value)
    }

    /// The zero limb.
    pub fn default() -> (r: Limb)
        ensures
            r@ == 0,
    {
        Limb(BigNat::from_u64(0))
    }

    /// The limb that holds `e` as an element of the field of order `native_modulus`.
    pub fn from_big(e: &BigNat, native_modulus: &BigNat) -> (r: Limb)
        requires
            native_modulus@ > 0,
        ensures
            r@ == e@ % native_modulus@,
    {
        Limb::new(big_to_fe(e, native_modulus))
    }

    /// The limb that holds the number written in base 16 by `e`, as an element of
    /// the field of order `native_modulus`.
    pub fn from_hex(e: &str, native_modulus: &BigNat) -> (r: Limb)
        requires
            native_modulus@ > 0,
            parse_hex(e@) is Some,
        ensures
            r@ == parse_hex(e@).unwrap() % native_modulus@,
    {
        let value = BigNat::from_str_radix16(e).unwrap();
        Limb::from_big(&value, native_modulus)
    }

    /// The field element this limb holds.
    pub fn fe(&self) -> (r: BigNat)
        ensures
            r@ == self@,
    {
        self.0.duplicate()
    }
}

/// The values of a sequence of limbs.
pub open spec fn limb_values(s: Seq<Limb>) -> Seq<nat> {
    s.map_values(|l: Limb| l@)
}

/// An integer of the wrong field, decomposed into limbs of the native field.
#[derive(Clone)]
pub struct Integer<const NUMBER_OF_LIMBS: usize, const BIT_LEN_LIMB: usize> {
    limbs: Vec<Limb>,
    rns: Rc<Rns<NUMBER_OF_LIMBS, BIT_LEN_LIMB>>,
}

impl<const NUMBER_OF_LIMBS: usize, const BIT_LEN_LIMB: usize> Common for Integer<NUMBER_OF_LIMBS, BIT_LEN_LIMB> {
    open spec fn common_value(&self) -> nat {
        compose(self.limb_values(), BIT_LEN_LIMB as nat)
    }

    fn value(&self) -> (r: BigNat) {
        let mut limb_values: Vec<BigNat> = Vec::new();
        let mut i: usize = 0;
        while i < self.limbs.len()
            invariant
                i <= self.limbs.len(),
                limb_values.len() == i,
                forall|j: int| 0 <= j < i ==> #[trigger] limb_values@[j]@ == self.limbs@[j]@,
            decreases self.limbs.len() - i,
        {
            limb_values.push(self.limbs[i].value());
            i += 1;
        }
        assert(values(limb_values@) =~= self.limb_values());
        compose_big(&limb_values, BIT_LEN_LIMB)
    }
}

impl<const NUMBER_OF_LIMBS: usize, const BIT_LEN_LIMB: usize> Integer<NUMBER_OF_LIMBS, BIT_LEN_LIMB> {
    /// The values of the limbs, least significant first.
    pub closed spec fn limb_values(&self) -> Seq<nat> {
        limb_values(self.limbs@)
    }

    /// The parameters this integer is written in.
    pub open spec fn rns_view(&self) -> Rns<NUMBER_OF_LIMBS, BIT_LEN_LIMB> {
        *self.rns_ptr()
    }

    /// The parameters, shared.
    pub closed spec fn rns_ptr(&self) -> Rc<Rns<NUMBER_OF_LIMBS, BIT_LEN_LIMB>> {
        self.rns
    }

    /// One limb per limb position, each an element of the native field, over
    /// well shaped parameters.
    pub open spec fn wf(&self) -> bool {
        &&& self.limb_values().len() == NUMBER_OF_LIMBS
        &&& all_below(self.limb_values(), self.rns_view().native_modulus@)
        &&& self.rns_view().well_shaped()
    }

    /// The integer with the given limbs.
    pub fn new(limbs: Vec<Limb>, rns: Rc<Rns<NUMBER_OF_LIMBS, BIT_LEN_LIMB>>) -> (r: Self)
        requires
            limbs.len() == NUMBER_OF_LIMBS,
        ensures
            r.limb_values() == limb_values(limbs@),
            r.rns_ptr() == rns,
            rns.well_shaped() && all_below(limb_values(limbs@), rns.native_modulus@) ==> r.wf(),
    {
        Integer { limbs, rns }
    }

    /// The integer whose limbs are those of `e`, each taken in the native field.
    pub fn from_big(e: &BigNat, rns: Rc<Rns<NUMBER_OF_LIMBS, BIT_LEN_LIMB>>) -> (r: Self)
        requires
            rns.native_modulus@ > 0,
        ensures
            r.limb_values() == decompose_fe(e@, NUMBER_OF_LIMBS as nat, BIT_LEN_LIMB as nat, rns.native_modulus@),
            r.rns_ptr() == rns,
            rns.well_shaped() ==> r.wf(),
            rns.wf() ==> r.common_value() == e@ % rns.binary_modulus@,
    {
        proof {
            lemma_reduce_all_below(decompose(e@, NUMBER_OF_LIMBS as nat, BIT_LEN_LIMB as nat), rns.native_modulus@);
            if rns.wf() {
                law_built_limb_fits(&*rns);
                lemma_pow2_pos(BIT_LEN_LIMB as nat);
                lemma_compose_decompose_fe(e@, NUMBER_OF_LIMBS as nat, BIT_LEN_LIMB as nat, rns.native_modulus@);
            }
        }
        let limbs = decompose_big(e, NUMBER_OF_LIMBS, BIT_LEN_LIMB, &rns.native_modulus);
        let mut out: Vec<Limb> = Vec::new();
        let mut i: usize = 0;
        while i < limbs.len()
            invariant
                i <= limbs.len(),
                out.len() == i,
                forall|j: int| 0 <= j < i ==> #[trigger] out@[j]@ == limbs@[j]@,
            decreases limbs.len() - i,
        {
            out.push(Limb::new(limbs[i].duplicate()));
            i += 1;
        }
        assert(limb_values(out@) =~= values(limbs@));
        Integer { limbs: out, rns }
    }

    /// The integer for the element `e` of the wrong field.
    pub fn from_fe(e: &BigNat, rns: Rc<Rns<NUMBER_OF_LIMBS, BIT_LEN_LIMB>>) -> (r: Self)
        requires
            rns.native_modulus@ > 0,
        ensures
            r.limb_values() == decompose_fe(e@, NUMBER_OF_LIMBS as nat, BIT_LEN_LIMB as nat, rns.native_modulus@),
            r.rns_ptr() == rns,
            rns.well_shaped() ==> r.wf(),
            rns.wf() && e@ < rns.wrong_modulus@ ==> r.common_value() == e@,
    {
        let r = Integer::from_big(e, rns);
        proof {
            if r.rns_view().wf() && e@ < r.rns_view().wrong_modulus@ {
                law_built_limb_fits(&r.rns_view());
                lemma_small_mod(e@, r.rns_view().binary_modulus@);
            }
        }
        r
    }

    /// The integer whose limbs are the given native field elements.
    pub fn from_limbs(limbs: &[BigNat; NUMBER_OF_LIMBS], rns: Rc<Rns<NUMBER_OF_LIMBS, BIT_LEN_LIMB>>) -> (r: Self)
        ensures
            r.limb_values() == values(limbs@),
            r.rns_ptr() == rns,
            rns.well_shaped() && all_below(values(limbs@), rns.native_modulus@) ==> r.wf(),
    {
        let mut out: Vec<Limb> = Vec::new();
        let mut i: usize = 0;
        while i < NUMBER_OF_LIMBS
            invariant
                i <= NUMBER_OF_LIMBS,
                limbs@.len() == NUMBER_OF_LIMBS,
                out.len() == i,
                forall|j: int| 0 <= j < i ==> #[trigger] out@[j]@ == limbs@[j]@,
            decreases NUMBER_OF_LIMBS - i,
        {
            out.push(Limb::new(limbs[i].duplicate()));
            i += 1;
        }
        assert(limb_values(out@) =~= values(limbs@));
        Integer { limbs: out, rns }
    }

    /// The integer whose little endian bytes are `e`.
    pub fn from_bytes_le(e: &[u8], rns: Rc<Rns<NUMBER_OF_LIMBS, BIT_LEN_LIMB>>) -> (r: Self)
        requires
            rns.native_modulus@ > 0,
        ensures
            r.limb_values() == decompose_fe(bytes_value(e@), NUMBER_OF_LIMBS as nat, BIT_LEN_LIMB as nat, rns.native_modulus@),
            r.rns_ptr() == rns,
            rns.well_shaped() ==> r.wf(),
            rns.wf() ==> r.common_value() == bytes_value(e@) % rns.binary_modulus@,
    {
        let x = BigNat::from_bytes_le(e);
        Self::from_big(&x, rns)
    }

    /// The limbs, as native field elements.
    pub fn limbs(&self) -> (r: Vec<BigNat>)
        ensures
            values(r@) == self.limb_values(),
    {
        let mut out: Vec<BigNat> = Vec::new();
        let mut i: usize = 0;
        while i < self.limbs.len()
            invariant
                i <= self.limbs.len(),
                out.len() == i,
                forall|j: int| 0 <= j < i ==> #[trigger] out@[j]@ == self.limbs@[j]@,
            decreases self.limbs.len() - i,
        {
            out.push(self.limbs[i].fe());
            i += 1;
        }
        assert(values(out@) =~= self.limb_values());
        out
    }

    /// The limb at `idx`.
    pub fn limb(&self, idx: usize) -> (r: Limb)
        requires
            idx < self.limb_values().len(),
        ensures
            r@ == self.limb_values()[idx as int],
    {
        Limb::new(self.limbs[idx].fe())
    }

    /// Multiplies every limb by the native field element `k`.
    pub fn scale(&mut self, k: &BigNat)
        requires
            old(self).rns_view().native_modulus@ > 0,
        ensures
            final(self).rns_ptr() == old(self).rns_ptr(),
            old(self).wf() ==> final(self).wf(),
            final(self).limb_values().len() == old(self).limb_values().len(),
            forall|i: int| 0 <= i < old(self).limb_values().len() ==>
                #[trigger] final(self).limb_values()[i] == (old(self).limb_values()[i] * k@) % old(self).rns_view().native_modulus@,
    {
        let mut i: usize = 0;
        let ghost before = self.limb_values();
        while i < self.limbs.len()
            invariant
                i <= self.limbs.len(),
                self.rns == old(self).rns,
                self.rns.native_modulus@ > 0,
                before == old(self).limb_values(),
                self.limbs.len() == before.len(),
                forall|j: int| 0 <= j < i ==> #[trigger] self.limbs@[j]@ == (before[j] * k@) % self.rns.native_modulus@,
                forall|j: int| i <= j < before.len() ==> #[trigger] self.limbs@[j]@ == before[j],
            decreases self.limbs.len() - i,
        {
            assert(self.limbs@[i as int]@ == before[i as int]);
            let scaled = fe_mul(&self.limbs[i].0, k, &self.rns.native_modulus);
            self.limbs.set(i, Limb(scaled));
            i += 1;
        }
        assert forall|j: int| 0 <= j < before.len() implies
            #[trigger] self.limb_values()[j] == (before[j] * k@) % self.rns.native_modulus@ by {
            assert(self.limb_values()[j] == self.limbs@[j]@);
        }
        assert forall|j: int| 0 <= j < before.len() implies #[trigger] self.limb_values()[j] < self.rns.native_modulus@ by {
            assert(self.limb_values()[j] == self.limbs@[j]@);
            lemma_mod_bound((before[j] * k@) as int, self.rns.native_modulus@ as int);
        }
    }

    /// The residues of a gate whose result is this integer and whose
    /// intermediate values are `t`.
    pub open spec fn residues_of(&self, t: Seq<nat>) -> Seq<nat> {
        let rns = self.rns_view();
        residues(
            self.limb_values(),
            t,
            rns.native_modulus@,
            rns.left_shifters@[1]@,
            rns.right_shifters@[1]@,
            rns.right_shifters@[2]@,
        )
    }

    /// The residues of a gate whose result is this integer and whose
    /// intermediate values are `t`: what carries from each pair of limbs to the
    /// next.
    fn residues(&self, t: &Vec<BigNat>) -> (r: Vec<BigNat>)
        requires
            self.wf(),
            t.len() == NUMBER_OF_LIMBS,
        ensures
            values(r@) == self.residues_of(values(t@)),
    {
        let ghost rl = self.limb_values();
        let ghost tv = values(t@);
        let n = &self.rns.native_modulus;
        let is_odd = NUMBER_OF_LIMBS % 2 == 1;
        let u_len = NUMBER_OF_LIMBS / 2 + NUMBER_OF_LIMBS % 2;
        assert(u_len == (NUMBER_OF_LIMBS + 1) / 2);
        let lsh1 = self.rns.left_shifter(1);
        let rsh1 = self.rns.right_shifter(1);
        let rsh2 = self.rns.right_shifter(2);
        let mut carry = BigNat::from_u64(0);
        let mut out: Vec<BigNat> = Vec::new();
        let mut i: usize = 0;
        while i < u_len
            invariant
                self.wf(),
                n@ == self.rns_view().native_modulus@,
                n@ > 0,
                rl == self.limb_values(),
                tv == values(t@),
                t.len() == NUMBER_OF_LIMBS,
                is_odd == (NUMBER_OF_LIMBS % 2 == 1),
                u_len == (NUMBER_OF_LIMBS + 1) / 2,
                lsh1@ == self.rns_view().left_shifters@[1]@,
                rsh1@ == self.rns_view().right_shifters@[1]@,
                rsh2@ == self.rns_view().right_shifters@[2]@,
                i <= u_len,
                out.len() == i,
                forall|k: int| 0 <= k < i ==> #[trigger] out@[k]@ == residue(rl, tv, n@, lsh1@, rsh1@, rsh2@, k as nat),
                i > 0 ==> carry@ == residue(rl, tv, n@, lsh1@, rsh1@, rsh2@, (i - 1) as nat),
                i == 0 ==> carry@ == 0,
            decreases u_len - i,
        {
            let j = 2 * i;
            let v = if i == u_len - 1 && is_odd {
                let r = self.limb(j).fe();
                let u = fe_sub(&t[j], &r, n);
                let v = fe_mul(&u, &rsh1, n);
                proof {
                    let nn = n@ as int;
                    lemma_congruent_mod(tv[j as int] - rl[j as int], nn);
                    lemma_congruent_mod(rsh1@ as int, nn);
                    lemma_congruent_mul2(u@ as int, rsh1@ as int, tv[j as int] - rl[j as int], rsh1@ as int, nn);
                    lemma_congruent_mod((u@ * rsh1@) as int, nn);
                }
                v
            } else {
                let r_0 = self.limb(j).fe();
                let r_1 = self.limb(j + 1).fe();
                let s_a = fe_mul(&t[j + 1], &lsh1, n);
                let s_b = fe_add(&t[j], &s_a, n);
                let s_c = fe_sub(&s_b, &r_0, n);
                let s_d = fe_mul(&lsh1, &r_1, n);
                let s_e = fe_sub(&s_c, &s_d, n);
                let u = fe_add(&s_e, &carry, n);
                let v = fe_mul(&u, &rsh2, n);
                proof {
                    let nn = n@ as int;
                    let t0 = tv[j as int] as int;
                    let t1 = tv[j + 1] as int;
                    let r0 = rl[j as int] as int;
                    let r1 = rl[j + 1] as int;
                    let l1 = lsh1@ as int;
                    let c = carry@ as int;
                    lemma_congruent_mod(t1 * l1, nn);
                    lemma_congruent_mod(t0, nn);
                    lemma_congruent_add2(t0, s_a@ as int, t0, t1 * l1, nn);
                    lemma_congruent_mod(t0 + s_a@, nn);
                    lemma_congruent_mod(r0, nn);
                    lemma_congruent_sub2(s_b@ as int, r0, t0 + t1 * l1, r0, nn);
                    lemma_congruent_mod(s_b@ - r0, nn);
                    lemma_congruent_mod(l1 * r1, nn);
                    lemma_congruent_sub2(s_c@ as int, s_d@ as int, t0 + t1 * l1 - r0, l1 * r1, nn);
                    lemma_congruent_mod(s_c@ - s_d@, nn);
                    lemma_congruent_mod(c, nn);
                    lemma_congruent_add2(s_e@ as int, c, t0 + t1 * l1 - r0 - l1 * r1, c, nn);
                    lemma_congruent_mod(s_e@ + c, nn);
                    lemma_congruent_mod(rsh2@ as int, nn);
                    lemma_congruent_mul2(u@ as int, rsh2@ as int, t0 + t1 * l1 - r0 - l1 * r1 + c, rsh2@ as int, nn);
                    lemma_congruent_mod((u@ * rsh2@) as int, nn);
                }
                v
            };
            proof {
                assert(v@ == residue(rl, tv, n@, lsh1@, rsh1@, rsh2@, i as nat));
            }
            carry = v.duplicate();
            out.push(v);
            i += 1;
        }
        proof {
            assert(values(out@) =~= self.residues_of(tv));
        }
        out
    }

    /// The multiplication witnesses: `self * other = wrong_modulus * quotient +
    /// result`, the intermediate columns of `self * other + p * quotient` for the
    /// limbs `p` of `-wrong_modulus` modulo the binary modulus, and the residues.
    pub fn mul(&self, other: &Self) -> (r: ReductionWitness<NUMBER_OF_LIMBS, BIT_LEN_LIMB>)
        requires
            self.wf(),
            other.limb_values().len() == NUMBER_OF_LIMBS,
        ensures
            r.result.rns_ptr() == self.rns_ptr(),
            r.result.wf(),
            r.quotient matches Quotient::Long(q) && q.wf(),
            r.result.limb_values() == decompose_fe(
                (self.common_value() * other.common_value()) % self.rns_view().wrong_modulus@,
                NUMBER_OF_LIMBS as nat,
                BIT_LEN_LIMB as nat,
                self.rns_view().native_modulus@,
            ),
            r.quotient matches Quotient::Long(q) && q.rns_ptr() == self.rns_ptr() && q.limb_values()
                == decompose_fe(
                (self.common_value() * other.common_value()) / self.rns_view().wrong_modulus@,
                NUMBER_OF_LIMBS as nat,
                BIT_LEN_LIMB as nat,
                self.rns_view().native_modulus@,
            ),
            r.quotient matches Quotient::Long(q) && values(r.intermediate@) == mul_intermediate(
                self.limb_values(),
                other.limb_values(),
                values(self.rns_view().negative_wrong_modulus_decomposed@),
                q.limb_values(),
                self.rns_view().native_modulus@,
            ),
            values(r.residues@) == r.result.residues_of(values(r.intermediate@)),
            self.rns_view().wf() ==> r.result.common_value() == (self.common_value() * other.common_value())
                % self.rns_view().wrong_modulus@,
            r.quotient matches Quotient::Long(q) && (self.rns_view().wf() && (self.common_value()
                * other.common_value()) / self.rns_view().wrong_modulus@ < self.rns_view().binary_modulus@
                ==> q.common_value() == (self.common_value() * other.common_value()) / self.rns_view().wrong_modulus@),
    {
        let n = &self.rns.native_modulus;
        let modulus = &self.rns.wrong_modulus;
        let negative_modulus = &self.rns.negative_wrong_modulus_decomposed;
        let (q_big, r_big) = self.value().mul(&other.value()).div_rem(modulus);
        let quotient = Self::from_big(&q_big, Rc::clone(&self.rns));
        let result = Self::from_big(&r_big, Rc::clone(&self.rns));
        proof {
            if self.rns_view().wf() {
                law_built_limb_fits(&self.rns_view());
                lemma_mod_bound((self.common_value() * other.common_value()) as int, modulus@ as int);
                lemma_small_mod(r_big@, self.rns_view().binary_modulus@);
                if q_big@ < self.rns_view().binary_modulus@ {
                    lemma_small_mod(q_big@, self.rns_view().binary_modulus@);
                }
            }
        }
        let ghost a = self.limb_values();
        let ghost b = other.limb_values();
        let ghost p = values(negative_modulus@);
        let ghost q = quotient.limb_values();
        let ghost nn = n@ as int;
        let l = NUMBER_OF_LIMBS;
        let mut t: Vec<BigNat> = Vec::new();
        let mut z: usize = 0;
        while z < l
            invariant
                z <= l,
                l == NUMBER_OF_LIMBS,
                t.len() == z,
                forall|m: int| 0 <= m < z ==> #[trigger] t@[m]@ == 0,
            decreases l - z,
        {
            t.push(BigNat::from_u64(0));
            z += 1;
        }
        let mut k: usize = 0;
        while k < l
            invariant
                self.wf(),
                l == NUMBER_OF_LIMBS,
                n@ == self.rns_view().native_modulus@,
                nn == n@,
                n@ > 0,
                negative_modulus@ == self.rns_view().negative_wrong_modulus_decomposed@,
                a == self.limb_values(),
                b == other.limb_values(),
                b.len() == NUMBER_OF_LIMBS,
                p == values(negative_modulus@),
                q == quotient.limb_values(),
                q.len() == NUMBER_OF_LIMBS,
                k <= l,
                t.len() == l,
                forall|m: int| 0 <= m < k ==> #[trigger] t@[m]@ == (mul_column(a, b, p, q, m, m + 1) % nn) as nat,
                forall|m: int| k <= m < l ==> #[trigger] t@[m]@ == 0,
            decreases l - k,
        {
            let mut i: usize = 0;
            proof {
                assert(mul_column(a, b, p, q, k as int, 0) == 0);
                lemma_small_mod(0, n@);
            }
            while i < k + 1
                invariant
                    self.wf(),
                    l == NUMBER_OF_LIMBS,
                    n@ == self.rns_view().native_modulus@,
                    nn == n@,
                    n@ > 0,
                    negative_modulus@ == self.rns_view().negative_wrong_modulus_decomposed@,
                    a == self.limb_values(),
                    b == other.limb_values(),
                    b.len() == NUMBER_OF_LIMBS,
                    p == values(negative_modulus@),
                    q == quotient.limb_values(),
                    q.len() == NUMBER_OF_LIMBS,
                    k < l,
                    i <= k + 1,
                    t.len() == l,
                    forall|m: int| 0 <= m < k ==> #[trigger] t@[m]@ == (mul_column(a, b, p, q, m, m + 1) % nn) as nat,
                    forall|m: int| k < m < l ==> #[trigger] t@[m]@ == 0,
                    t@[k as int]@ == (mul_column(a, b, p, q, k as int, i as int) % nn) as nat,
                decreases k + 1 - i,
            {
                let j = k - i;
                let ab = fe_mul(&self.limb(i).fe(), &other.limb(j).fe(), n);
                let pq = fe_mul(&negative_modulus[i], &quotient.limb(j).fe(), n);
                let s = fe_add(&t[i + j], &ab, n);
                let tt = fe_add(&s, &pq, n);
                proof {
                    let prev = mul_column(a, b, p, q, k as int, i as int);
                    let x = a[i as int] * b[j as int];
                    let y = p[i as int] * q[j as int];
                    assert(mul_column(a, b, p, q, k as int, i + 1) == prev + x + y);
                    lemma_congruent_mod(prev, nn);
                    lemma_congruent_mod(x as int, nn);
                    lemma_congruent_add2(t@[k as int]@ as int, ab@ as int, prev, x as int, nn);
                    lemma_congruent_mod((t@[k as int]@ + ab@) as int, nn);
                    lemma_congruent_mod(y as int, nn);
                    lemma_congruent_add2(s@ as int, pq@ as int, prev + x, y as int, nn);
                    lemma_congruent_mod((s@ + pq@) as int, nn);
                }
                t.set(i + j, tt);
                i += 1;
            }
            k += 1;
        }
        let residues = result.residues(&t);
        proof {
            assert(values(t@) =~= mul_intermediate(a, b, p, q, n@));
        }
        ReductionWitness { result, intermediate: t, quotient: Quotient::Long(quotient), residues }
    }

    /// The squaring witnesses: those of `self * self`.
    pub fn square(&self) -> (r: ReductionWitness<NUMBER_OF_LIMBS, BIT_LEN_LIMB>)
        requires
            self.wf(),
        ensures
            r.result.rns_ptr() == self.rns_ptr(),
            r.result.wf(),
            r.quotient matches Quotient::Long(q) && q.wf(),
            r.result.limb_values() == decompose_fe(
                (self.common_value() * self.common_value()) % self.rns_view().wrong_modulus@,
                NUMBER_OF_LIMBS as nat,
                BIT_LEN_LIMB as nat,
                self.rns_view().native_modulus@,
            ),
            r.quotient matches Quotient::Long(q) && q.rns_ptr() == self.rns_ptr() && q.limb_values()
                == decompose_fe(
                (self.common_value() * self.common_value()) / self.rns_view().wrong_modulus@,
                NUMBER_OF_LIMBS as nat,
                BIT_LEN_LIMB as nat,
                self.rns_view().native_modulus@,
            ),
            r.quotient matches Quotient::Long(q) && values(r.intermediate@) == mul_intermediate(
                self.limb_values(),
                self.limb_values(),
                values(self.rns_view().negative_wrong_modulus_decomposed@),
                q.limb_values(),
                self.rns_view().native_modulus@,
            ),
            values(r.residues@) == r.result.residues_of(values(r.intermediate@)),
            self.rns_view().wf() ==> r.result.common_value() == (self.common_value() * self.common_value())
                % self.rns_view().wrong_modulus@,
            r.quotient matches Quotient::Long(q) && (self.rns_view().wf() && (self.common_value()
                * self.common_value()) / self.rns_view().wrong_modulus@ < self.rns_view().binary_modulus@
                ==> q.common_value() == (self.common_value() * self.common_value()) / self.rns_view().wrong_modulus@),
    {
        self.mul(self)
    }

    /// The reduction witnesses: `self = wrong_modulus * quotient + result` with a
    /// quotient of a single limb, the intermediate values `a[i] + p[i] * quotient`
    /// for the limbs `p` of `-wrong_modulus` modulo the binary modulus, and the
    /// residues.
    pub fn reduce(&self) -> (r: ReductionWitness<NUMBER_OF_LIMBS, BIT_LEN_LIMB>)
        requires
            self.wf(),
            self.common_value() / self.rns_view().wrong_modulus@ < pow2(BIT_LEN_LIMB as nat),
        ensures
            r.result.rns_ptr() == self.rns_ptr(),
            r.result.wf(),
            r.result.limb_values() == decompose_fe(
                self.common_value() % self.rns_view().wrong_modulus@,
                NUMBER_OF_LIMBS as nat,
                BIT_LEN_LIMB as nat,
                self.rns_view().native_modulus@,
            ),
            r.quotient matches Quotient::Short(q) && q@ == (self.common_value()
                / self.rns_view().wrong_modulus@) % self.rns_view().native_modulus@,
            r.quotient matches Quotient::Short(q) && values(r.intermediate@) == reduce_intermediate(
                self.limb_values(),
                values(self.rns_view().negative_wrong_modulus_decomposed@),
                q@,
                self.rns_view().native_modulus@,
            ),
            values(r.residues@) == r.result.residues_of(values(r.intermediate@)),
            self.rns_view().wf() ==> r.result.common_value() == self.common_value() % self.rns_view().wrong_modulus@,
            r.quotient matches Quotient::Short(q) && (self.rns_view().wf() ==> q@ == self.common_value()
                / self.rns_view().wrong_modulus@),
            r.quotient matches Quotient::Short(q) && compose(values(r.intermediate@), BIT_LEN_LIMB as nat)
                % self.rns_view().native_modulus@ == (self.common_value() + q@ * compose(
                values(self.rns_view().negative_wrong_modulus_decomposed@),
                BIT_LEN_LIMB as nat,
            )) % self.rns_view().native_modulus@,
            self.rns_view().wf() ==> compose(values(r.intermediate@), BIT_LEN_LIMB as nat)
                % self.rns_view().native_modulus@ == (self.common_value() + (self.common_value()
                / self.rns_view().wrong_modulus@) * (self.rns_view().binary_modulus@ - self.rns_view().wrong_modulus@))
                % (self.rns_view().native_modulus@ as int),
    {
        let n = &self.rns.native_modulus;
        let modulus = &self.rns.wrong_modulus;
        let negative_modulus = &self.rns.negative_wrong_modulus_decomposed;
        let (q_big, r_big) = self.value().div_rem(modulus);
        let quotient = big_to_fe(&q_big, n);
        proof {
            if self.rns_view().wf() {
                law_built_limb_fits(&self.rns_view());
                lemma_small_mod(q_big@, n@);
                lemma_mod_bound(self.common_value() as int, modulus@ as int);
                lemma_small_mod(r_big@, self.rns_view().binary_modulus@);
            }
        }
        let limbs = self.limbs();
        let ghost a = self.limb_values();
        let ghost p = values(negative_modulus@);
        let mut t: Vec<BigNat> = Vec::new();
        let mut i: usize = 0;
        while i < NUMBER_OF_LIMBS
            invariant
                self.wf(),
                n@ == self.rns_view().native_modulus@,
                n@ > 0,
                negative_modulus@ == self.rns_view().negative_wrong_modulus_decomposed@,
                a == self.limb_values(),
                values(limbs@) == a,
                p == values(negative_modulus@),
                i <= NUMBER_OF_LIMBS,
                t.len() == i,
                forall|m: int| 0 <= m < i ==> #[trigger] t@[m]@ == (a[m] + p[m] * quotient@) % n@,
            decreases NUMBER_OF_LIMBS - i,
        {
            let pq = fe_mul(&negative_modulus[i], &quotient, n);
            let ti = fe_add(&limbs[i], &pq, n);
            proof {
                let nn = n@ as int;
                let x = p[i as int] * quotient@;
                lemma_congruent_mod(a[i as int] as int, nn);
                lemma_congruent_mod(x as int, nn);
                lemma_congruent_add2(a[i as int] as int, pq@ as int, a[i as int] as int, x as int, nn);
                lemma_congruent_mod((a[i as int] + pq@) as int, nn);
            }
            t.push(ti);
            i += 1;
        }
        let result = Integer::from_big(&r_big, Rc::clone(&self.rns));
        let residues = result.residues(&t);
        proof {
            assert(values(t@) =~= reduce_intermediate(a, p, quotient@, n@));
            law_reduce_intermediate(a, p, quotient@, n@, BIT_LEN_LIMB as nat);
            if self.rns_view().wf() {
                let rv = self.rns_view();
                let big_t = rv.binary_modulus@;
                law_built_limb_fits(&rv);
                lemma_pow2_pos(BIT_LEN_LIMB as nat);
                lemma_compose_decompose_fe((big_t - rv.wrong_modulus@) as nat, NUMBER_OF_LIMBS as nat, BIT_LEN_LIMB as nat, n@);
                lemma_small_mod((big_t - rv.wrong_modulus@) as nat, big_t);
            }
        }
        ReductionWitness { result, intermediate: t, quotient: Quotient::Short(quotient), residues }
    }

    /// The comparison witnesses: the limbs of `(wrong_modulus - 1) - self`,
    /// subtracted limb by limb with borrows, each taken in the native field, and
    /// the borrow out of each limb.
    pub fn compare_to_modulus(&self) -> (r: ComparisionWitness<NUMBER_OF_LIMBS, BIT_LEN_LIMB>)
        requires
            self.wf(),
            subtraction_fits(
                values(self.rns_view().wrong_modulus_minus_one@),
                self.limb_values(),
                BIT_LEN_LIMB as nat,
            ),
        ensures
            r.result.rns_ptr() == self.rns_ptr(),
            r.result.wf(),
            r.borrow.len() == NUMBER_OF_LIMBS,
            forall|i: int| 0 <= i < NUMBER_OF_LIMBS ==> #[trigger] r.borrow@[i] == borrow_out(
                values(self.rns_view().wrong_modulus_minus_one@),
                self.limb_values(),
                i as nat,
            ),
            forall|i: int| 0 <= i < NUMBER_OF_LIMBS ==> #[trigger] r.result.limb_values()[i] == difference_limb(
                values(self.rns_view().wrong_modulus_minus_one@),
                self.limb_values(),
                BIT_LEN_LIMB as nat,
                i as nat,
            ) % (self.rns_view().native_modulus@ as int),
    {
        let ghost m = values(self.rns.wrong_modulus_minus_one@);
        let ghost a = self.limb_values();
        let n = &self.rns.native_modulus;
        let modulus_minus_one = &self.rns.wrong_modulus_minus_one;
        let mut borrow: Vec<bool> = Vec::new();
        let mut limbs: Vec<BigNat> = Vec::new();
        let mut prev_borrow = BigNat::from_u64(0);
        let mut i: usize = 0;
        while i < NUMBER_OF_LIMBS
            invariant
                self.wf(),
                n@ == self.rns_view().native_modulus@,
                n@ > 0,
                modulus_minus_one@ == self.rns_view().wrong_modulus_minus_one@,
                m == values(modulus_minus_one@),
                a == self.limb_values(),
                subtraction_fits(m, a, BIT_LEN_LIMB as nat),
                i <= NUMBER_OF_LIMBS,
                borrow.len() == i,
                limbs.len() == i,
                prev_borrow@ == borrow_in(m, a, i as nat),
                forall|k: int| 0 <= k < i ==> #[trigger] borrow@[k] == borrow_out(m, a, k as nat),
                forall|k: int| 0 <= k < i ==> #[trigger] limbs@[k]@ == difference_limb(m, a, BIT_LEN_LIMB as nat, k as nat) % (n@ as int),
            decreases NUMBER_OF_LIMBS - i,
        {
            let limb = self.limbs[i].value();
            let modulus_limb = modulus_minus_one[i].duplicate();
            let cur_borrow = modulus_limb.less_than(&limb.add(&prev_borrow));
            borrow.push(cur_borrow);
            let cur_borrow_big = bool_to_big(cur_borrow).shl(BIT_LEN_LIMB as u64);
            proof {
                assert(limb@ == a[i as int]);
                assert(cur_borrow == borrow_out(m, a, i as nat));
                assert(difference_limb(m, a, BIT_LEN_LIMB as nat, i as nat) >= 0);
                lemma_pow2_pos(BIT_LEN_LIMB as nat);
            }
            let res_limb = modulus_limb.add(&cur_borrow_big).sub(&prev_borrow).sub(&limb);
            prev_borrow = bool_to_big(cur_borrow);
            limbs.push(big_to_fe(&res_limb, n));
            i += 1;
        }
        let result = Integer::from_limbs_vec(&limbs, Rc::clone(&self.rns));
        ComparisionWitness { result, borrow }
    }

    /// An integer that is a multiple of the wrong modulus, made of the limbs of
    /// `base_aux` all shifted left by the fewest bits that bring every limb to at
    /// least the matching value of `max_vals`.
    pub fn subtracion_aux(
        max_vals: &[BigNat; NUMBER_OF_LIMBS],
        rns: Rc<Rns<NUMBER_OF_LIMBS, BIT_LEN_LIMB>>,
    ) -> (r: Self)
        requires
            rns.well_shaped(),
            forall|i: int| 0 <= i < NUMBER_OF_LIMBS ==> (#[trigger] rns.base_aux@[i])@ > 0 || max_vals@[i]@ <= rns.base_aux@[i]@,
            forall|i: int| 0 <= i < NUMBER_OF_LIMBS ==> min_shift(max_vals@[i]@, (#[trigger] rns.base_aux@[i])@) < usize::MAX,
        ensures
            r.rns_ptr() == rns,
            r.wf(),
            forall|i: int| 0 <= i < NUMBER_OF_LIMBS ==> #[trigger] r.limb_values()[i] == (rns.base_aux@[i]@ * pow2(
                max_min_shift(values(max_vals@), values(rns.base_aux@), NUMBER_OF_LIMBS as nat),
            )) % rns.native_modulus@,
            exists|s: nat| {
                &&& #[trigger] shift_reaches(values(max_vals@), values(rns.base_aux@), s)
                &&& forall|k: nat| k < s ==> !#[trigger] shift_reaches(values(max_vals@), values(rns.base_aux@), k)
                &&& forall|i: int| 0 <= i < NUMBER_OF_LIMBS ==> #[trigger] r.limb_values()[i] == (rns.base_aux@[i]@
                    * pow2(s)) % rns.native_modulus@
            },
    {
        proof {
            let mv = values(max_vals@);
            let av = values(rns.base_aux@);
            assert forall|i: int| 0 <= i < av.len() implies #[trigger] av[i] > 0 || mv[i] <= av[i] by {
                assert(rns.base_aux@[i]@ > 0 || max_vals@[i]@ <= rns.base_aux@[i]@);
            }
            law_subtraction_shift_least(mv, av);
        }
        let ghost mv = values(max_vals@);
        let ghost av = values(rns.base_aux@);
        let mut max_shift: usize = 0;
        let mut idx: usize = 0;
        while idx < NUMBER_OF_LIMBS
            invariant
                rns.well_shaped(),
                mv == values(max_vals@),
                av == values(rns.base_aux@),
                forall|i: int| 0 <= i < NUMBER_OF_LIMBS ==> (#[trigger] rns.base_aux@[i])@ > 0 || max_vals@[i]@ <= rns.base_aux@[i]@,
                forall|i: int| 0 <= i < NUMBER_OF_LIMBS ==> min_shift(max_vals@[i]@, (#[trigger] rns.base_aux@[i])@) < usize::MAX,
                idx <= NUMBER_OF_LIMBS,
                max_shift == max_min_shift(mv, av, idx as nat),
            decreases NUMBER_OF_LIMBS - idx,
        {
            let max_val = &max_vals[idx];
            let mut shift: usize = 1;
            let mut aux = rns.base_aux[idx].duplicate();
            let ghost a0 = rns.base_aux@[idx as int]@;
            let ghost before = max_shift;
            assert(rns.base_aux@[idx as int]@ > 0 || max_vals@[idx as int]@ <= rns.base_aux@[idx as int]@);
            assert(min_shift(max_vals@[idx as int]@, rns.base_aux@[idx as int]@) < usize::MAX);
            proof {
                lemma2_to64();
                assert(aux@ == a0 * pow2(0));
            }
            while aux.less_than(max_val)
                invariant
                    1 <= shift,
                    a0 == rns.base_aux@[idx as int]@,
                    a0 > 0 || max_val@ <= a0,
                    aux@ == a0 * pow2((shift - 1) as nat),
                    aux@ > 0 || max_val@ <= aux@,
                    min_shift(max_val@, a0) == (shift - 1) + min_shift(max_val@, aux@),
                    min_shift(max_val@, a0) < usize::MAX,
                    shift == 1 ==> max_shift == before,
                    shift > 1 ==> max_shift == (if before > shift - 1 { before } else { (shift - 1) as usize }),
                decreases gap(max_val@, aux@),
            {
                let ghost prev = aux@;
                aux = aux.shl(1);
                proof {
                    lemma2_to64();
                    lemma_pow2_adds((shift - 1) as nat, 1);
                    vstd::arithmetic::mul::lemma_mul_is_associative(a0 as int, pow2((shift - 1) as nat) as int, 2);
                    assert(min_shift(max_val@, prev) == 1 + min_shift(max_val@, 2 * prev));
                }
                max_shift = if shift > max_shift { shift } else { max_shift };
                shift += 1;
            }
            proof {
                assert(min_shift(max_val@, aux@) == 0);
                assert(mv[idx as int] == max_val@);
                assert(av[idx as int] == a0);
            }
            idx += 1;
        }
        let mut limbs: Vec<BigNat> = Vec::new();
        let mut i: usize = 0;
        while i < NUMBER_OF_LIMBS
            invariant
                rns.well_shaped(),
                i <= NUMBER_OF_LIMBS,
                limbs.len() == i,
                max_shift == max_min_shift(values(max_vals@), values(rns.base_aux@), NUMBER_OF_LIMBS as nat),
                forall|k: int| 0 <= k < i ==> #[trigger] limbs@[k]@ == (rns.base_aux@[k]@ * pow2(max_shift as nat)) % rns.native_modulus@,
            decreases NUMBER_OF_LIMBS - i,
        {
            let shifted = rns.base_aux[i].shl(max_shift as u64);
            limbs.push(big_to_fe(&shifted, &rns.native_modulus));
            i += 1;
        }
        let r = Self::from_limbs_vec(&limbs, rns);
        proof {
            let s = max_min_shift(values(max_vals@), values(rns.base_aux@), NUMBER_OF_LIMBS as nat);
            assert(shift_reaches(values(max_vals@), values(rns.base_aux@), s));
        }
        r
    }

    /// The inverse in the wrong field: `None` when the value is zero modulo the
    /// wrong modulus or has no inverse, and otherwise the integer of the inverse.
    pub fn invert(&self) -> (r: Option<Self>)
        requires
            self.wf(),
        ensures
            r matches Some(i) ==> i.wf() && i.rns_ptr() == self.rns_ptr() && exists|x: nat| #[trigger] self.is_inverse(x) && i.limb_values()
                == decompose_fe(x, NUMBER_OF_LIMBS as nat, BIT_LEN_LIMB as nat, self.rns_view().native_modulus@)
                && (self.rns_view().wf() ==> i.common_value() == x),
            r is None ==> forall|x: nat| !#[trigger] self.is_inverse(x),
    {
        let w = &self.rns.wrong_modulus;
        let a_biguint = self.value();
        let a_w = big_to_fe(&a_biguint, w);
        let inv_w = fe_invert(&a_w, w);
        proof {
            lemma_small_mod(a_w@, w@);
        }
        match inv_w {
            Some(inv) => {
                let r = Self::from_big(&inv, Rc::clone(&self.rns));
                proof {
                    if self.rns_view().wf() {
                        law_built_limb_fits(&self.rns_view());
                        lemma_small_mod(inv@, self.rns_view().binary_modulus@);
                    }
                }
                assert(self.is_inverse(inv@));
                Some(r)
            },
            None => None,
        }
    }

    /// `x` is the inverse of this integer in the wrong field.
    pub open spec fn is_inverse(&self, x: nat) -> bool {
        let w = self.rns_view().wrong_modulus@;
        &&& x < w
        &&& self.common_value() % w != 0
        &&& ((self.common_value() % w) * x) % w == 1nat % w
    }

    /// The division witness in the wrong field: `None` when `denom` has no
    /// inverse, and otherwise the integer of `self * denom^-1` modulo the wrong
    /// modulus, with the inverse taken as an integer of this system.
    pub fn div(&self, denom: &Self) -> (r: Option<Self>)
        requires
            self.wf(),
            denom.wf(),
            denom.rns_ptr() == self.rns_ptr(),
        ensures
            r matches Some(i) ==> i.wf() && i.rns_ptr() == self.rns_ptr() && exists|x: nat| #[trigger] denom.is_inverse(x) && i.limb_values()
                == decompose_fe(
                (self.common_value() * compose(
                    decompose_fe(x, NUMBER_OF_LIMBS as nat, BIT_LEN_LIMB as nat, self.rns_view().native_modulus@),
                    BIT_LEN_LIMB as nat,
                )) % self.rns_view().wrong_modulus@,
                NUMBER_OF_LIMBS as nat,
                BIT_LEN_LIMB as nat,
                self.rns_view().native_modulus@,
            ),
            r matches Some(i) ==> (self.rns_view().wf() ==> exists|x: nat| #[trigger] denom.is_inverse(x)
                && i.common_value() == (self.common_value() * x) % self.rns_view().wrong_modulus@),
            r is None ==> forall|x: nat| !#[trigger] denom.is_inverse(x),
    {
        match denom.invert() {
            Some(b_inv) => {
                let a_mul_b = self.value().mul(&b_inv.value()).div_rem(&self.rns.wrong_modulus).1;
                let r = Self::from_big(&a_mul_b, Rc::clone(&self.rns));
                proof {
                    if self.rns_view().wf() {
                        let x = choose|x: nat| #[trigger] denom.is_inverse(x) && b_inv.limb_values() == decompose_fe(
                            x,
                            NUMBER_OF_LIMBS as nat,
                            BIT_LEN_LIMB as nat,
                            self.rns_view().native_modulus@,
                        ) && (denom.rns_view().wf() ==> b_inv.common_value() == x);
                        law_built_limb_fits(&self.rns_view());
                        lemma_mod_bound((self.common_value() * x) as int, self.rns_view().wrong_modulus@ as int);
                        lemma_small_mod(a_mul_b@, self.rns_view().binary_modulus@);
                        assert(denom.is_inverse(x));
                    }
                }
                Some(r)
            },
            None => None,
        }
    }
}

/// One for true, zero for false.
pub fn bool_to_big(truth: bool) -> (r: BigNat)
    ensures
        r@ == (if truth { 1nat } else { 0nat }),
{
    if truth {
        BigNat::from_u64(1)
    } else {
        BigNat::from_u64(0)
    }
}

/// The quotient of a gate: a single native field element or a whole integer.
#[derive(Clone)]
pub enum Quotient<const NUMBER_OF_LIMBS: usize, const BIT_LEN_LIMB: usize> {
    Short(BigNat),
    Long(Integer<NUMBER_OF_LIMBS, BIT_LEN_LIMB>),
}

/// The values that a multiplication or reduction gate assigns.
#[derive(Clone)]
pub struct ReductionWitness<const NUMBER_OF_LIMBS: usize, const BIT_LEN_LIMB: usize> {
    pub result: Integer<NUMBER_OF_LIMBS, BIT_LEN_LIMB>,
    pub quotient: Quotient<NUMBER_OF_LIMBS, BIT_LEN_LIMB>,
    pub intermediate: Vec<BigNat>,
    pub residues: Vec<BigNat>,
}

/// The values that a comparison gate assigns.
#[derive(Clone)]
pub struct ComparisionWitness<const NUMBER_OF_LIMBS: usize, const BIT_LEN_LIMB: usize> {
    pub result: Integer<NUMBER_OF_LIMBS, BIT_LEN_LIMB>,
    pub borrow: Vec<bool>,
}

impl<const NUMBER_OF_LIMBS: usize, const BIT_LEN_LIMB: usize> Integer<NUMBER_OF_LIMBS, BIT_LEN_LIMB> {
    /// A copy: the same limbs over the same parameters.
    pub fn duplicate(&self) -> (r: Self)
        ensures
            r.limb_values() == self.limb_values(),
            r.rns_ptr() == self.rns_ptr(),
            self.wf() ==> r.wf(),
    {
        let limbs = self.limbs();
        Self::from_limbs_vec(&limbs, Rc::clone(&self.rns))
    }

    /// The integer whose limbs are the given native field elements, in any number.
    pub(crate) fn from_limbs_vec(limbs: &Vec<BigNat>, rns: Rc<Rns<NUMBER_OF_LIMBS, BIT_LEN_LIMB>>) -> (r: Self)
        ensures
            r.limb_values() == values(limbs@),
            r.rns_ptr() == rns,
    {
        let mut out: Vec<Limb> = Vec::new();
        let mut i: usize = 0;
        while i < limbs.len()
            invariant
                i <= limbs.len(),
                out.len() == i,
                forall|j: int| 0 <= j < i ==> #[trigger] out@[j]@ == limbs@[j]@,
            decreases limbs.len() - i,
        {
            out.push(Limb::new(limbs[i].duplicate()));
            i += 1;
        }
        assert(limb_values(out@) =~= values(limbs@));
        Integer { limbs: out, rns }
    }
}

/// A reduction witness, or none when the values are not known.
pub struct MaybeReduced<const NUMBER_OF_LIMBS: usize, const BIT_LEN_LIMB: usize>(
    pub Option<ReductionWitness<NUMBER_OF_LIMBS, BIT_LEN_LIMB>>,
);

impl<const NUMBER_OF_LIMBS: usize, const BIT_LEN_LIMB: usize> MaybeReduced<NUMBER_OF_LIMBS, BIT_LEN_LIMB> {
    /// Wraps a witness.
    pub fn from(integer: Option<ReductionWitness<NUMBER_OF_LIMBS, BIT_LEN_LIMB>>) -> (r: Self)
        ensures
            r.0 == integer,
    {
        MaybeReduced(integer)
    }

    /// The quotient of a witness whose quotient is a whole integer.
    pub fn long(&self) -> (r: Option<Integer<NUMBER_OF_LIMBS, BIT_LEN_LIMB>>)
        requires
            self.0 matches Some(w) ==> w.quotient is Long,
        ensures
            r is Some <==> self.0 is Some,
            r matches Some(q) ==> (self.0 matches Some(w) && w.quotient matches Quotient::Long(wq)
                && q.limb_values() == wq.limb_values() && q.rns_ptr() == wq.rns_ptr()),
    {
        match &self.0 {
            Some(reduction_result) => match &reduction_result.quotient {
                Quotient::Long(quotient) => Some(quotient.duplicate()),
                Quotient::Short(_) => None,
            },
            None => None,
        }
    }

    /// The quotient of a witness whose quotient is a single limb.
    pub fn short(&self) -> (r: Option<BigNat>)
        requires
            self.0 matches Some(w) ==> w.quotient is Short,
        ensures
            r is Some <==> self.0 is Some,
            r matches Some(q) ==> (self.0 matches Some(w) && w.quotient matches Quotient::Short(wq) && q@ == wq@),
    {
        match &self.0 {
            Some(reduction_result) => match &reduction_result.quotient {
                Quotient::Short(quotient) => Some(quotient.duplicate()),
                Quotient::Long(_) => None,
            },
            None => None,
        }
    }

    /// The result of the witness.
    pub fn result(&self) -> (r: Option<Integer<NUMBER_OF_LIMBS, BIT_LEN_LIMB>>)
        ensures
            r is Some <==> self.0 is Some,
            r matches Some(x) ==> (self.0 matches Some(w) && x.limb_values() == w.result.limb_values()
                && x.rns_ptr() == w.result.rns_ptr()),
    {
        match &self.0 {
            Some(u) => Some(u.result.duplicate()),
            None => None,
        }
    }

    /// The residues of the witness, each unknown when the witness is.
    pub fn residues(&self) -> (r: Vec<Option<BigNat>>)
        requires
            self.0 matches Some(w) ==> w.residues.len() >= (NUMBER_OF_LIMBS + 1) / 2,
        ensures
            r.len() == (NUMBER_OF_LIMBS + 1) / 2,
            forall|i: int| 0 <= i < r.len() ==> (#[trigger] r@[i] is Some <==> self.0 is Some),
            forall|i: int| 0 <= i < r.len() ==> (#[trigger] r@[i] matches Some(v) ==> (self.0 matches Some(w)
                && v@ == w.residues@[i]@)),
    {
        let u_len = NUMBER_OF_LIMBS / 2 + NUMBER_OF_LIMBS % 2;
        let mut out: Vec<Option<BigNat>> = Vec::new();
        let mut i: usize = 0;
        while i < u_len
            invariant
                u_len == (NUMBER_OF_LIMBS + 1) / 2,
                self.0 matches Some(w) ==> w.residues.len() >= u_len,
                i <= u_len,
                out.len() == i,
                forall|k: int| 0 <= k < i ==> (#[trigger] out@[k] is Some <==> self.0 is Some),
                forall|k: int| 0 <= k < i ==> (#[trigger] out@[k] matches Some(v) ==> (self.0 matches Some(w)
                    && v@ == w.residues@[k]@)),
            decreases u_len - i,
        {
            let v = match &self.0 {
                Some(witness) => Some(witness.residues[i].duplicate()),
                None => None,
            };
            out.push(v);
            i += 1;
        }
        out
    }

    /// The intermediate values of the witness, each unknown when the witness is.
    pub fn intermediates(&self) -> (r: Vec<Option<BigNat>>)
        requires
            self.0 matches Some(w) ==> w.intermediate.len() >= NUMBER_OF_LIMBS,
        ensures
            r.len() == NUMBER_OF_LIMBS,
            forall|i: int| 0 <= i < r.len() ==> (#[trigger] r@[i] is Some <==> self.0 is Some),
            forall|i: int| 0 <= i < r.len() ==> (#[trigger] r@[i] matches Some(v) ==> (self.0 matches Some(w)
                && v@ == w.intermediate@[i]@)),
    {
        let mut out: Vec<Option<BigNat>> = Vec::new();
        let mut i: usize = 0;
        while i < NUMBER_OF_LIMBS
            invariant
                self.0 matches Some(w) ==> w.intermediate.len() >= NUMBER_OF_LIMBS,
                i <= NUMBER_OF_LIMBS,
                out.len() == i,
                forall|k: int| 0 <= k < i ==> (#[trigger] out@[k] is Some <==> self.0 is Some),
                forall|k: int| 0 <= k < i ==> (#[trigger] out@[k] matches Some(v) ==> (self.0 matches Some(w)
                    && v@ == w.intermediate@[k]@)),
            decreases NUMBER_OF_LIMBS - i,
        {
            let v = match &self.0 {
                Some(witness) => Some(witness.intermediate[i].duplicate()),
                None => None,
            };
            out.push(v);
            i += 1;
        }
        out
    }
}

} // verus!
