use integer::big::BigNat;
use integer::rns::{Common, Integer, Limb, MaybeReduced, Quotient, Rns};
use num_bigint::BigUint;
use std::rc::Rc;

const BN_FQ: &str = "30644e72e131a029b85045b68181585d97816a916871ca8d3c208c16d87cfd47";
const BN_FR: &str = "30644e72e131a029b85045b68181585d2833e84879b9709143e1f593f0000001";
const SECP_FP: &str = "fffffffffffffffffffffffffffffffffffffffffffffffffffffffefffffc2f";
const PASTA_FP: &str = "40000000000000000000000000000000224698fc094cf91b992d30ed00000001";
const PASTA_FQ: &str = "40000000000000000000000000000000224698fc0994a8dd8c46eb2100000001";

fn big(s: &str) -> BigUint {
    BigUint::parse_bytes(s.as_bytes(), 16).unwrap()
}

fn to_nat(x: &BigUint) -> BigNat {
    BigNat::from_u32_digits(x.to_u32_digits())
}

fn back(x: &BigNat) -> BigUint {
    BigUint::new(x.to_u32_digits())
}

fn pow2(k: usize) -> BigUint {
    BigUint::from(1u32) << k
}

fn rns_bn() -> Rc<Rns<4, 68>> {
    Rc::new(Rns::<4, 68>::try_construct(&to_nat(&big(BN_FQ)), &to_nat(&big(BN_FR))).expect("parameters"))
}

fn compose(limbs: &[BigUint], bl: usize) -> BigUint {
    limbs.iter().rev().fold(BigUint::from(0u32), |acc, l| (acc << bl) + l)
}

fn limbs_of(i: &Integer<4, 68>) -> Vec<BigUint> {
    i.limbs().iter().map(back).collect()
}

fn value_of(i: &Integer<4, 68>) -> BigUint {
    back(&i.value())
}

#[test]
fn construct_bn256_parameters() {
    let w = big(BN_FQ);
    let n = big(BN_FR);
    let rns = rns_bn();
    assert_eq!(back(&rns.wrong_modulus), w);
    assert_eq!(back(&rns.native_modulus), n);
    assert_eq!(back(&rns.binary_modulus), pow2(272));
    assert_eq!(back(&rns.crt_modulus), pow2(272) * &n);
    assert_eq!(back(&rns.max_remainder), pow2(254) - 1u32);
    assert_eq!(back(&rns.max_reduced_limb), pow2(68) - 1u32);
    assert_eq!(back(&rns.max_unreduced_limb), pow2(102) - 1u32);
    assert_eq!(rns.bit_len_lookup, 17);
    assert_eq!(back(&rns.wrong_modulus_in_native_modulus), &w % &n);
    let pre = (pow2(272) * &n - (pow2(254) - 1u32)) / &w;
    let max_q = pow2(pre.bits() as usize - 1) - 1u32;
    assert_eq!(back(&rns.max_mul_quotient), max_q);
    let rhs = &max_q * &w + (pow2(254) - 1u32);
    let max_op = pow2(((rhs.bits() - 1) / 2) as usize) - 1u32;
    assert_eq!(back(&rns.max_operand), max_op);
    assert!(&max_op * &max_op < rhs);
    assert_eq!(back(&rns.max_most_significant_reduced_limb), (pow2(254) - 1u32) >> 204);
    let decomposed: Vec<BigUint> = rns.wrong_modulus_decomposed.iter().map(back).collect();
    assert_eq!(compose(&decomposed, 68), w);
    let minus_one: Vec<BigUint> = rns.wrong_modulus_minus_one.iter().map(back).collect();
    assert_eq!(compose(&minus_one, 68), &w - 1u32);
    let negative: Vec<BigUint> = rns.negative_wrong_modulus_decomposed.iter().map(back).collect();
    assert_eq!(compose(&negative, 68), pow2(272) - &w);
    let aux: Vec<BigUint> = rns.base_aux.iter().map(back).collect();
    assert_eq!(compose(&aux, 68), &w * 2u32);
    for (i, a) in aux.iter().enumerate() {
        if i < 3 {
            assert!(*a >= pow2(68) - 1u32);
        }
    }
    assert!(rns.mul_v_bit_len >= 68);
    assert!(rns.red_v_bit_len >= 68);
}

#[test]
fn shifters_are_inverse_powers_of_two() {
    let n = big(BN_FR);
    let rns = rns_bn();
    for i in 0..4 {
        let l = back(&rns.left_shifter(i));
        let r = back(&rns.right_shifter(i));
        assert_eq!(l, pow2(68 * i) % &n);
        assert_eq!((l * r) % &n, BigUint::from(1u32));
    }
}

#[test]
fn overflow_lengths_are_residues_modulo_lookup() {
    let rns = rns_bn();
    let lengths = rns.overflow_lengths();
    assert_eq!(lengths.len(), 5);
    assert_eq!(lengths[0], rns.mul_v_bit_len % 17);
    assert_eq!(lengths[1], rns.red_v_bit_len % 17);
    let ms_red = back(&rns.max_most_significant_reduced_limb).bits() as usize % 17;
    assert_eq!(lengths[4], ms_red);
    for l in lengths {
        assert!(l < 17);
    }
}

#[test]
fn construct_secp256k1_over_bn256() {
    let rns = Rns::<4, 68>::try_construct(&to_nat(&big(SECP_FP)), &to_nat(&big(BN_FR)));
    assert!(rns.is_some());
}

#[test]
fn construct_pasta_cycle() {
    assert!(Rns::<4, 68>::try_construct(&to_nat(&big(PASTA_FP)), &to_nat(&big(PASTA_FQ))).is_some());
    let rns = Rns::<4, 68>::construct(&to_nat(&big(PASTA_FQ)), &to_nat(&big(PASTA_FP)));
    assert_eq!(back(&rns.max_reduced_limb), pow2(68) - 1u32);
}

#[test]
fn construct_refuses_bad_shapes() {
    // two limbs are too few
    assert!(Rns::<2, 136>::try_construct(&to_nat(&big(BN_FQ)), &to_nat(&big(BN_FR))).is_none());
    // limb lengths must split into four lookup limbs
    assert!(Rns::<4, 66>::try_construct(&to_nat(&big(BN_FQ)), &to_nat(&big(BN_FR))).is_none());
    // the binary modulus must exceed both moduli
    assert!(Rns::<3, 64>::try_construct(&to_nat(&big(BN_FQ)), &to_nat(&big(BN_FR))).is_none());
    // two has no inverse in a native field of even order
    assert!(Rns::<4, 68>::try_construct(&to_nat(&big(BN_FQ)), &to_nat(&(big(BN_FR) + 1u32))).is_none());
}

#[test]
fn from_big_and_value_round_trip() {
    let rns = rns_bn();
    let w = big(BN_FQ);
    let e = &w - 12345u32;
    let x = Integer::from_big(&to_nat(&e), Rc::clone(&rns));
    assert_eq!(value_of(&x), e);
    let limbs = limbs_of(&x);
    assert_eq!(limbs.len(), 4);
    for (i, l) in limbs.iter().enumerate() {
        assert_eq!(*l, (&e >> (68 * i)) % pow2(68));
    }
    assert_eq!(back(&x.limb(1).fe()), limbs[1]);
    let y = Integer::from_fe(&to_nat(&e), Rc::clone(&rns));
    assert_eq!(value_of(&y), e);
    assert!(x.eq(&y));
}

#[test]
fn from_big_truncates_to_binary_modulus() {
    let rns = rns_bn();
    let e = pow2(272) + 7u32;
    let x = Integer::from_big(&to_nat(&e), rns);
    assert_eq!(value_of(&x), BigUint::from(7u32));
}

#[test]
fn from_bytes_le_reads_little_endian() {
    let rns = rns_bn();
    let x = Integer::from_bytes_le(&[1, 2, 3], rns);
    assert_eq!(value_of(&x), BigUint::from(0x030201u32));
}

#[test]
fn from_limbs_and_new_keep_limbs() {
    let rns = rns_bn();
    let limbs: [BigNat; 4] = [1u32, 2, 3, 4].map(|v| BigNat::from_u32_digits(vec![v]));
    let x = Integer::from_limbs(&limbs, Rc::clone(&rns));
    let expected = compose(&[1u32, 2, 3, 4].map(BigUint::from), 68);
    assert_eq!(value_of(&x), expected);
    let y = Integer::new((1u64..5).map(|v| Limb::new(BigNat::from_u32_digits(vec![v as u32]))).collect(), rns);
    assert!(x.eq(&y));
}

#[test]
fn mul_gives_quotient_and_remainder() {
    let rns = rns_bn();
    let w = big(BN_FQ);
    let n = big(BN_FR);
    let a_val = &w - 2u32;
    let b_val = &w - 3u32;
    let a = Integer::from_big(&to_nat(&a_val), Rc::clone(&rns));
    let b = Integer::from_big(&to_nat(&b_val), Rc::clone(&rns));
    let witness = a.mul(&b);
    let product = &a_val * &b_val;
    assert_eq!(value_of(&witness.result), &product % &w);
    assert_eq!(value_of(&witness.result), BigUint::from(6u32));
    let quotient = match &witness.quotient {
        Quotient::Long(q) => q.duplicate(),
        Quotient::Short(_) => panic!("long quotient expected"),
    };
    assert_eq!(value_of(&quotient), &product / &w);
    // the intermediate columns of a * b + p * q
    let al = limbs_of(&a);
    let bl = limbs_of(&b);
    let ql = limbs_of(&quotient);
    let p: Vec<BigUint> = rns.negative_wrong_modulus_decomposed.iter().map(back).collect();
    let t: Vec<BigUint> = witness.intermediate.iter().map(back).collect();
    for k in 0..4 {
        let mut col = BigUint::from(0u32);
        for i in 0..=k {
            col += &al[i] * &bl[k - i] + &p[i] * &ql[k - i];
        }
        assert_eq!(t[k], col % &n);
    }
    // each residue carries two columns
    let r = limbs_of(&witness.result);
    let v: Vec<BigUint> = witness.residues.iter().map(back).collect();
    assert_eq!(v.len(), 2);
    let shift = pow2(68) % &n;
    let mut carry = BigUint::from(0u32);
    for i in 0..2 {
        let j = 2 * i;
        let lhs = (&v[i] * pow2(136)) % &n;
        let rhs = (&t[j] + &t[j + 1] * &shift + &carry + &n * 4u32 - &r[j] - (&r[j + 1] * &shift) % &n) % &n;
        assert_eq!(lhs, rhs);
        carry = v[i].clone();
    }
}

#[test]
fn square_is_mul_by_itself() {
    let rns = rns_bn();
    let w = big(BN_FQ);
    let a_val = BigUint::from(123456789u64) << 200;
    let a = Integer::from_big(&to_nat(&a_val), rns);
    let witness = a.square();
    assert_eq!(value_of(&witness.result), (&a_val * &a_val) % &w);
}

#[test]
fn reduce_gives_short_quotient() {
    let rns = rns_bn();
    let w = big(BN_FQ);
    let n = big(BN_FR);
    let limb = pow2(70) + 5u32;
    let limbs: [BigNat; 4] = [0, 1, 2, 3].map(|_| to_nat(&limb));
    let x = Integer::from_limbs(&limbs, Rc::clone(&rns));
    let v = value_of(&x);
    let witness = x.reduce();
    assert_eq!(value_of(&witness.result), &v % &w);
    let q = match &witness.quotient {
        Quotient::Short(q) => back(q),
        Quotient::Long(_) => panic!("short quotient expected"),
    };
    assert_eq!(q, &v / &w);
    let p: Vec<BigUint> = rns.negative_wrong_modulus_decomposed.iter().map(back).collect();
    for (i, t) in witness.intermediate.iter().enumerate() {
        assert_eq!(back(t), (&limb + &p[i] * &q) % &n);
    }
    let maybe = MaybeReduced::from(Some(witness));
    assert_eq!(back(&maybe.short().unwrap()), q);
    assert_eq!(maybe.residues().len(), 2);
    assert_eq!(maybe.intermediates().len(), 4);
    assert_eq!(value_of(&maybe.result().unwrap()), &v % &w);
    let none: MaybeReduced<4, 68> = MaybeReduced::from(None);
    assert!(none.short().is_none());
    assert!(none.residues().iter().all(|r| r.is_none()));
}

#[test]
fn compare_to_modulus_subtracts_from_modulus_minus_one() {
    let rns = rns_bn();
    let w = big(BN_FQ);
    let a_val = &w - 1000u32;
    let a = Integer::from_big(&to_nat(&a_val), Rc::clone(&rns));
    let witness = a.compare_to_modulus();
    assert_eq!(value_of(&witness.result), BigUint::from(999u32));
    assert_eq!(witness.borrow.len(), 4);
    assert!(!witness.borrow[3]);
    let small = Integer::from_big(&to_nat(&BigUint::from(5u32)), rns);
    let witness = small.compare_to_modulus();
    assert_eq!(value_of(&witness.result), &w - 6u32);
    assert_eq!(witness.borrow, vec![false, false, false, false]);
}

#[test]
fn subtraction_aux_is_a_multiple_of_the_modulus() {
    let rns = rns_bn();
    let w = big(BN_FQ);
    let max_vals = [to_nat(&pow2(80)), to_nat(&pow2(80)), to_nat(&pow2(80)), to_nat(&pow2(60))];
    let aux = Integer::subtracion_aux(&max_vals, Rc::clone(&rns));
    let limbs = limbs_of(&aux);
    assert_eq!(value_of(&aux) % &w, BigUint::from(0u32));
    for i in 0..4 {
        assert!(limbs[i] >= back(&max_vals[i]));
    }
}

#[test]
fn invert_and_div() {
    let rns = rns_bn();
    let w = big(BN_FQ);
    let a_val = BigUint::from(7u32);
    let a = Integer::from_big(&to_nat(&a_val), Rc::clone(&rns));
    let inv = a.invert().expect("seven is invertible");
    assert_eq!((&a_val * value_of(&inv)) % &w, BigUint::from(1u32));
    let zero = Integer::from_big(&to_nat(&BigUint::from(0u32)), Rc::clone(&rns));
    assert!(zero.invert().is_none());
    let b_val = BigUint::from(21u32);
    let b = Integer::from_big(&to_nat(&b_val), Rc::clone(&rns));
    let q = b.div(&a).expect("division by seven");
    assert_eq!(value_of(&q), BigUint::from(3u32));
    assert!(b.div(&zero).is_none());
}

#[test]
fn scale_multiplies_limbs_in_native_field() {
    let rns = rns_bn();
    let n = big(BN_FR);
    let mut x = Integer::from_big(&to_nat(&(pow2(100) + 3u32)), rns);
    let before = limbs_of(&x);
    let k = &n - 2u32;
    x.scale(&to_nat(&k));
    let after = limbs_of(&x);
    for i in 0..4 {
        assert_eq!(after[i], (&before[i] * &k) % &n);
    }
    assert_eq!(compose(&after, 68) % &n, (compose(&before, 68) * &k) % &n);
}

#[test]
fn limb_values_and_native() {
    let n = big(BN_FR);
    let l = Limb::from_big(&to_nat(&(&n + 5u32)), &to_nat(&n));
    assert_eq!(back(&l.value()), BigUint::from(5u32));
    assert_eq!(back(&Limb::default().value()), BigUint::from(0u32));
    let rns = rns_bn();
    let w = big(BN_FQ);
    let x = Integer::from_big(&to_nat(&(&w - 1u32)), rns);
    assert_eq!(back(&x.native(&to_nat(&n))), (&w - 1u32) % &n);
}

#[test]
fn limb_from_hex_reads_base_sixteen() {
    let n = big(BN_FR);
    let l = Limb::from_hex("ff", &to_nat(&n));
    assert_eq!(back(&l.value()), BigUint::from(255u32));
    let l = Limb::from_hex("+1_0", &to_nat(&n));
    assert_eq!(back(&l.value()), BigUint::from(16u32));
    let l = Limb::from_hex(BN_FR, &to_nat(&n));
    assert_eq!(back(&l.value()), BigUint::from(0u32));
}

#[test]
fn compare_to_modulus_borrows_out_of_values_not_below_modulus() {
    let rns = rns_bn();
    let w = big(BN_FQ);
    let a = Integer::from_big(&to_nat(&(&w + 5u32)), rns);
    let witness = a.compare_to_modulus();
    assert!(witness.borrow[3]);
    assert_eq!(value_of(&witness.result), pow2(272) - 6u32);
}

#[test]
fn operands_up_to_the_largest_have_witnesses() {
    let rns = rns_bn();
    let w = big(BN_FQ);
    let max_op = back(&rns.max_operand);
    let max_q = back(&rns.max_mul_quotient);
    let max_rem = back(&rns.max_remainder);
    let product = &max_op * &max_op;
    let q = std::cmp::min(&product / &w, max_q.clone());
    let r = &product - &q * &w;
    assert!(q <= max_q);
    assert!(r <= max_rem);
    assert!(product < back(&rns.crt_modulus));
}

#[test]
fn mul_does_not_depend_on_operand_order() {
    let rns = rns_bn();
    let w = big(BN_FQ);
    let a = Integer::from_big(&to_nat(&(&w - 7u32)), Rc::clone(&rns));
    let b = Integer::from_big(&to_nat(&(BigUint::from(0xdead_beef_u64) << 190)), Rc::clone(&rns));
    let ab = a.mul(&b);
    let ba = b.mul(&a);
    assert_eq!(limbs_of(&ab.result), limbs_of(&ba.result));
    let (qa, qb) = match (&ab.quotient, &ba.quotient) {
        (Quotient::Long(x), Quotient::Long(y)) => (limbs_of(x), limbs_of(y)),
        _ => panic!("long quotients expected"),
    };
    assert_eq!(qa, qb);
    let ta: Vec<BigUint> = ab.intermediate.iter().map(back).collect();
    let tb: Vec<BigUint> = ba.intermediate.iter().map(back).collect();
    assert_eq!(ta, tb);
    let va: Vec<BigUint> = ab.residues.iter().map(back).collect();
    let vb: Vec<BigUint> = ba.residues.iter().map(back).collect();
    assert_eq!(va, vb);
}

#[test]
fn from_big_of_value_gives_back_the_limbs() {
    let rns = rns_bn();
    let limbs: [BigNat; 4] = [3u64, 1 << 60, 0, 12345].map(|x| to_nat(&BigUint::from(x)));
    let x = Integer::from_limbs(&limbs, Rc::clone(&rns));
    let y = Integer::from_big(&x.value(), Rc::clone(&rns));
    assert_eq!(limbs_of(&y), limbs_of(&x));
    let e = big(BN_FQ) - 1u32;
    let z = Integer::from_fe(&to_nat(&e), rns);
    assert_eq!(value_of(&z), e);
}
