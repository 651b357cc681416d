//! What the parameters of a residue number system are, as functions of the
//! wrong modulus `w`, the native modulus `n`, the number of limbs `nl` and the
//! bit length `bl` of a limb.
use crate::big::bit_length;
use crate::spec::{compose, decompose_fe};
use vstd::arithmetic::power::pow;
use vstd::arithmetic::power2::pow2;
use vstd::prelude::*;

verus! {

/// `T = 2^(bl * nl)`, the binary modulus.
pub open spec fn binary_modulus(nl: nat, bl: nat) -> nat {
    pow2(bl * nl)
}

/// `T * n`: neither side of a multiplication gate may reach it.
pub open spec fn crt_modulus(n: nat, nl: nat, bl: nat) -> nat {
    binary_modulus(nl, bl) * n
}

/// The largest remainder: one below the next power of two above `w`.
pub open spec fn max_remainder(w: nat) -> nat {
    (pow2(bit_length(w)) - 1) as nat
}

/// The largest quotient that keeps `quotient * w + max_remainder` below the
/// CRT modulus.
pub open spec fn pre_max_quotient(w: nat, n: nat, nl: nat, bl: nat) -> nat {
    ((crt_modulus(n, nl, bl) - max_remainder(w)) / (w as int)) as nat
}

/// The largest multiplication quotient: one below the largest power of two
/// that does not exceed `pre_max_quotient`.
pub open spec fn max_quotient(w: nat, n: nat, nl: nat, bl: nat) -> nat {
    (pow2((bit_length(pre_max_quotient(w, n, nl, bl)) - 1) as nat) - 1) as nat
}

/// `max_quotient * w + max_remainder`, the largest right hand side of a
/// multiplication gate.
pub open spec fn max_gate_value(w: nat, n: nat, nl: nat, bl: nat) -> nat {
    max_quotient(w, n, nl, bl) * w + max_remainder(w)
}

/// Half the bit length of the largest right hand side, rounded down.
pub open spec fn max_operand_bit_len(w: nat, n: nat, nl: nat, bl: nat) -> nat {
    ((bit_length(max_gate_value(w, n, nl, bl)) - 1) / 2) as nat
}

/// The largest operand: its square stays below the largest right hand side.
pub open spec fn max_operand(w: nat, n: nat, nl: nat, bl: nat) -> nat {
    (pow2(max_operand_bit_len(w, n, nl, bl)) - 1) as nat
}

/// A full dense limb.
pub open spec fn max_reduced_limb(bl: nat) -> nat {
    (pow2(bl) - 1) as nat
}

/// The largest limb of an unreduced integer: half a limb over a full one.
pub open spec fn max_unreduced_limb(bl: nat) -> nat {
    (pow2(bl + bl / 2) - 1) as nat
}

/// The most significant limb of `x`.
pub open spec fn most_significant(x: nat, nl: nat, bl: nat) -> nat {
    x / pow2(((nl - 1) * bl) as nat)
}

/// The checks on the moduli and limb sizes, and the sizes that must fit in a
/// machine word.
pub open spec fn moduli_ok(w: nat, n: nat, nl: nat, bl: nat) -> bool {
    let binary = binary_modulus(nl, bl);
    let crt = crt_modulus(n, nl, bl);
    let max_rem = max_remainder(w);
    let max_q = max_quotient(w, n, nl, bl);
    let max_op = max_operand(w, n, nl, bl);
    let rhs = max_gate_value(w, n, nl, bl);
    &&& nl > 2
    &&& bl % 4 == 0
    &&& bl * nl <= usize::MAX
    &&& bl + bl / 2 <= usize::MAX
    &&& w > 0
    &&& max_rem <= crt
    &&& pre_max_quotient(w, n, nl, bl) > 0
    &&& binary > w
    &&& binary > n
    &&& max_rem > w
    &&& max_op > w
    &&& max_q > w
    &&& max_rem < binary
    &&& max_op < binary
    &&& max_q < binary
    &&& rhs < crt
    &&& max_op * max_op < rhs
}

/// One step of the borrowing that builds the subtraction auxiliary: step `i`
/// looks at limbs `nl - 1 - i` and the one below it.
pub open spec fn base_aux_after(start: Seq<nat>, nl: nat, bl: nat, r: nat, steps: nat) -> Option<Seq<nat>>
    decreases steps,
{
    if steps == 0 {
        Some(start)
    } else {
        match base_aux_after(start, nl, bl, r, (steps - 1) as nat) {
            None => None,
            Some(prev) => {
                let hidx = nl - steps;
                let lidx = hidx - 1;
                if bit_length(prev[lidx]) < bl + 1 {
                    if prev[hidx] >= 1 {
                        Some(prev.update(hidx, (prev[hidx] - 1) as nat).update(lidx, prev[lidx] + r))
                    } else {
                        None
                    }
                } else {
                    Some(prev)
                }
            },
        }
    }
}

/// The auxiliary value for subtraction: twice the limbs of `w`, with every limb
/// that is not above a dense limb borrowing from the limb above it; `None` when
/// a borrow would take a limb below zero.
pub open spec fn base_aux(w: nat, n: nat, nl: nat, bl: nat) -> Option<Seq<nat>> {
    base_aux_after(base_aux_start(w, n, nl, bl), nl, bl, pow2(bl) % n, (nl - 1) as nat)
}

/// Twice the limbs of `w`, as native field elements.
pub open spec fn base_aux_start(w: nat, n: nat, nl: nat, bl: nat) -> Seq<nat> {
    decompose_fe(w, nl, bl, n).map_values(|x: nat| 2 * x)
}

/// The checks on the subtraction auxiliary: a multiple of `w` above the largest
/// remainder, with each limb at least as large as the largest limb it is
/// subtracted from.
pub open spec fn base_aux_ok(aux: Seq<nat>, w: nat, nl: nat, bl: nat) -> bool {
    let max_rem = max_remainder(w);
    &&& compose(aux, bl) % w == 0
    &&& compose(aux, bl) > max_rem
    &&& forall|i: int| 0 <= i < nl - 1 ==> #[trigger] aux[i] >= max_reduced_limb(bl)
    &&& aux[nl - 1] >= most_significant(max_rem, nl, bl)
}

/// The limbs of the largest operand.
pub open spec fn max_operand_limbs(w: nat, n: nat, nl: nat, bl: nat) -> Seq<nat> {
    Seq::new(nl, |i: int| if i != nl - 1 { max_reduced_limb(bl) } else {
        most_significant(max_operand(w, n, nl, bl), nl, bl) })
}

/// The limbs of the largest multiplication quotient.
pub open spec fn max_quotient_limbs(w: nat, n: nat, nl: nat, bl: nat) -> Seq<nat> {
    Seq::new(nl, |i: int| if i != nl - 1 { max_reduced_limb(bl) } else {
        most_significant(max_quotient(w, n, nl, bl), nl, bl) })
}

/// The limbs of `-w` modulo the binary modulus, as native field elements.
pub open spec fn negative_wrong_modulus(w: nat, n: nat, nl: nat, bl: nat) -> Seq<nat> {
    decompose_fe((binary_modulus(nl, bl) - w) as nat, nl, bl, n)
}

/// The term that limbs `i` and `j` add to column `i + j` of an emulated gate:
/// `a[i] * a[j] + p[i] * q[j]` for multiplication and `a[i] + p[i] * q[j]` for
/// reduction.
pub open spec fn emulated_term(a: Seq<nat>, p: Seq<nat>, q: Seq<nat>, squared: bool, i: int, j: int) -> nat {
    if squared {
        a[i] * a[j] + p[i] * q[j]
    } else {
        a[i] + p[i] * q[j]
    }
}

/// Column `k` of an emulated gate, summed over the rows `i < rows`.
pub open spec fn emulated_column(a: Seq<nat>, p: Seq<nat>, q: Seq<nat>, squared: bool, k: int, rows: int) -> nat
    decreases rows,
{
    if rows <= 0 {
        0
    } else {
        let i = rows - 1;
        emulated_column(a, p, q, squared, k, rows - 1) + if 0 <= k - i < a.len() {
            emulated_term(a, p, q, squared, i, k - i)
        } else {
            0
        }
    }
}

/// The carry of index `i` of an emulated gate with columns `t`; when `odd_last`
/// holds the last carry covers a single limb.
pub open spec fn emulated_carry(t: Seq<nat>, bl: nat, u_len: nat, odd_last: bool, i: nat) -> nat
    decreases i,
{
    let carry: nat = if i == 0 {
        0
    } else {
        emulated_carry(t, bl, u_len, odd_last, (i - 1) as nat)
    };
    if i + 1 == u_len && odd_last {
        (t[i as int] + carry) / pow2(bl)
    } else {
        (t[i as int] + t[i + 1 as int] * pow2(bl) + carry) / pow2(2 * bl)
    }
}

/// The largest of `bl` and the bit lengths of the first `upto` carries.
pub open spec fn emulated_bit_len(t: Seq<nat>, bl: nat, u_len: nat, odd_last: bool, upto: nat) -> nat
    decreases upto,
{
    if upto == 0 {
        bl
    } else {
        let prev = emulated_bit_len(t, bl, u_len, odd_last, (upto - 1) as nat);
        let b = bit_length(emulated_carry(t, bl, u_len, odd_last, (upto - 1) as nat));
        if b > prev {
            b
        } else {
            prev
        }
    }
}

/// The columns of an emulated gate on the largest operand and quotient.
pub open spec fn emulated_columns(w: nat, n: nat, nl: nat, bl: nat, squared: bool) -> Seq<nat> {
    let a = max_operand_limbs(w, n, nl, bl);
    let p = negative_wrong_modulus(w, n, nl, bl);
    let q = max_quotient_limbs(w, n, nl, bl);
    Seq::new((2 * nl - 1) as nat, |k: int| emulated_column(a, p, q, squared, k, nl as int))
}

/// The largest bit length of a multiplication residue. The number of limbs is
/// taken as even here, whatever it is.
pub open spec fn mul_v_bit_len(w: nat, n: nat, nl: nat, bl: nat) -> nat {
    emulated_bit_len(emulated_columns(w, n, nl, bl, true), bl, (nl + 1) / 2, false, (nl + 1) / 2)
}

/// The largest bit length of a reduction residue.
pub open spec fn red_v_bit_len(w: nat, n: nat, nl: nat, bl: nat) -> nat {
    emulated_bit_len(emulated_columns(w, n, nl, bl, false), bl, (nl + 1) / 2, nl % 2 == 1, (nl + 1) / 2)
}

/// The value of an integer whose every limb is the largest unreduced limb,
/// taken in the native field.
pub open spec fn max_unreduced_value(n: nat, nl: nat, bl: nat) -> nat {
    compose(Seq::new(nl, |i: int| max_unreduced_limb(bl) % n), bl)
}

/// The check that the largest unreduced integer reduces with a quotient of a
/// single limb, below a dense limb.
pub open spec fn reduction_ok(w: nat, n: nat, nl: nat, bl: nat) -> bool {
    let q = max_unreduced_value(n, nl, bl) / w;
    &&& q < pow2(bl)
    &&& q % n < max_reduced_limb(bl)
}

/// The inverse of two in the field of odd order `n`.
pub open spec fn two_inv(n: nat) -> nat {
    (n + 1) / 2
}

/// Everything that building the parameters checks.
pub open spec fn rns_ok(w: nat, n: nat, nl: nat, bl: nat) -> bool {
    &&& moduli_ok(w, n, nl, bl)
    &&& base_aux(w, n, nl, bl) is Some
    &&& base_aux_ok(base_aux(w, n, nl, bl).unwrap(), w, nl, bl)
    &&& mul_v_bit_len(w, n, nl, bl) <= usize::MAX
    &&& red_v_bit_len(w, n, nl, bl) <= usize::MAX
    &&& n % 2 == 1
    &&& n > 1
    &&& reduction_ok(w, n, nl, bl)
}

/// The right shifters: powers of the inverse of `2^bl`.
pub open spec fn right_shifters(n: nat, nl: nat, bl: nat) -> Seq<nat> {
    Seq::new(nl, |i: int| (pow(two_inv(n) as int, (i * bl) as nat) % (n as int)) as nat)
}

/// The left shifters: powers of `2^bl`.
pub open spec fn left_shifters(n: nat, nl: nat, bl: nat) -> Seq<nat> {
    Seq::new(nl, |i: int| (pow((2nat % n) as int, (i * bl) as nat) % (n as int)) as nat)
}

} // verus!
