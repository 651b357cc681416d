//! Laws of the residue number system: what the witnesses and parameters promise
//! beyond each function on its own.
use crate::params::{
    base_aux, base_aux_after, base_aux_start, crt_modulus, left_shifters, max_gate_value, max_operand,
    max_operand_bit_len, max_quotient, max_remainder, moduli_ok, right_shifters, rns_ok, two_inv,
};
use crate::spec::{
    all_below, borrow_in, borrow_out, compose, congruent, decompose, decompose_fe, difference_limb,
    difference_limbs, gap, lemma_compose_decompose_fe, lemma_congruent_add2, lemma_congruent_mod,
    lemma_congruent_mul2, lemma_congruent_sub2, lemma_reduce_all_small, limb_of, max_min_shift, min_shift,
    mul_column, mul_intermediate, reduce_all, reduce_intermediate, residue, subtraction_fits,
};
use crate::rns::Rns;
use crate::setup::{lemma_pow_two_mod, lemma_two_has_inverse};
use vstd::arithmetic::div_mod::*;
use vstd::arithmetic::mul::*;
use vstd::arithmetic::power::*;
use vstd::arithmetic::power2::*;
use vstd::prelude::*;

verus! {

/// Appending a limb adds it at the weight of its position.
pub proof fn lemma_compose_push(s: Seq<nat>, x: nat, bl: nat)
    ensures
        compose(s.push(x), bl) == compose(s, bl) + x * pow2(bl * s.len()),
    decreases s.len(),
{
    let u = s.push(x);
    if s.len() == 0 {
        assert(u.drop_first() =~= Seq::<nat>::empty());
        assert(bl * 0 == 0) by (nonlinear_arith);
        lemma2_to64();
        let p = pow2(bl) as int;
        assert(u[0] == x);
        assert(compose(u.drop_first(), bl) == 0);
        assert(compose(u, bl) == x + p * 0);
        assert(p * 0 == 0) by (nonlinear_arith);
        assert(x * 1 == x) by (nonlinear_arith);
    } else {
        let t = s.drop_first();
        assert(u.drop_first() =~= t.push(x));
        lemma_compose_push(t, x, bl);
        assert(bl * s.len() == bl + bl * t.len()) by (nonlinear_arith)
            requires s.len() == t.len() + 1;
        lemma_pow2_adds(bl, bl * t.len());
        let p = pow2(bl) as int;
        let q = pow2(bl * t.len()) as int;
        let c = compose(t, bl) as int;
        assert(compose(u, bl) == s[0] + p * (c + x * q));
        assert(compose(s, bl) == s[0] + p * c);
        assert(p * (c + x * q) == p * c + x * (p * q)) by (nonlinear_arith);
    }
}

/// Scaling every limb by `c` scales the number by `c`.
pub proof fn lemma_compose_scale(s: Seq<nat>, scaled: Seq<nat>, c: nat, bl: nat)
    requires
        scaled.len() == s.len(),
        forall|i: int| 0 <= i < s.len() ==> #[trigger] scaled[i] == s[i] * c,
    ensures
        compose(scaled, bl) == compose(s, bl) * c,
    decreases s.len(),
{
    if s.len() == 0 {
        assert(0 * c == 0) by (nonlinear_arith);
    } else {
        let t = s.drop_first();
        let ts = scaled.drop_first();
        assert forall|i: int| 0 <= i < t.len() implies #[trigger] ts[i] == t[i] * c by {
            assert(ts[i] == scaled[i + 1]);
        }
        lemma_compose_scale(t, ts, c, bl);
        let p = pow2(bl) as int;
        let a = compose(t, bl) as int;
        assert(compose(scaled, bl) == s[0] * c + p * (a * c));
        assert(compose(s, bl) == s[0] + p * a);
        assert(s[0] * c + p * (a * c) == (s[0] + p * a) * c) by (nonlinear_arith);
    }
}

/// Replacing limb `i` changes the number by the difference at the weight of limb `i`.
pub proof fn lemma_compose_update(s: Seq<nat>, i: int, x: nat, bl: nat)
    requires
        0 <= i < s.len(),
    ensures
        compose(s.update(i, x), bl) == compose(s, bl) - s[i] * pow2(bl * (i as nat)) + x * pow2(bl * (i as nat)),
    decreases s.len(),
{
    let u = s.update(i, x);
    let p = pow2(bl) as int;
    if i == 0 {
        assert(u.drop_first() =~= s.drop_first());
        assert(bl * 0 == 0) by (nonlinear_arith);
        lemma2_to64();
        assert(s[0] * 1 == s[0]) by (nonlinear_arith);
        assert(x * 1 == x) by (nonlinear_arith);
    } else {
        let t = s.drop_first();
        assert(u.drop_first() =~= t.update(i - 1, x));
        lemma_compose_update(t, i - 1, x, bl);
        let k = bl * ((i - 1) as nat);
        assert(bl * (i as nat) == bl + k) by (nonlinear_arith)
            requires i >= 1, k == bl * ((i - 1) as nat);
        lemma_pow2_adds(bl, k);
        let q = pow2(k) as int;
        let a = compose(t, bl) as int;
        let si = s[i] as int;
        assert(t[i - 1] == s[i]);
        assert(compose(u, bl) == s[0] + p * (a - si * q + x * q));
        assert(compose(s, bl) == s[0] + p * a);
        assert(p * (a - si * q + x * q) == p * a - si * (p * q) + x * (p * q)) by (nonlinear_arith);
    }
}

/// Law: a gate's quotient and result limbs compose back to the true quotient and
/// remainder of `v` by `w`, `v = w * q + r` with `r < w`, whenever limbs of `bl`
/// bits fit in the native field and the quotient fits in `nl` limbs.
pub proof fn law_division_witness(v: nat, w: nat, n: nat, nl: nat, bl: nat)
    requires
        0 < w <= pow2(bl * nl),
        pow2(bl) <= n,
        v / w < pow2(bl * nl),
    ensures
        v == w * compose(decompose_fe(v / w, nl, bl, n), bl) + compose(decompose_fe(v % w, nl, bl, n), bl),
        compose(decompose_fe(v % w, nl, bl, n), bl) < w,
{
    lemma_pow2_pos(bl);
    lemma_compose_decompose_fe(v / w, nl, bl, n);
    lemma_compose_decompose_fe(v % w, nl, bl, n);
    lemma_small_mod(v / w, pow2(bl * nl));
    lemma_mod_bound(v as int, w as int);
    lemma_small_mod(v % w, pow2(bl * nl));
    lemma_fundamental_div_mod(v as int, w as int);
}

/// Law: the left and right shifters of the same index are inverses in the native
/// field of odd order `n`.
pub proof fn law_shifters_inverse(n: nat, nl: nat, bl: nat, i: int)
    requires
        n % 2 == 1,
        n > 1,
        0 <= i < nl,
    ensures
        (left_shifters(n, nl, bl)[i] * right_shifters(n, nl, bl)[i]) % n == 1,
        congruent(left_shifters(n, nl, bl)[i] as int, pow2((i * bl) as nat) as int, n as int),
{
    let k = (i * bl) as nat;
    let a = pow((2nat % n) as int, k);
    let b = pow(two_inv(n) as int, k);
    let nn = n as int;
    lemma_pow_two_mod(k, n);
    lemma_congruent_mod(pow2(k) as int, nn);
    assert(left_shifters(n, nl, bl)[i] == a % nn);
    assert(right_shifters(n, nl, bl)[i] == b % nn);
    lemma_mul_mod_noop(a, b, nn);
    lemma_pow_distributes((2nat % n) as int, two_inv(n) as int, k);
    lemma_two_has_inverse(n);
    lemma_pow_mod_noop(((2nat % n) * two_inv(n)) as int, k, nn);
    lemma_small_mod(1, n);
    lemma1_pow(k);
}

/// Law: each residue carries what its limbs leave over. With `j = 2 * i`, the
/// residue `v` of index `i` after the carry `c` of index `i - 1` satisfies
/// `v * 2^(2 * bl) = t[j] + t[j + 1] * 2^bl - r[j] - r[j + 1] * 2^bl + c` in the
/// native field, and the last residue of an odd number of limbs satisfies
/// `v * 2^bl = t[j] - r[j]`, for intermediate values `t` and result limbs `r`.
pub proof fn law_residue_carries(r: Seq<nat>, t: Seq<nat>, n: nat, nl: nat, bl: nat, i: nat)
    requires
        n % 2 == 1,
        n > 1,
        nl > 2,
        r.len() == nl,
        t.len() == nl,
        i < (nl + 1) / 2,
    ensures
        ({
            let v = residue(r, t, n, left_shifters(n, nl, bl)[1], right_shifters(n, nl, bl)[1], right_shifters(n, nl, bl)[2], i);
            let j: int = 2 * (i as int);
            (i + 1 == (nl + 1) / 2 && nl % 2 == 1) ==> congruent((v * pow2(bl)) as int, t[j] - r[j], n as int)
        }),
        ({
            let lsh1 = left_shifters(n, nl, bl)[1];
            let rsh1 = right_shifters(n, nl, bl)[1];
            let rsh2 = right_shifters(n, nl, bl)[2];
            let v = residue(r, t, n, lsh1, rsh1, rsh2, i);
            let c: int = if i == 0 { 0 } else { residue(r, t, n, lsh1, rsh1, rsh2, (i - 1) as nat) as int };
            let j: int = 2 * (i as int);
            !(i + 1 == (nl + 1) / 2 && nl % 2 == 1) ==> congruent(
                (v * pow2(2 * bl)) as int,
                t[j] + t[j + 1] * pow2(bl) - r[j] - r[j + 1] * pow2(bl) + c,
                n as int,
            )
        }),
{
    let nn = n as int;
    let lsh1 = left_shifters(n, nl, bl)[1];
    let rsh1 = right_shifters(n, nl, bl)[1];
    let rsh2 = right_shifters(n, nl, bl)[2];
    let v = residue(r, t, n, lsh1, rsh1, rsh2, i);
    let j: int = 2 * (i as int);
    law_shifters_inverse(n, nl, bl, 1);
    law_shifters_inverse(n, nl, bl, 2);
    assert((1 * bl) as nat == bl);
    assert((2 * bl) as nat == 2 * bl);
    lemma_pow2_adds(bl, bl);
    assert(2 * bl == bl + bl);
    let p1 = pow2(bl) as int;
    let p2 = pow2(2 * bl) as int;
    lemma_congruent_mod(p1, nn);
    lemma_congruent_mod(p2, nn);
    // `rsh1 * 2^bl` and `rsh2 * 2^(2 * bl)` are one in the field
    lemma_congruent_mul2(lsh1 as int, rsh1 as int, p1, rsh1 as int, nn);
    lemma_congruent_mul2(left_shifters(n, nl, bl)[2] as int, rsh2 as int, p2, rsh2 as int, nn);
    lemma_small_mod(1, n);
    if i + 1 == (nl + 1) / 2 && nl % 2 == 1 {
        let x = (t[j] - r[j]) * rsh1;
        assert(v == x % nn);
        lemma_congruent_mod(x, nn);
        lemma_congruent_mul2(v as int, p1, x, p1, nn);
        lemma_mul_is_associative(t[j] - r[j], rsh1 as int, p1);
        lemma_mul_is_commutative(rsh1 as int, p1);
        lemma_congruent_mod(t[j] - r[j], nn);
        lemma_congruent_mul2(t[j] - r[j], rsh1 * p1, t[j] - r[j], 1, nn);
    } else {
        let c: int = if i == 0 { 0 } else { residue(r, t, n, lsh1, rsh1, rsh2, (i - 1) as nat) as int };
        let wv = t[j] + t[j + 1] * lsh1 - r[j] - lsh1 * r[j + 1] + c;
        let ww = t[j] + t[j + 1] * p1 - r[j] - r[j + 1] * p1 + c;
        let x = wv * rsh2;
        assert(v == x % nn);
        // `lsh1` is `2^bl` in the field, so `wv` and `ww` agree
        lemma_congruent_mod(t[j + 1] as int, nn);
        lemma_congruent_mul2(t[j + 1] as int, lsh1 as int, t[j + 1] as int, p1, nn);
        lemma_congruent_mod(r[j + 1] as int, nn);
        lemma_congruent_mul2(lsh1 as int, r[j + 1] as int, p1, r[j + 1] as int, nn);
        lemma_mul_is_commutative(p1, r[j + 1] as int);
        lemma_congruent_mod(t[j] as int, nn);
        lemma_congruent_add2(t[j] as int, (t[j + 1] * lsh1) as int, t[j] as int, t[j + 1] * p1, nn);
        lemma_congruent_mod(r[j] as int, nn);
        lemma_congruent_sub2(
            (t[j] + t[j + 1] * lsh1) as int,
            r[j] as int,
            t[j] + t[j + 1] * p1,
            r[j] as int,
            nn,
        );
        lemma_congruent_sub2(
            t[j] + t[j + 1] * lsh1 - r[j],
            (lsh1 * r[j + 1]) as int,
            t[j] + t[j + 1] * p1 - r[j],
            r[j + 1] * p1,
            nn,
        );
        lemma_congruent_mod(c, nn);
        lemma_congruent_add2(
            t[j] + t[j + 1] * lsh1 - r[j] - lsh1 * r[j + 1],
            c,
            t[j] + t[j + 1] * p1 - r[j] - r[j + 1] * p1,
            c,
            nn,
        );
        // `v * 2^(2 * bl) = wv * rsh2 * 2^(2 * bl) = wv`
        lemma_congruent_mod(x, nn);
        lemma_congruent_mul2(v as int, p2, x, p2, nn);
        lemma_mul_is_associative(wv, rsh2 as int, p2);
        lemma_mul_is_commutative(rsh2 as int, p2);
        lemma_congruent_mod(wv, nn);
        lemma_congruent_mul2(wv, rsh2 * p2, wv, 1, nn);
    }
}

/// Borrowed subtraction over the first `k` limbs: the difference limbs and `a`
/// add up to `m` and the borrow into limb `k`.
proof fn lemma_borrow_prefix(m: Seq<nat>, a: Seq<nat>, bl: nat, k: nat)
    requires
        m.len() == a.len(),
        k <= a.len(),
        subtraction_fits(m, a, bl),
    ensures
        compose(difference_limbs(m, a, bl).take(k as int), bl) + compose(a.take(k as int), bl) == compose(
            m.take(k as int),
            bl,
        ) + borrow_in(m, a, k) * pow2(bl * k),
    decreases k,
{
    let d = difference_limbs(m, a, bl);
    if k == 0 {
        assert(d.take(0) =~= Seq::<nat>::empty());
        assert(a.take(0) =~= Seq::<nat>::empty());
        assert(m.take(0) =~= Seq::<nat>::empty());
        assert(borrow_in(m, a, 0) == 0);
        assert(0 * pow2(bl * 0) == 0) by (nonlinear_arith);
    } else {
        let j = (k - 1) as nat;
        lemma_borrow_prefix(m, a, bl, j);
        assert(d.take(k as int) =~= d.take(j as int).push(d[j as int]));
        assert(a.take(k as int) =~= a.take(j as int).push(a[j as int]));
        assert(m.take(k as int) =~= m.take(j as int).push(m[j as int]));
        assert(d.take(j as int).len() == j);
        assert(a.take(j as int).len() == j);
        assert(m.take(j as int).len() == j);
        lemma_compose_push(d.take(j as int), d[j as int], bl);
        lemma_compose_push(a.take(j as int), a[j as int], bl);
        lemma_compose_push(m.take(j as int), m[j as int], bl);
        assert(difference_limb(m, a, bl, j) >= 0);
        let p = pow2(bl * j) as int;
        assert(bl * k == bl + bl * j) by (nonlinear_arith)
            requires k == j + 1;
        lemma_pow2_adds(bl, bl * j);
        let bo: int = if borrow_out(m, a, j) { 1 } else { 0 };
        let bi = borrow_in(m, a, j) as int;
        assert(borrow_in(m, a, k) == bo);
        let dj = d[j as int] as int;
        assert(dj == m[j as int] + bo * pow2(bl) - bi - a[j as int]);
        assert(dj * p + a[j as int] * p == m[j as int] * p + bo * (pow2(bl) * p) - bi * p) by (nonlinear_arith)
            requires dj == m[j as int] + bo * pow2(bl) - bi - a[j as int];
    }
}

/// Law: subtracting limb by limb with borrows computes `m - a` up to the borrow
/// out of the top limb: the difference limbs and `a` compose to `m` plus that
/// borrow at the weight `2^(bl * len)`.
pub proof fn law_borrow_subtraction(m: Seq<nat>, a: Seq<nat>, bl: nat)
    requires
        m.len() == a.len(),
        a.len() > 0,
        subtraction_fits(m, a, bl),
    ensures
        compose(difference_limbs(m, a, bl), bl) + compose(a, bl) == compose(m, bl) + (if borrow_out(
            m,
            a,
            (a.len() - 1) as nat,
        ) {
            pow2(bl * a.len())
        } else {
            0
        }),
{
    lemma_borrow_prefix(m, a, bl, a.len());
    let k = a.len() as int;
    assert(difference_limbs(m, a, bl).take(k) =~= difference_limbs(m, a, bl));
    assert(a.take(k) =~= a);
    assert(m.take(k) =~= m);
    let bi = borrow_in(m, a, a.len());
    assert(bi * pow2(bl * a.len()) == if bi == 1 { pow2(bl * a.len()) } else { 0 }) by (nonlinear_arith)
        requires bi == 0 || bi == 1;
}

/// Law: the comparison witness of an integer `a` of the wrong field subtracts it
/// from `w - 1`: when limbs of `bl` bits fit in the native field and no
/// difference limb wraps it, the result and `a` compose to `w - 1` plus the
/// borrow out of the top limb at the weight of the binary modulus.
pub proof fn law_comparison_witness(w: nat, n: nat, nl: nat, bl: nat, a: Seq<nat>)
    requires
        0 < w <= pow2(bl * nl),
        pow2(bl) <= n,
        a.len() == nl,
        nl > 0,
        subtraction_fits(decompose_fe((w - 1) as nat, nl, bl, n), a, bl),
        all_below(difference_limbs(decompose_fe((w - 1) as nat, nl, bl, n), a, bl), n),
    ensures
        ({
            let m = decompose_fe((w - 1) as nat, nl, bl, n);
            compose(reduce_all(difference_limbs(m, a, bl), n), bl) + compose(a, bl) == (w - 1) + (if borrow_out(
                m,
                a,
                (nl - 1) as nat,
            ) {
                pow2(bl * nl)
            } else {
                0
            })
        }),
{
    let m = decompose_fe((w - 1) as nat, nl, bl, n);
    lemma_pow2_pos(bl);
    crate::spec::lemma_reduce_all_small(difference_limbs(m, a, bl), n);
    lemma_compose_decompose_fe((w - 1) as nat, nl, bl, n);
    lemma_small_mod((w - 1) as nat, pow2(bl * nl));
    law_borrow_subtraction(m, a, bl);
}

/// Doubling `a` the fewest times that reach `m` does reach it.
proof fn lemma_min_shift_reaches(m: nat, a: nat)
    requires
        a > 0 || m <= a,
    ensures
        a * pow2(min_shift(m, a)) >= m,
    decreases gap(m, a),
{
    lemma2_to64();
    if m <= a {
        assert(a * 1 == a);
    } else {
        lemma_min_shift_reaches(m, 2 * a);
        let s = min_shift(m, 2 * a);
        lemma_pow2_adds(1, s);
        assert(2 * a * pow2(s) == a * (2 * pow2(s))) by (nonlinear_arith);
        assert(min_shift(m, a) == 1 + s);
    }
}

/// The largest shift is at least each shift it is taken over.
proof fn lemma_max_min_shift_bound(m: Seq<nat>, a: Seq<nat>, i: nat, j: int)
    requires
        0 <= j < i,
    ensures
        max_min_shift(m, a, i) >= min_shift(m[j], a[j]),
    decreases i,
{
    if j < i - 1 {
        lemma_max_min_shift_bound(m, a, (i - 1) as nat, j);
    }
}

/// Law: the auxiliary integer for subtraction is a multiple of `w` whenever its
/// base is, and each of its limbs is at least the matching maximum: shifting
/// every limb of the base left by the same number of bits keeps a multiple of
/// `w` a multiple of `w`.
pub proof fn law_subtraction_aux(aux: Seq<nat>, maxs: Seq<nat>, w: nat, bl: nat)
    requires
        aux.len() == maxs.len(),
        w > 0,
        compose(aux, bl) % w == 0,
        forall|i: int| 0 <= i < aux.len() ==> #[trigger] aux[i] > 0 || maxs[i] <= aux[i],
    ensures
        ({
            let s = max_min_shift(maxs, aux, aux.len());
            let shifted = Seq::new(aux.len(), |i: int| aux[i] * pow2(s));
            &&& compose(shifted, bl) % w == 0
            &&& forall|i: int| 0 <= i < aux.len() ==> #[trigger] shifted[i] >= maxs[i]
        }),
{
    let s = max_min_shift(maxs, aux, aux.len());
    let shifted = Seq::new(aux.len(), |i: int| aux[i] * pow2(s));
    lemma_compose_scale(aux, shifted, pow2(s), bl);
    lemma_mul_mod_noop_left(compose(aux, bl) as int, pow2(s) as int, w as int);
    assert(0 * pow2(s) == 0) by (nonlinear_arith);
    lemma_small_mod(0, w);
    assert forall|i: int| 0 <= i < aux.len() implies #[trigger] shifted[i] >= maxs[i] by {
        lemma_min_shift_reaches(maxs[i], aux[i]);
        lemma_max_min_shift_bound(maxs, aux, aux.len(), i);
        let k = min_shift(maxs[i], aux[i]);
        if k < s {
            lemma_pow2_strictly_increases(k, s);
        }
        lemma_mul_inequality(pow2(k) as int, pow2(s) as int, aux[i] as int);
        lemma_mul_is_commutative(pow2(k) as int, aux[i] as int);
        lemma_mul_is_commutative(pow2(s) as int, aux[i] as int);
    }
}

/// Each borrowing step keeps the length and, when the borrowed amount `r` is a
/// whole limb `2^bl`, the value of the auxiliary limbs.
proof fn lemma_base_aux_steps_keep_value(start: Seq<nat>, nl: nat, bl: nat, steps: nat)
    requires
        start.len() == nl,
        steps < nl,
        base_aux_after(start, nl, bl, pow2(bl), steps) is Some,
    ensures
        base_aux_after(start, nl, bl, pow2(bl), steps).unwrap().len() == nl,
        compose(base_aux_after(start, nl, bl, pow2(bl), steps).unwrap(), bl) == compose(start, bl),
    decreases steps,
{
    if steps > 0 {
        let r = pow2(bl);
        lemma_base_aux_steps_keep_value(start, nl, bl, (steps - 1) as nat);
        let prev = base_aux_after(start, nl, bl, r, (steps - 1) as nat).unwrap();
        let hidx = nl - steps;
        let lidx = hidx - 1;
        if bit_length_below(prev[lidx], bl) {
            let mid = prev.update(hidx, (prev[hidx] - 1) as nat);
            lemma_compose_update(prev, hidx, (prev[hidx] - 1) as nat, bl);
            lemma_compose_update(mid, lidx, prev[lidx] + r, bl);
            let ph = pow2(bl * (hidx as nat));
            let pl = pow2(bl * (lidx as nat));
            assert(bl * (hidx as nat) == bl + bl * (lidx as nat)) by (nonlinear_arith)
                requires hidx == lidx + 1, lidx >= 0;
            lemma_pow2_adds(bl, bl * (lidx as nat));
            assert(prev[hidx] * ph - (prev[hidx] - 1) * ph == ph) by (nonlinear_arith);
            assert((prev[lidx] + r) * pl - prev[lidx] * pl == r * pl) by (nonlinear_arith);
        }
    }
}

/// Whether `x` fits in `bl` bits, the condition under which a limb borrows.
spec fn bit_length_below(x: nat, bl: nat) -> bool {
    crate::big::bit_length(x) < bl + 1
}

/// Law: when a limb of `bl` bits sits below the native modulus and `w` below the
/// binary modulus, the auxiliary value for subtraction is `2 * w`: borrowing
/// between its limbs never changes its value.
pub proof fn law_base_aux_value(w: nat, n: nat, nl: nat, bl: nat)
    requires
        nl >= 1,
        pow2(bl) < n,
        w < pow2(bl * nl),
        base_aux(w, n, nl, bl) is Some,
    ensures
        compose(base_aux(w, n, nl, bl).unwrap(), bl) == 2 * w,
{
    lemma_pow2_pos(bl);
    lemma_small_mod(pow2(bl), n);
    let start = base_aux_start(w, n, nl, bl);
    lemma_compose_decompose_fe(w, nl, bl, n);
    lemma_small_mod(w, pow2(bl * nl));
    let d = decompose_fe(w, nl, bl, n);
    assert forall|i: int| 0 <= i < d.len() implies #[trigger] start[i] == d[i] * 2 by {}
    lemma_compose_scale(d, start, 2, bl);
    lemma_base_aux_steps_keep_value(start, nl, bl, (nl - 1) as nat);
}

/// `x = q * w + r`.
pub open spec fn splits(x: nat, w: nat, q: nat, r: nat) -> bool {
    x == q * w + r
}

/// Law: the parameters are complete for multiplication. For any two operands up
/// to the largest operand there is a quotient up to the largest quotient and a
/// remainder up to the largest remainder with `a * b = q * w + r`, and the
/// product stays below the CRT modulus.
pub proof fn law_operands_have_witnesses(w: nat, n: nat, nl: nat, bl: nat, a: nat, b: nat)
    requires
        moduli_ok(w, n, nl, bl),
        a <= max_operand(w, n, nl, bl),
        b <= max_operand(w, n, nl, bl),
    ensures
        exists|q: nat, r: nat|
            q <= max_quotient(w, n, nl, bl) && r <= max_remainder(w) && #[trigger] splits(a * b, w, q, r),
        a * b < crt_modulus(n, nl, bl),
{
    let mo = max_operand(w, n, nl, bl);
    let mq = max_quotient(w, n, nl, bl);
    let mr = max_remainder(w);
    lemma_mul_upper_bound(a as int, mo as int, b as int, mo as int);
    assert(a * b < mq * w + mr);
    let p = a * b;
    lemma_fundamental_div_mod(p as int, w as int);
    lemma_mod_bound(p as int, w as int);
    if p / w <= mq {
        let q = p / w;
        let r = p % w;
        assert(p == q * w + r) by {
            lemma_mul_is_commutative(w as int, q as int);
        }
        assert(q <= mq && r <= mr && splits(p, w, q, r));
    } else {
        let q = mq;
        assert((mq + 1) * w <= (p / w) * w) by {
            lemma_mul_inequality((mq + 1) as int, (p / w) as int, w as int);
        }
        assert((p / w) * w <= p) by {
            lemma_mul_is_commutative(w as int, (p / w) as int);
        }
        assert((mq + 1) * w == mq * w + w) by (nonlinear_arith);
        let r = (p - mq * w) as nat;
        assert(q <= mq && r <= mr && splits(p, w, q, r));
    }
}

/// Law: multiplying every limb by `k` in the native field multiplies the
/// integer's native value by `k`.
pub proof fn law_scale_native(s: Seq<nat>, scaled: Seq<nat>, k: nat, n: nat, bl: nat)
    requires
        n > 0,
        scaled.len() == s.len(),
        forall|i: int| 0 <= i < s.len() ==> #[trigger] scaled[i] == (s[i] * k) % n,
    ensures
        compose(scaled, bl) % n == (compose(s, bl) * k) % n,
    decreases s.len(),
{
    let nn = n as int;
    if s.len() == 0 {
        assert(0 * k == 0) by (nonlinear_arith);
    } else {
        let t = s.drop_first();
        let ts = scaled.drop_first();
        assert forall|i: int| 0 <= i < t.len() implies #[trigger] ts[i] == (t[i] * k) % n by {
            assert(ts[i] == scaled[i + 1]);
        }
        law_scale_native(t, ts, k, n, bl);
        let p = pow2(bl) as int;
        let c = compose(t, bl) as int;
        let cs = compose(ts, bl) as int;
        lemma_congruent_mod((s[0] * k) as int, nn);
        lemma_congruent_mod(p, nn);
        lemma_congruent_mul2(p, cs, p, c * k, nn);
        lemma_congruent_add2(scaled[0] as int, p * cs, (s[0] * k) as int, p * (c * k), nn);
        assert((s[0] * k) as int + p * (c * k) == (s[0] + p * c) * k) by (nonlinear_arith);
    }
}

/// Law: adding the limbs of `-w` modulo the binary modulus times the quotient
/// turns the product into the result modulo the binary modulus: when
/// `a * b = w * q + r`, then `a * b + (T - w) * q = r (mod T)` for the binary
/// modulus `T > w`. This is why the multiplication gate adds `p * q` with the
/// limbs `p` of `T - w`.
pub proof fn law_binary_congruence(a: nat, b: nat, w: nat, q: nat, r: nat, t: nat)
    requires
        a * b == w * q + r,
        w < t,
    ensures
        (a * b + (t - w) * q) % (t as int) == (r as int) % (t as int),
{
    assert(a * b + (t - w) * q == r + t * q) by (nonlinear_arith)
        requires a * b == w * q + r, w < t;
    lemma_mod_multiples_vanish(q as int, r as int, t as int);
    lemma_mul_is_commutative(t as int, q as int);
}

/// Composing limbs that all sit below `2^bl` gives a number below `2^(bl * len)`.
proof fn lemma_compose_bound(s: Seq<nat>, bl: nat)
    requires
        all_below(s, pow2(bl)),
    ensures
        compose(s, bl) < pow2(bl * s.len()),
    decreases s.len(),
{
    if s.len() == 0 {
        assert(bl * 0 == 0) by (nonlinear_arith);
        lemma2_to64();
    } else {
        let t = s.drop_first();
        assert(all_below(t, pow2(bl)));
        lemma_compose_bound(t, bl);
        let c = compose(t, bl);
        assert(bl * s.len() == bl + bl * t.len()) by (nonlinear_arith)
            requires s.len() == t.len() + 1;
        lemma_pow2_adds(bl, bl * t.len());
        let p = pow2(bl) as int;
        let q = pow2(bl * t.len()) as int;
        assert(s[0] < p);
        assert(compose(s, bl) == s[0] + p * c);
        assert(p * (c + 1) <= p * q) by (nonlinear_arith)
            requires c + 1 <= q, p > 0;
        assert(s[0] + p * c < p * (c + 1)) by (nonlinear_arith)
            requires s[0] < p;
    }
}

/// Law: the borrow out of the top limb of the comparison witness decides the
/// comparison: it is set exactly when the integer exceeds `w - 1`, that is when
/// it is not below the wrong modulus.
pub proof fn law_comparison_decides(w: nat, n: nat, nl: nat, bl: nat, a: Seq<nat>)
    requires
        0 < w <= pow2(bl * nl),
        pow2(bl) <= n,
        a.len() == nl,
        nl > 0,
        subtraction_fits(decompose_fe((w - 1) as nat, nl, bl, n), a, bl),
    ensures
        borrow_out(decompose_fe((w - 1) as nat, nl, bl, n), a, (nl - 1) as nat) <==> compose(a, bl) >= w,
{
    let m = decompose_fe((w - 1) as nat, nl, bl, n);
    let d = difference_limbs(m, a, bl);
    lemma_pow2_pos(bl);
    crate::spec::lemma_decompose_bound((w - 1) as nat, nl, bl);
    crate::spec::lemma_reduce_all_small(decompose((w - 1) as nat, nl, bl), n);
    assert forall|i: int| 0 <= i < d.len() implies #[trigger] d[i] < pow2(bl) by {
        assert(m[i] < pow2(bl));
        assert(difference_limb(m, a, bl, i as nat) >= 0);
    }
    lemma_compose_bound(d, bl);
    lemma_compose_decompose_fe((w - 1) as nat, nl, bl, n);
    lemma_small_mod((w - 1) as nat, pow2(bl * nl));
    law_borrow_subtraction(m, a, bl);
}

/// A number that needs at least `k + 1` bits is at least `2^k`.
pub(crate) proof fn lemma_bit_length_at_least(x: nat, k: nat)
    requires
        crate::big::bit_length(x) >= k + 1,
    ensures
        x >= pow2(k),
    decreases k,
{
    lemma2_to64();
    if k > 0 {
        assert(x != 0);
        lemma_bit_length_at_least(x / 2, (k - 1) as nat);
        lemma_pow2_unfold(k);
    }
}

/// Built parameters never have a native field below `2^bl`: such a field
/// leaves the top limb of `w` empty, which forces `w` so large that no operand
/// above `w` has a square below the CRT modulus.
proof fn lemma_native_not_below_limb(w: nat, n: nat, nl: nat, bl: nat)
    requires
        rns_ok(w, n, nl, bl),
        bl > 0,
    ensures
        pow2(bl) <= n,
{
    if n < pow2(bl) {
        let p = pow2(bl);
        let m = pow2(bl * ((nl - 1) as nat));
        let qq = pow2(bl * ((nl - 2) as nat));
        let t = pow2(bl * nl);
        lemma_pow2_pos(bl);
        lemma_pow2_pos(bl * ((nl - 2) as nat));
        lemma_pow2_pos(bl * ((nl - 1) as nat));
        assert(bl * nl == bl * ((nl - 1) as nat) + bl) by (nonlinear_arith)
            requires nl >= 1;
        assert(bl * ((nl - 1) as nat) == bl * ((nl - 2) as nat) + bl) by (nonlinear_arith)
            requires nl >= 2;
        lemma_pow2_adds(bl * ((nl - 1) as nat), bl);
        lemma_pow2_adds(bl * ((nl - 2) as nat), bl);
        assert(t == m * p);
        assert(m == qq * p);
        // the wrong modulus takes at least `bl * (nl - 1)` bits
        assert(2 * w >= m) by {
            if w < m {
                let start = base_aux_start(w, n, nl, bl);
                let r = pow2(bl) % n;
                lemma_basic_div(w as int, m as int);
                lemma_small_mod(0, p);
                lemma_small_mod(0, n);
                assert(decompose(w, nl, bl)[nl - 1] == 0);
                assert(start[nl - 1] == 0);
                let one = base_aux_after(start, nl, bl, r, 1);
                assert(base_aux_after(start, nl, bl, r, 0) == Some(start));
                if crate::big::bit_length(start[nl - 2]) < bl + 1 {
                    assert(one is None);
                    crate::setup::lemma_base_aux_stays_none(start, nl, bl, r, 1, (nl - 1) as nat);
                    assert(false);
                }
                lemma_bit_length_at_least(start[nl - 2], bl);
                let limb = decompose(w, nl, bl)[nl - 2];
                assert(limb == (w / qq) % p);
                lemma_mod_bound((w / qq) as int, p as int);
                lemma_mod_bound(limb as int, n as int);
                assert(start[nl - 2] == 2 * (limb % n));
                assert(limb % n <= limb) by {
                    if limb < n {
                        lemma_small_mod(limb, n);
                    } else {
                        lemma_mod_bound(limb as int, n as int);
                    }
                }
                assert(limb <= w / qq) by {
                    if w / qq < p {
                        lemma_small_mod(w / qq, p);
                    }
                }
                lemma_fundamental_div_mod(w as int, qq as int);
                lemma_mod_bound(w as int, qq as int);
                let d = w / qq;
                assert(2 * d >= p);
                assert(qq * d <= w);
                assert(2 * (qq * d) >= qq * p) by (nonlinear_arith)
                    requires 2 * d >= p, qq > 0;
            }
        }
        // so the largest operand, above `w`, takes at least that many bits too
        let mob = max_operand_bit_len(w, n, nl, bl);
        let mo = max_operand(w, n, nl, bl);
        lemma_pow2_pos(mob);
        assert(mo == pow2(mob) - 1);
        assert(pow2(mob) >= m) by {
            if pow2(mob) < m {
                let e = bl * ((nl - 1) as nat);
                if mob > e {
                    lemma_pow2_strictly_increases(e, mob);
                }
                if mob + 1 < e {
                    lemma_pow2_strictly_increases(mob + 1, e);
                }
                lemma_pow2_unfold(mob + 1);
                assert(pow2(mob + 1) <= m);
                assert(false);
            }
        }
        // `m >= p * p`, since there are at least three limbs
        assert(bl * ((nl - 1) as nat) >= bl + bl) by (nonlinear_arith)
            requires nl >= 3;
        lemma_pow2_adds(bl, bl);
        if bl + bl < bl * ((nl - 1) as nat) {
            lemma_pow2_strictly_increases(bl + bl, bl * ((nl - 1) as nat));
        }
        assert(m >= p * p);
        lemma_pow2_unfold(bl);
        assert(p >= 2);
        // the square of the largest operand cannot stay below `t * n`
        let rhs = max_gate_value(w, n, nl, bl);
        assert(mo * mo < rhs);
        assert(rhs < crt_modulus(n, nl, bl));
        assert(crt_modulus(n, nl, bl) == t * n);
        assert(mo * mo >= (m - 1) * (m - 1)) by (nonlinear_arith)
            requires mo >= m - 1, m >= 1;
        assert((m - 1) * (m - 1) >= m * (p * p) - 2 * m + 1) by (nonlinear_arith)
            requires m >= p * p, m >= 1;
        assert(t * n <= m * (p * p) - m * p) by (nonlinear_arith)
            requires t == m * p, n + 1 <= p, m >= 1;
        assert(m * p >= 2 * m) by (nonlinear_arith)
            requires p >= 2, m >= 1;
    }
}

/// Law: built parameters give a native field above `2^bl`, so a limb of `bl`
/// bits is always an element of the native field.
pub proof fn law_limb_fits_native(w: nat, n: nat, nl: nat, bl: nat)
    requires
        rns_ok(w, n, nl, bl),
    ensures
        pow2(bl) < n,
{
    lemma2_to64();
    if bl > 0 {
        lemma_native_not_below_limb(w, n, nl, bl);
        lemma_pow2_unfold(bl);
        assert(n != pow2(bl));
    }
}

/// Law: built parameters put every limb of `BIT_LEN_LIMB` bits in the native
/// field.
pub proof fn law_built_limb_fits<const NUMBER_OF_LIMBS: usize, const BIT_LEN_LIMB: usize>(
    rns: &Rns<NUMBER_OF_LIMBS, BIT_LEN_LIMB>,
)
    requires
        rns.wf(),
    ensures
        pow2(BIT_LEN_LIMB as nat) < rns.native_modulus@,
        rns.wrong_modulus@ < pow2(BIT_LEN_LIMB as nat * NUMBER_OF_LIMBS as nat),
{
    law_limb_fits_native(rns.wrong_modulus@, rns.native_modulus@, NUMBER_OF_LIMBS as nat, BIT_LEN_LIMB as nat);
}

/// The sum, over `lo <= i < hi`, of `x[i] * y[k - i]`.
spec fn convolution(x: Seq<nat>, y: Seq<nat>, k: int, lo: int, hi: int) -> int
    decreases hi - lo,
{
    if hi <= lo {
        0
    } else {
        convolution(x, y, k, lo, hi - 1) + x[hi - 1] * y[k - (hi - 1)]
    }
}

/// A column of `a * b + p * q` splits into the two convolutions.
proof fn lemma_mul_column_split(a: Seq<nat>, b: Seq<nat>, p: Seq<nat>, q: Seq<nat>, k: int, upto: int)
    requires
        upto >= 0,
    ensures
        mul_column(a, b, p, q, k, upto) == convolution(a, b, k, 0, upto) + convolution(p, q, k, 0, upto),
    decreases upto,
{
    if upto > 0 {
        lemma_mul_column_split(a, b, p, q, k, upto - 1);
    }
}

/// The first term of a convolution can be taken off the front.
proof fn lemma_convolution_front(x: Seq<nat>, y: Seq<nat>, k: int, lo: int, hi: int)
    requires
        lo < hi,
    ensures
        convolution(x, y, k, lo, hi) == x[lo] * y[k - lo] + convolution(x, y, k, lo + 1, hi),
    decreases hi - lo,
{
    if hi > lo + 1 {
        lemma_convolution_front(x, y, k, lo, hi - 1);
    } else {
        assert(convolution(x, y, k, lo, lo) == 0);
        assert(convolution(x, y, k, lo + 1, hi) == 0);
    }
}

/// Reading a convolution backwards swaps its two sequences.
proof fn lemma_convolution_reverse(x: Seq<nat>, y: Seq<nat>, k: int, lo: int, hi: int)
    requires
        lo <= hi,
    ensures
        convolution(x, y, k, lo, hi) == convolution(y, x, k, k + 1 - hi, k + 1 - lo),
    decreases hi - lo,
{
    if lo < hi {
        lemma_convolution_reverse(x, y, k, lo, hi - 1);
        lemma_convolution_front(y, x, k, k + 1 - hi, k + 1 - lo);
        lemma_mul_is_commutative(x[hi - 1] as int, y[k - (hi - 1)] as int);
    }
}

/// Law: multiplication witnesses do not depend on the order of the operands.
/// Swapping `a` and `b` keeps their product, and so the quotient and the result,
/// and keeps every intermediate column of `a * b + p * q`, and so the residues.
pub proof fn law_mul_commutes(a: Seq<nat>, b: Seq<nat>, p: Seq<nat>, q: Seq<nat>, n: nat, bl: nat)
    requires
        a.len() == b.len(),
    ensures
        compose(a, bl) * compose(b, bl) == compose(b, bl) * compose(a, bl),
        mul_intermediate(a, b, p, q, n) == mul_intermediate(b, a, p, q, n),
{
    lemma_mul_is_commutative(compose(a, bl) as int, compose(b, bl) as int);
    assert forall|k: int| 0 <= k < a.len() implies #[trigger] mul_column(a, b, p, q, k, k + 1) == mul_column(
        b,
        a,
        p,
        q,
        k,
        k + 1,
    ) by {
        lemma_mul_column_split(a, b, p, q, k, k + 1);
        lemma_mul_column_split(b, a, p, q, k, k + 1);
        lemma_convolution_reverse(a, b, k, 0, k + 1);
    }
    assert(mul_intermediate(a, b, p, q, n) =~= mul_intermediate(b, a, p, q, n));
}

/// Limb `i` of `x + 2^bl * y` is `x` for `i = 0` and limb `i - 1` of `y` above.
proof fn lemma_limb_of_shifted(x: nat, y: nat, bl: nat, i: nat)
    requires
        x < pow2(bl),
    ensures
        limb_of(x + pow2(bl) * y, bl, i) == if i == 0 { x } else { limb_of(y, bl, (i - 1) as nat) },
{
    let p = pow2(bl);
    let e = x + p * y;
    lemma_pow2_pos(bl);
    if i == 0 {
        assert(bl * 0 == 0) by (nonlinear_arith);
        lemma2_to64();
        lemma_mod_multiples_vanish(y as int, x as int, p as int);
        lemma_small_mod(x, p);
    } else {
        let k = bl * ((i - 1) as nat);
        assert(bl * i == bl + k) by (nonlinear_arith)
            requires i >= 1, k == bl * ((i - 1) as nat);
        lemma_pow2_adds(bl, k);
        lemma_pow2_pos(k);
        lemma_div_denominator(e as int, p as int, pow2(k) as int);
        lemma_div_multiples_vanish_fancy(y as int, x as int, p as int);
    }
}

/// Law: cutting a composed number back into limbs gives the same limbs, when
/// every limb fits in `bl` bits; taken in a field of order `n` that holds them
/// all, they are unchanged too.
pub proof fn law_decompose_compose(s: Seq<nat>, bl: nat, n: nat)
    requires
        all_below(s, pow2(bl)),
        all_below(s, n),
        n > 0,
    ensures
        decompose(compose(s, bl), s.len(), bl) == s,
        decompose_fe(compose(s, bl), s.len(), bl, n) == s,
    decreases s.len(),
{
    let d = decompose(compose(s, bl), s.len(), bl);
    if s.len() > 0 {
        let t = s.drop_first();
        law_decompose_compose(t, bl, n);
        assert forall|i: int| 0 <= i < s.len() implies d[i] == s[i] by {
            lemma_limb_of_shifted(s[0], compose(t, bl), bl, i as nat);
            if i > 0 {
                assert(decompose(compose(t, bl), t.len(), bl)[i - 1] == t[i - 1]);
            }
        }
    }
    assert(d =~= s);
    lemma_reduce_all_small(s, n);
}

/// Law: the reduction intermediates pair limb `i` of the input with limb `i` of
/// `p`: composed, they are the input plus `q` times the composed `p`, in the
/// field of order `n`.
pub proof fn law_reduce_intermediate(a: Seq<nat>, p: Seq<nat>, q: nat, n: nat, bl: nat)
    requires
        p.len() == a.len(),
        n > 0,
    ensures
        compose(reduce_intermediate(a, p, q, n), bl) % n == (compose(a, bl) + q * compose(p, bl)) % n,
    decreases a.len(),
{
    let t = reduce_intermediate(a, p, q, n);
    let nn = n as int;
    if a.len() == 0 {
        assert(q * 0 == 0) by (nonlinear_arith);
    } else {
        let a1 = a.drop_first();
        let p1 = p.drop_first();
        let t1 = t.drop_first();
        assert(t1 =~= reduce_intermediate(a1, p1, q, n));
        law_reduce_intermediate(a1, p1, q, n, bl);
        let pw = pow2(bl) as int;
        let ct = compose(t1, bl) as int;
        let ca = compose(a1, bl) as int;
        let cp = compose(p1, bl) as int;
        let x0 = a[0] + p[0] * q;
        // t[0] = x0 (mod n)
        lemma_congruent_mod(x0 as int, nn);
        // pw * ct = pw * (ca + q * cp) (mod n)
        lemma_congruent_mod(pw, nn);
        lemma_congruent_mul2(pw, ct, pw, ca + q * cp, nn);
        lemma_congruent_add2(t[0] as int, pw * ct, x0 as int, pw * (ca + q * cp), nn);
        assert(compose(t, bl) == t[0] + pw * ct);
        assert(compose(a, bl) + q * compose(p, bl) == x0 + pw * (ca + q * cp)) by (nonlinear_arith)
            requires
                compose(a, bl) == a[0] + pw * ca,
                compose(p, bl) == p[0] + pw * cp,
                x0 == a[0] + p[0] * q;
    }
}

} // verus!
