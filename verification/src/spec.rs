//! The mathematical model: limbs as sequences of naturals, and what it means to
//! compose and decompose them.
use crate::big::BigNat;
use vstd::arithmetic::div_mod::*;
use vstd::arithmetic::mul::*;
use vstd::arithmetic::power2::*;
use vstd::prelude::*;

verus! {

/// The values of a sequence of numbers.
pub open spec fn values(s: Seq<BigNat>) -> Seq<nat> {
    s.map_values(|x: BigNat| x@)
}

/// The number whose little endian limbs of `bl` bits each are `s`.
pub open spec fn compose(s: Seq<nat>, bl: nat) -> nat
    decreases s.len(),
{
    if s.len() == 0 {
        0
    } else {
        s[0] + pow2(bl) * compose(s.drop_first(), bl)
    }
}

/// The limb `i` of `e` when it is cut into limbs of `bl` bits.
pub open spec fn limb_of(e: nat, bl: nat, i: nat) -> nat {
    (e / pow2(bl * i)) % pow2(bl)
}

/// The `nl` lowest limbs of `bl` bits of `e`, least significant first.
pub open spec fn decompose(e: nat, nl: nat, bl: nat) -> Seq<nat> {
    Seq::new(nl, |i: int| limb_of(e, bl, i as nat))
}

/// Every number of `s` taken modulo `n`.
pub open spec fn reduce_all(s: Seq<nat>, n: nat) -> Seq<nat> {
    s.map_values(|x: nat| x % n)
}

/// The limbs of `e` as elements of the field of order `n`.
pub open spec fn decompose_fe(e: nat, nl: nat, bl: nat, n: nat) -> Seq<nat> {
    reduce_all(decompose(e, nl, bl), n)
}

/// Every number of `s` is below `bound`.
pub open spec fn all_below(s: Seq<nat>, bound: nat) -> bool {
    forall|i: int| 0 <= i < s.len() ==> #[trigger] s[i] < bound
}

/// Composing the `nl` lowest limbs of `e` gives back `e` modulo `2^(bl * nl)`.
pub proof fn lemma_compose_decompose(e: nat, nl: nat, bl: nat)
    ensures
        compose(decompose(e, nl, bl), bl) == e % pow2(bl * nl),
    decreases nl,
{
    lemma_pow2_pos(bl);
    if nl == 0 {
        assert(bl * 0 == 0) by (nonlinear_arith);
        lemma2_to64();
        assert(compose(decompose(e, nl, bl), bl) == 0);
    } else {
        let k = (nl - 1) as nat;
        let e1 = e / pow2(bl);
        lemma_compose_decompose(e1, k, bl);
        let d = decompose(e, nl, bl);
        assert(d.drop_first() =~= decompose(e1, k, bl)) by {
            assert forall|i: int| 0 <= i < k implies d.drop_first()[i] == decompose(e1, k, bl)[i] by {
                assert(bl * ((i + 1) as nat) == bl + bl * (i as nat)) by (nonlinear_arith)
                    requires i >= 0;
                lemma_pow2_adds(bl, bl * (i as nat));
                lemma_pow2_pos(bl * (i as nat));
                lemma_div_denominator(e as int, pow2(bl) as int, pow2(bl * (i as nat)) as int);
            }
        }
        assert(bl * 0 == 0) by (nonlinear_arith);
        lemma2_to64();
        assert(d[0] == e % pow2(bl));
        assert(bl * nl == bl + bl * k) by (nonlinear_arith)
            requires nl == k + 1;
        lemma_pow2_adds(bl, bl * k);
        lemma_pow2_pos(bl * k);
        lemma_mod_breakdown(e as int, pow2(bl) as int, pow2(bl * k) as int);
        lemma_mul_is_commutative(pow2(bl) as int, (e1 % pow2(bl * k)) as int);
    }
}

/// Limbs that are already below `n` are left alone when taken modulo `n`.
pub proof fn lemma_reduce_all_small(s: Seq<nat>, n: nat)
    requires
        n > 0,
        all_below(s, n),
    ensures
        reduce_all(s, n) == s,
{
    let r = reduce_all(s, n);
    assert forall|i: int| 0 <= i < s.len() implies r[i] == s[i] by {
        lemma_small_mod(s[i], n);
        assert(r[i] == s[i] % n);
    }
    assert(r =~= s);
}

/// Remainders modulo `n` sit below `n`.
pub proof fn lemma_reduce_all_below(s: Seq<nat>, n: nat)
    requires
        n > 0,
    ensures
        all_below(reduce_all(s, n), n),
{
    assert forall|i: int| 0 <= i < reduce_all(s, n).len() implies #[trigger] reduce_all(s, n)[i] < n by {
        lemma_mod_bound(s[i] as int, n as int);
    }
}

/// Every limb of a decomposition sits below `2^bl`.
pub proof fn lemma_decompose_bound(e: nat, nl: nat, bl: nat)
    ensures
        all_below(decompose(e, nl, bl), pow2(bl)),
{
    lemma_pow2_pos(bl);
    assert forall|i: int| 0 <= i < nl implies #[trigger] decompose(e, nl, bl)[i] < pow2(bl) by {
        lemma_mod_bound((e / pow2(bl * (i as nat))) as int, pow2(bl) as int);
    }
}

/// When limbs of `bl` bits fit in the field of order `n`, the field limbs of `e`
/// compose back to `e` modulo `2^(bl * nl)`.
pub proof fn lemma_compose_decompose_fe(e: nat, nl: nat, bl: nat, n: nat)
    requires
        0 < pow2(bl) <= n,
    ensures
        decompose_fe(e, nl, bl, n) == decompose(e, nl, bl),
        compose(decompose_fe(e, nl, bl, n), bl) == e % pow2(bl * nl),
{
    lemma_decompose_bound(e, nl, bl);
    lemma_reduce_all_small(decompose(e, nl, bl), n);
    lemma_compose_decompose(e, nl, bl);
}


/// `x` and `y` are congruent modulo `n`.
pub open spec fn congruent(x: int, y: int, n: int) -> bool {
    x % n == y % n
}

/// A number is congruent to its remainder.
pub proof fn lemma_congruent_mod(x: int, n: int)
    requires
        n > 0,
    ensures
        congruent(x % n, x, n),
{
    lemma_mod_twice(x, n);
}

/// Congruences can be added.
pub proof fn lemma_congruent_add2(x: int, y: int, xx: int, yy: int, n: int)
    requires
        n > 0,
        congruent(x, xx, n),
        congruent(y, yy, n),
    ensures
        congruent(x + y, xx + yy, n),
{
    lemma_add_mod_noop(x, y, n);
    lemma_add_mod_noop(xx, yy, n);
}

/// Congruences can be subtracted.
pub proof fn lemma_congruent_sub2(x: int, y: int, xx: int, yy: int, n: int)
    requires
        n > 0,
        congruent(x, xx, n),
        congruent(y, yy, n),
    ensures
        congruent(x - y, xx - yy, n),
{
    lemma_sub_mod_noop(x, y, n);
    lemma_sub_mod_noop(xx, yy, n);
}

/// Congruences can be multiplied.
pub proof fn lemma_congruent_mul2(x: int, y: int, xx: int, yy: int, n: int)
    requires
        n > 0,
        congruent(x, xx, n),
        congruent(y, yy, n),
    ensures
        congruent(x * y, xx * yy, n),
{
    lemma_mul_mod_noop(x, y, n);
    lemma_mul_mod_noop(xx, yy, n);
}

/// The sum, over `i < upto`, of `a[i] * b[k - i] + p[i] * q[k - i]`: the part of
/// column `k` of `a * b + p * q` contributed by the first `upto` limbs of `a`
/// and `p`.
pub open spec fn mul_column(a: Seq<nat>, b: Seq<nat>, p: Seq<nat>, q: Seq<nat>, k: int, upto: int) -> int
    decreases upto,
{
    if upto <= 0 {
        0
    } else {
        mul_column(a, b, p, q, k, upto - 1) + a[upto - 1] * b[k - (upto - 1)] + p[upto - 1] * q[k - (upto - 1)]
    }
}

/// The intermediate values of the multiplication gate: column `k` of
/// `a * b + p * q`, for the `a.len()` lowest columns, in the field of order `n`.
pub open spec fn mul_intermediate(a: Seq<nat>, b: Seq<nat>, p: Seq<nat>, q: Seq<nat>, n: nat) -> Seq<nat> {
    Seq::new(a.len(), |k: int| (mul_column(a, b, p, q, k, k + 1) % (n as int)) as nat)
}

/// The intermediate values of the reduction gate: `a[i] + p[i] * quotient` in the
/// field of order `n`.
pub open spec fn reduce_intermediate(a: Seq<nat>, p: Seq<nat>, quotient: nat, n: nat) -> Seq<nat> {
    Seq::new(a.len(), |i: int| (a[i] + p[i] * quotient) % n)
}

/// The residue of index `i` that a gate with intermediate values `t` and result
/// limbs `r` carries over, in the field of order `n`, where `lsh1` shifts left by
/// one limb and `rsh1`, `rsh2` shift right by one and two limbs. Residues cover
/// two limbs each; with an odd number of limbs the last one covers one limb.
pub open spec fn residue(r: Seq<nat>, t: Seq<nat>, n: nat, lsh1: nat, rsh1: nat, rsh2: nat, i: nat) -> nat
    decreases i,
{
    let nl = r.len();
    let u_len = (nl + 1) / 2;
    let j: int = 2 * (i as int);
    let carry: int = if i == 0 {
        0
    } else {
        residue(r, t, n, lsh1, rsh1, rsh2, (i - 1) as nat) as int
    };
    if i + 1 == u_len && nl % 2 == 1 {
        (((t[j] - r[j]) * rsh1) % (n as int)) as nat
    } else {
        (((t[j] + t[j + 1] * lsh1 - r[j] - lsh1 * r[j + 1] + carry) * rsh2) % (n as int)) as nat
    }
}

/// All residues of a gate.
pub open spec fn residues(r: Seq<nat>, t: Seq<nat>, n: nat, lsh1: nat, rsh1: nat, rsh2: nat) -> Seq<nat> {
    Seq::new((r.len() + 1) / 2, |i: int| residue(r, t, n, lsh1, rsh1, rsh2, i as nat))
}


/// Whether subtracting the limbs `a` from the limbs `m`, from the least
/// significant up, borrows out of limb `i`.
pub open spec fn borrow_out(m: Seq<nat>, a: Seq<nat>, i: nat) -> bool
    decreases i,
{
    m[i as int] < a[i as int] + borrow_in(m, a, i)
}

/// The borrow that limb `i` takes from the limb below it: 0 or 1.
pub open spec fn borrow_in(m: Seq<nat>, a: Seq<nat>, i: nat) -> nat
    decreases i, 0nat,
{
    if i == 0 {
        0
    } else if borrow_out(m, a, (i - 1) as nat) {
        1
    } else {
        0
    }
}

/// Limb `i` of `m - a`, computed limb by limb in limbs of `bl` bits with borrows.
pub open spec fn difference_limb(m: Seq<nat>, a: Seq<nat>, bl: nat, i: nat) -> int {
    m[i as int] + (if borrow_out(m, a, i) { pow2(bl) } else { 0 }) - borrow_in(m, a, i) - a[i as int]
}

/// The limbs of `m - a`, computed limb by limb with borrows.
pub open spec fn difference_limbs(m: Seq<nat>, a: Seq<nat>, bl: nat) -> Seq<nat> {
    Seq::new(a.len(), |i: int| difference_limb(m, a, bl, i as nat) as nat)
}

/// No limb of `m - a` goes below zero.
pub open spec fn subtraction_fits(m: Seq<nat>, a: Seq<nat>, bl: nat) -> bool {
    forall|i: nat| i < a.len() ==> #[trigger] difference_limb(m, a, bl, i) >= 0
}

/// The room between `a` and `m`, shrinking while `a` doubles towards `m`.
pub open spec fn gap(m: nat, a: nat) -> nat {
    if m > a {
        (m - a) as nat
    } else {
        0
    }
}

/// The fewest doublings of `a` that reach at least `m`.
pub open spec fn min_shift(m: nat, a: nat) -> nat
    decreases gap(m, a),
    when a > 0 || m <= a
{
    if m <= a {
        0
    } else {
        1 + min_shift(m, 2 * a)
    }
}

/// The largest of `min_shift(m[j], a[j])` over `j < i`, and zero for none.
pub open spec fn max_min_shift(m: Seq<nat>, a: Seq<nat>, i: nat) -> nat
    decreases i,
{
    if i == 0 {
        0
    } else {
        let prev = max_min_shift(m, a, (i - 1) as nat);
        let s = min_shift(m[i - 1], a[i - 1]);
        if s > prev {
            s
        } else {
            prev
        }
    }
}

} // verus!
