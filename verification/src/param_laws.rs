//! Laws of the parameters: what the emulated gates, the subtraction auxiliary
//! and its shift are, stated over the limbs of the numbers they come from.
use crate::big::bit_length;
use crate::params::{
    base_aux, base_aux_after, base_aux_start, emulated_bit_len, emulated_carry, emulated_column, emulated_term,
    max_operand, max_operand_limbs, max_quotient, max_quotient_limbs, moduli_ok,
};
use crate::laws::{law_base_aux_value, law_built_limb_fits, lemma_compose_push, lemma_compose_scale};
use crate::rns::Rns;
use crate::spec::{compose, gap, limb_of, max_min_shift, min_shift, values};
use vstd::arithmetic::div_mod::*;
use vstd::arithmetic::power2::*;
use vstd::prelude::*;

verus! {

/// The limbs below the top are full, the top limb is that of `m`, and every limb
/// of every number up to `m` is at most the matching limb.
proof fn lemma_dominating_limbs(lim: Seq<nat>, m: nat, nl: nat, bl: nat)
    requires
        nl >= 1,
        m < pow2(bl * nl),
        lim.len() == nl,
        forall|i: int| 0 <= i < nl - 1 ==> #[trigger] lim[i] == (pow2(bl) - 1) as nat,
        lim[nl - 1] == m / pow2(((nl - 1) * bl) as nat),
    ensures
        forall|i: int| 0 <= i < nl ==> #[trigger] lim[i] < pow2(bl),
        forall|i: int| 0 <= i < nl - 1 ==> #[trigger] lim[i] + 1 == pow2(bl),
        lim[nl - 1] == limb_of(m, bl, (nl - 1) as nat),
        forall|x: nat, i: int| x <= m && 0 <= i < nl ==> #[trigger] limb_of(x, bl, i as nat) <= lim[i],
{
    let top = ((nl - 1) * bl) as nat;
    assert(top == bl * ((nl - 1) as nat)) by (nonlinear_arith)
        requires top == (nl - 1) * bl, nl >= 1;
    assert(bl * nl == top + bl) by (nonlinear_arith)
        requires top == bl * ((nl - 1) as nat), nl >= 1;
    lemma_pow2_adds(top, bl);
    lemma_pow2_pos(top);
    lemma_pow2_pos(bl);
    let d = pow2(top);
    let p = pow2(bl);
    lemma_multiply_divide_lt(m as int, d as int, p as int);
    lemma_small_mod(m / d, p);
    assert forall|x: nat, i: int| x <= m && 0 <= i < nl implies #[trigger] limb_of(x, bl, i as nat) <= lim[i] by {
        lemma_pow2_pos(bl * (i as nat));
        lemma_mod_bound((x / pow2(bl * (i as nat))) as int, p as int);
        if i == nl - 1 {
            lemma_div_is_ordered(x as int, m as int, d as int);
            lemma_small_mod(x / d, p);
        }
    }
}

/// Law: the operand that the multiplication emulation assumes is the largest
/// operand limb by limb. Every limb fits in `bl` bits, the limbs below the top
/// are the largest of `bl` bits, the top limb is that of `max_operand`, and no
/// operand up to `max_operand` has a larger limb anywhere. The same holds of the
/// emulated quotient and `max_quotient`.
pub proof fn law_emulated_operands(w: nat, n: nat, nl: nat, bl: nat)
    requires
        moduli_ok(w, n, nl, bl),
    ensures
        ({
            let a = max_operand_limbs(w, n, nl, bl);
            let m = max_operand(w, n, nl, bl);
            &&& a.len() == nl
            &&& forall|i: int| 0 <= i < nl ==> #[trigger] a[i] < pow2(bl)
            &&& forall|i: int| 0 <= i < nl - 1 ==> #[trigger] a[i] + 1 == pow2(bl)
            &&& a[nl - 1] == limb_of(m, bl, (nl - 1) as nat)
            &&& forall|x: nat, i: int| x <= m && 0 <= i < nl ==> #[trigger] limb_of(x, bl, i as nat) <= a[i]
        }),
        ({
            let q = max_quotient_limbs(w, n, nl, bl);
            let m = max_quotient(w, n, nl, bl);
            &&& q.len() == nl
            &&& forall|i: int| 0 <= i < nl ==> #[trigger] q[i] < pow2(bl)
            &&& forall|i: int| 0 <= i < nl - 1 ==> #[trigger] q[i] + 1 == pow2(bl)
            &&& q[nl - 1] == limb_of(m, bl, (nl - 1) as nat)
            &&& forall|x: nat, i: int| x <= m && 0 <= i < nl ==> #[trigger] limb_of(x, bl, i as nat) <= q[i]
        }),
{
    lemma_pow2_pos(bl);
    lemma_dominating_limbs(max_operand_limbs(w, n, nl, bl), max_operand(w, n, nl, bl), nl, bl);
    lemma_dominating_limbs(max_quotient_limbs(w, n, nl, bl), max_quotient(w, n, nl, bl), nl, bl);
}

/// Fewer doublings than the fewest that reach `m` stay below `m`.
proof fn lemma_below_min_shift(m: nat, a: nat, k: nat)
    requires
        a > 0 || m <= a,
        k < min_shift(m, a),
    ensures
        a * pow2(k) < m,
    decreases k,
{
    lemma2_to64();
    assert(m > a);
    if k == 0 {
        assert(a * 1 == a);
    } else {
        lemma_below_min_shift(m, 2 * a, (k - 1) as nat);
        lemma_pow2_unfold(k);
        assert(2 * a * pow2((k - 1) as nat) == a * (2 * pow2((k - 1) as nat))) by (nonlinear_arith);
    }
}

/// Enough doublings of `a` reach `m`.
proof fn lemma_min_shift_enough(m: nat, a: nat, k: nat)
    requires
        a > 0 || m <= a,
        k >= min_shift(m, a),
    ensures
        a * pow2(k) >= m,
    decreases gap(m, a),
{
    lemma2_to64();
    lemma_pow2_pos(k);
    if m <= a {
        assert(a * pow2(k) >= a * 1) by (nonlinear_arith)
            requires pow2(k) >= 1;
    } else {
        lemma_min_shift_enough(m, 2 * a, (k - 1) as nat);
        lemma_pow2_unfold(k);
        assert(2 * a * pow2((k - 1) as nat) == a * (2 * pow2((k - 1) as nat))) by (nonlinear_arith);
    }
}

/// The largest of the shifts is one of them, or zero for none.
proof fn lemma_max_min_shift_attained(m: Seq<nat>, a: Seq<nat>, i: nat)
    ensures
        max_min_shift(m, a, i) == 0 || exists|j: int| 0 <= j < i && max_min_shift(m, a, i) == #[trigger] min_shift(m[j], a[j]),
        forall|j: int| 0 <= j < i ==> max_min_shift(m, a, i) >= #[trigger] min_shift(m[j], a[j]),
    decreases i,
{
    if i > 0 {
        lemma_max_min_shift_attained(m, a, (i - 1) as nat);
        let s = min_shift(m[i - 1], a[i - 1]);
        let prev = max_min_shift(m, a, (i - 1) as nat);
        if s > prev {
            assert(max_min_shift(m, a, i) == min_shift(m[i - 1], a[i - 1]));
        }
    }
}

/// Shifting every limb of `aux` left by `k` bits brings it to at least the
/// matching limb of `maxs`.
pub open spec fn shift_reaches(maxs: Seq<nat>, aux: Seq<nat>, k: nat) -> bool {
    forall|i: int| 0 <= i < aux.len() ==> #[trigger] (aux[i] * pow2(k)) >= maxs[i]
}

/// Law: the shift of the subtraction auxiliary is the least that works. Shifting
/// every auxiliary limb left by it brings each limb to at least its maximum, and
/// every smaller shift leaves some limb below its maximum; so when every limb
/// already reaches its maximum the shift is zero.
pub proof fn law_subtraction_shift_least(maxs: Seq<nat>, aux: Seq<nat>)
    requires
        maxs.len() == aux.len(),
        forall|i: int| 0 <= i < aux.len() ==> #[trigger] aux[i] > 0 || maxs[i] <= aux[i],
    ensures
        ({
            let s = max_min_shift(maxs, aux, aux.len());
            &&& shift_reaches(maxs, aux, s)
            &&& forall|k: nat| k < s ==> !#[trigger] shift_reaches(maxs, aux, k)
            &&& (forall|i: int| 0 <= i < aux.len() ==> #[trigger] maxs[i] <= aux[i]) ==> s == 0
        }),
{
    let s = max_min_shift(maxs, aux, aux.len());
    lemma_max_min_shift_attained(maxs, aux, aux.len());
    assert forall|i: int| 0 <= i < aux.len() implies #[trigger] (aux[i] * pow2(s)) >= maxs[i] by {
        assert(aux[i] > 0 || maxs[i] <= aux[i]);
        assert(s >= min_shift(maxs[i], aux[i]));
        lemma_min_shift_enough(maxs[i], aux[i], s);
    }
    assert forall|k: nat| k < s implies !#[trigger] shift_reaches(maxs, aux, k) by {
        let j = choose|j: int| 0 <= j < aux.len() && s == #[trigger] min_shift(maxs[j], aux[j]);
        assert(aux[j] > 0 || maxs[j] <= aux[j]);
        lemma_below_min_shift(maxs[j], aux[j], k);
        assert(!(aux[j] * pow2(k) >= maxs[j]));
    }
    if forall|i: int| 0 <= i < aux.len() ==> #[trigger] maxs[i] <= aux[i] {
        if s != 0 {
            let j = choose|j: int| 0 <= j < aux.len() && s == #[trigger] min_shift(maxs[j], aux[j]);
            assert(maxs[j] <= aux[j]);
            assert(min_shift(maxs[j], aux[j]) == 0);
        }
    }
}

/// Law: each carry of an emulated gate is the whole number of limb pairs in what
/// it carries: the two columns it covers, the upper one a limb higher, plus the
/// carry before it, divided by `2^(2 * bl)` and rounded down; when `odd_last`
/// holds the last carry covers one column and is divided by `2^bl`.
pub proof fn law_emulated_carry(t: Seq<nat>, bl: nat, u_len: nat, odd_last: bool, i: nat)
    ensures
        ({
            let c = emulated_carry(t, bl, u_len, odd_last, i);
            let before: nat = if i == 0 { 0 } else { emulated_carry(t, bl, u_len, odd_last, (i - 1) as nat) };
            if i + 1 == u_len && odd_last {
                &&& c * pow2(bl) <= t[i as int] + before
                &&& t[i as int] + before < (c + 1) * pow2(bl)
            } else {
                &&& c * pow2(2 * bl) <= t[i as int] + t[i + 1 as int] * pow2(bl) + before
                &&& t[i as int] + t[i + 1 as int] * pow2(bl) + before < (c + 1) * pow2(2 * bl)
            }
        }),
{
    let c = emulated_carry(t, bl, u_len, odd_last, i);
    let before: nat = if i == 0 { 0 } else { emulated_carry(t, bl, u_len, odd_last, (i - 1) as nat) };
    let d: nat = if i + 1 == u_len && odd_last { pow2(bl) } else { pow2(2 * bl) };
    let x: nat = if i + 1 == u_len && odd_last { t[i as int] + before } else { t[i as int] + t[i + 1 as int] * pow2(bl) + before };
    lemma_pow2_pos(bl);
    lemma_pow2_pos(2 * bl);
    assert(c == x / d);
    lemma_fundamental_div_mod(x as int, d as int);
    lemma_mod_bound(x as int, d as int);
    assert(c * d <= x < (c + 1) * d) by (nonlinear_arith)
        requires x == d * (x / d) + x % d, 0 <= x % d < d, c == x / d;
}

/// Law: the residue bit length that an emulation gives is the largest of `bl`
/// and the bit lengths of its carries: at least each of them, and equal to one.
pub proof fn law_emulated_bit_len(t: Seq<nat>, bl: nat, u_len: nat, odd_last: bool, upto: nat)
    ensures
        ({
            let r = emulated_bit_len(t, bl, u_len, odd_last, upto);
            &&& r >= bl
            &&& forall|j: nat| j < upto ==> r >= #[trigger] bit_length(emulated_carry(t, bl, u_len, odd_last, j))
            &&& r == bl || exists|j: nat| j < upto && r == #[trigger] bit_length(emulated_carry(t, bl, u_len, odd_last, j))
        }),
    decreases upto,
{
    if upto > 0 {
        law_emulated_bit_len(t, bl, u_len, odd_last, (upto - 1) as nat);
        let b = bit_length(emulated_carry(t, bl, u_len, odd_last, (upto - 1) as nat));
        let r = emulated_bit_len(t, bl, u_len, odd_last, upto);
        assert forall|j: nat| j < upto implies r >= #[trigger] bit_length(emulated_carry(t, bl, u_len, odd_last, j)) by {
            if j < upto - 1 {
            }
        }
        if r != bl && r == b {
            assert(bit_length(emulated_carry(t, bl, u_len, odd_last, (upto - 1) as nat)) == r);
        }
    }
}

/// A number below `2^k` needs at most `k` bits.
proof fn lemma_bit_length_at_most(x: nat, k: nat)
    requires
        x < pow2(k),
    ensures
        bit_length(x) <= k,
    decreases k,
{
    lemma2_to64();
    if x > 0 {
        if k == 0 {
            assert(false);
        } else {
            lemma_pow2_unfold(k);
            lemma_bit_length_at_most(x / 2, (k - 1) as nat);
        }
    }
}

/// Every number is below two to the number of its bits.
proof fn lemma_below_bit_length(x: nat)
    ensures
        x < pow2(bit_length(x)),
    decreases x,
{
    lemma2_to64();
    if x > 0 {
        lemma_below_bit_length(x / 2);
        lemma_pow2_unfold(bit_length(x));
    }
}

/// Limb `i` of `w` is small enough to borrow: twice it is below `2^bl`.
pub open spec fn borrows(w: nat, bl: nat, i: int) -> bool {
    2 * limb_of(w, bl, i as nat) < pow2(bl)
}

/// Limb `i` of the auxiliary after `s` borrowing steps: twice the limb of `w`,
/// plus `2^bl` once the limb has had its turn to borrow and did, less one once
/// the limb below it has had its turn and borrowed.
spec fn aux_after_steps(w: nat, bl: nat, nl: nat, s: nat, i: int) -> int {
    2 * limb_of(w, bl, i as nat) + (if nl - 1 - s <= i < nl - 1 && borrows(w, bl, i) { pow2(bl) as int } else { 0 })
        - (if nl - s <= i && i >= 1 && borrows(w, bl, i - 1) { 1int } else { 0 })
}

proof fn lemma_base_aux_steps(w: nat, n: nat, nl: nat, bl: nat, s: nat)
    requires
        nl >= 2,
        pow2(bl) < n,
        s <= nl - 1,
    ensures
        base_aux_after(base_aux_start(w, n, nl, bl), nl, bl, pow2(bl) % n, s) == if s >= 1 && limb_of(
            w,
            bl,
            (nl - 1) as nat,
        ) == 0 && borrows(w, bl, nl - 2) {
            None
        } else {
            Some(Seq::new(nl, |i: int| aux_after_steps(w, bl, nl, s, i) as nat))
        },
    decreases s,
{
    let p = pow2(bl);
    lemma_pow2_pos(bl);
    lemma_small_mod(p, n);
    let start = base_aux_start(w, n, nl, bl);
    assert forall|i: int| 0 <= i < nl implies #[trigger] limb_of(w, bl, i as nat) < p by {
        lemma_pow2_pos(bl * (i as nat));
        lemma_mod_bound((w / pow2(bl * (i as nat))) as int, p as int);
    }
    if s == 0 {
        assert(base_aux_after(start, nl, bl, pow2(bl) % n, 0) == Some(start));
        assert forall|i: int| 0 <= i < nl implies start[i] == aux_after_steps(w, bl, nl, 0, i) as nat by {
            lemma_small_mod(limb_of(w, bl, i as nat), n);
        }
        assert(start =~= Seq::new(nl, |i: int| aux_after_steps(w, bl, nl, 0, i) as nat));
    } else {
        lemma_base_aux_steps(w, n, nl, bl, (s - 1) as nat);
        let before = base_aux_after(start, nl, bl, p, (s - 1) as nat);
        if before is None {
            assert(base_aux_after(start, nl, bl, p, s) is None);
        } else {
            let prev = before.unwrap();
            let h: int = nl - s;
            let l: int = h - 1;
            assert(prev[l] == 2 * limb_of(w, bl, l as nat));
            if borrows(w, bl, l) {
                lemma_bit_length_at_most(prev[l], bl);
            } else {
                if bit_length(prev[l]) < bl + 1 {
                    lemma_below_bit_length(prev[l]);
                    if bit_length(prev[l]) < bl {
                        lemma_pow2_strictly_increases(bit_length(prev[l]), bl);
                    }
                }
            }
            let after = Seq::new(nl, |i: int| aux_after_steps(w, bl, nl, s, i) as nat);
            if borrows(w, bl, l) {
                if !(s == 1 && limb_of(w, bl, (nl - 1) as nat) == 0) {
                    assert(prev[h] >= 1);
                    let up = prev.update(h, (prev[h] - 1) as nat).update(l, prev[l] + p);
                    assert(up =~= after);
                }
            } else {
                assert(prev =~= after);
            }
        }
    }
}

/// Law: the subtraction auxiliary, in a native field above `2^bl`, in closed
/// form over the limbs of `w`. A limb below the top borrows `2^bl` from the limb
/// above it exactly when twice its own limb of `w` is below `2^bl`, and a limb
/// that is already above a dense limb keeps twice its limb. Building fails
/// exactly when the limb below the top borrows from an empty top limb. Every
/// limb stays below `2^(bl + 1)`, and every limb below the top is at least a
/// dense limb `2^bl - 1`.
pub proof fn law_base_aux_limbs(w: nat, n: nat, nl: nat, bl: nat)
    requires
        nl >= 2,
        pow2(bl) < n,
    ensures
        base_aux(w, n, nl, bl) is Some <==> !(limb_of(w, bl, (nl - 1) as nat) == 0 && borrows(w, bl, nl - 2)),
        base_aux(w, n, nl, bl) matches Some(aux) ==> {
            &&& aux.len() == nl
            &&& forall|i: int| 0 <= i < nl ==> #[trigger] aux[i] == 2 * limb_of(w, bl, i as nat) + (if i < nl - 1
                && borrows(w, bl, i) { pow2(bl) as int } else { 0 }) - (if i >= 1 && borrows(w, bl, i - 1) { 1int } else { 0 })
            &&& forall|i: int| 0 <= i < nl ==> #[trigger] aux[i] < pow2(bl + 1)
            &&& forall|i: int| 0 <= i < nl - 1 ==> #[trigger] aux[i] + 1 >= pow2(bl)
        },
{
    let p = pow2(bl);
    lemma_pow2_pos(bl);
    lemma_small_mod(p, n);
    lemma_base_aux_steps(w, n, nl, bl, (nl - 1) as nat);
    lemma_pow2_unfold(bl + 1);
    if base_aux(w, n, nl, bl) is Some {
        let aux = base_aux(w, n, nl, bl).unwrap();
        assert forall|i: int| 0 <= i < nl implies #[trigger] aux[i] < pow2(bl + 1) && (i < nl - 1 ==> aux[i] + 1 >= p) by {
            lemma_pow2_pos(bl * (i as nat));
            lemma_mod_bound((w / pow2(bl * (i as nat))) as int, p as int);
            assert(aux[i] == aux_after_steps(w, bl, nl, (nl - 1) as nat, i));
        }
    }
}

/// Law: the subtraction auxiliary of built parameters is `2 * w`, held in limbs
/// below `2^(BIT_LEN_LIMB + 1)`, each below the top at least a dense limb, with a
/// limb borrowing from the one above it exactly when twice its limb of `w` is
/// below `2^BIT_LEN_LIMB`.
pub proof fn law_built_base_aux<const NUMBER_OF_LIMBS: usize, const BIT_LEN_LIMB: usize>(
    rns: &Rns<NUMBER_OF_LIMBS, BIT_LEN_LIMB>,
)
    requires
        rns.wf(),
    ensures
        ({
            let aux = values(rns.base_aux@);
            let w = rns.wrong_modulus@;
            let nl = NUMBER_OF_LIMBS as int;
            let bl = BIT_LEN_LIMB as nat;
            &&& aux.len() == nl
            &&& compose(aux, bl) == 2 * w
            &&& forall|i: int| 0 <= i < nl ==> #[trigger] aux[i] == 2 * limb_of(w, bl, i as nat) + (if i < nl - 1
                && borrows(w, bl, i) { pow2(bl) as int } else { 0 }) - (if i >= 1 && borrows(w, bl, i - 1) { 1int } else { 0 })
            &&& forall|i: int| 0 <= i < nl ==> #[trigger] aux[i] < pow2(bl + 1)
            &&& forall|i: int| 0 <= i < nl - 1 ==> #[trigger] aux[i] + 1 >= pow2(bl)
        }),
{
    let w = rns.wrong_modulus@;
    let n = rns.native_modulus@;
    let nl = NUMBER_OF_LIMBS as nat;
    let bl = BIT_LEN_LIMB as nat;
    law_built_limb_fits(rns);
    assert(bl * nl == BIT_LEN_LIMB as nat * NUMBER_OF_LIMBS as nat);
    law_base_aux_limbs(w, n, nl, bl);
    law_base_aux_value(w, n, nl, bl);
}

/// Composing a sum of two sequences adds their compositions.
proof fn lemma_compose_add(s: Seq<nat>, t: Seq<nat>, bl: nat)
    requires
        s.len() == t.len(),
    ensures
        compose(Seq::new(s.len(), |k: int| s[k] + t[k]), bl) == compose(s, bl) + compose(t, bl),
    decreases s.len(),
{
    let u = Seq::new(s.len(), |k: int| s[k] + t[k]);
    if s.len() > 0 {
        let s1 = s.drop_first();
        let t1 = t.drop_first();
        lemma_compose_add(s1, t1, bl);
        assert(u.drop_first() =~= Seq::new(s1.len(), |k: int| s1[k] + t1[k]));
        let x = pow2(bl) as int;
        assert(x * (compose(s1, bl) + compose(t1, bl)) == x * compose(s1, bl) + x * compose(t1, bl)) by (nonlinear_arith);
    }
}

/// Zeros above a sequence do not change its composition.
proof fn lemma_compose_pad(g: Seq<nat>, len: nat, bl: nat)
    requires
        g.len() <= len,
    ensures
        compose(Seq::new(len, |k: int| if k < g.len() { g[k] } else { 0nat }), bl) == compose(g, bl),
    decreases len,
{
    let u = Seq::new(len, |k: int| if k < g.len() { g[k] } else { 0nat });
    if len > 0 {
        if g.len() > 0 {
            let g1 = g.drop_first();
            lemma_compose_pad(g1, (len - 1) as nat, bl);
            assert(u.drop_first() =~= Seq::new((len - 1) as nat, |k: int| if k < g1.len() { g1[k] } else { 0nat }));
        } else {
            lemma_compose_pad(g, (len - 1) as nat, bl);
            assert(u.drop_first() =~= Seq::new((len - 1) as nat, |k: int| if k < g.len() { g[k] } else { 0nat }));
            assert(pow2(bl) * 0 == 0) by (nonlinear_arith);
        }
    }
}

/// A sequence placed `r` limbs up composes to its own composition times `2^(bl * r)`.
proof fn lemma_compose_placed(g: Seq<nat>, r: nat, len: nat, bl: nat)
    requires
        r + g.len() <= len,
    ensures
        compose(Seq::new(len, |k: int| if r <= k < r + g.len() { g[k - r] } else { 0nat }), bl) == pow2(bl * r)
            * compose(g, bl),
    decreases r,
{
    let u = Seq::new(len, |k: int| if r <= k < r + g.len() { g[k - r] } else { 0nat });
    if r == 0 {
        lemma_compose_pad(g, len, bl);
        assert(u =~= Seq::new(len, |k: int| if k < g.len() { g[k] } else { 0nat }));
        assert(bl * 0 == 0) by (nonlinear_arith);
        lemma2_to64();
        assert(1 * compose(g, bl) == compose(g, bl));
    } else {
        let r1 = (r - 1) as nat;
        lemma_compose_placed(g, r1, (len - 1) as nat, bl);
        assert(u.drop_first() =~= Seq::new((len - 1) as nat, |k: int| if r1 <= k < r1 + g.len() { g[k - r1] } else { 0nat }));
        assert(bl * r == bl + bl * r1) by (nonlinear_arith)
            requires r == r1 + 1;
        lemma_pow2_adds(bl, bl * r1);
        let x = pow2(bl) as int;
        let y = pow2(bl * r1) as int;
        assert(x * (y * compose(g, bl)) == (x * y) * compose(g, bl)) by (nonlinear_arith);
    }
}

/// The columns of an emulated gate, summed over the first `rows` rows.
spec fn columns_upto(a: Seq<nat>, p: Seq<nat>, q: Seq<nat>, squared: bool, rows: int) -> Seq<nat> {
    Seq::new((2 * a.len() - 1) as nat, |k: int| emulated_column(a, p, q, squared, k, rows))
}

/// What a row of an emulated gate adds when composed: `a[i] * a + p[i] * q` for
/// multiplication and `a[i] * (1, 1, ...) + p[i] * q` for reduction.
spec fn row_value(a: Seq<nat>, p: Seq<nat>, q: Seq<nat>, squared: bool, i: int, bl: nat) -> nat {
    let ones = Seq::new(a.len(), |j: int| 1nat);
    (if squared { a[i] * compose(a, bl) } else { a[i] * compose(ones, bl) }) + p[i] * compose(q, bl)
}

proof fn lemma_columns_upto(a: Seq<nat>, p: Seq<nat>, q: Seq<nat>, squared: bool, rows: nat, bl: nat)
    requires
        a.len() >= 1,
        p.len() == a.len(),
        q.len() == a.len(),
        rows <= a.len(),
    ensures
        compose(columns_upto(a, p, q, squared, rows as int), bl) == (if squared {
            compose(a.take(rows as int), bl) * compose(a, bl)
        } else {
            compose(a.take(rows as int), bl) * compose(Seq::new(a.len(), |j: int| 1nat), bl)
        }) + compose(p.take(rows as int), bl) * compose(q, bl),
    decreases rows,
{
    let len = (2 * a.len() - 1) as nat;
    let ones = Seq::new(a.len(), |j: int| 1nat);
    let b = if squared { a } else { ones };
    if rows == 0 {
        let c = columns_upto(a, p, q, squared, 0);
        assert(c =~= Seq::new(len, |k: int| if k < 0 { 0nat } else { 0nat }));
        lemma_compose_pad(Seq::<nat>::empty(), len, bl);
        assert(Seq::new(len, |k: int| if k < Seq::<nat>::empty().len() { Seq::<nat>::empty()[k] } else { 0nat }) =~= c);
        assert(a.take(0) =~= Seq::<nat>::empty());
        assert(p.take(0) =~= Seq::<nat>::empty());
        assert(0 * compose(b, bl) == 0) by (nonlinear_arith);
        assert(0 * compose(q, bl) == 0) by (nonlinear_arith);
    } else {
        let i = (rows - 1) as nat;
        lemma_columns_upto(a, p, q, squared, i, bl);
        let prev = columns_upto(a, p, q, squared, i as int);
        let g = Seq::new(a.len(), |j: int| emulated_term(a, p, q, squared, i as int, j));
        let row = Seq::new(len, |k: int| if i <= k < i + g.len() { g[k - i] } else { 0nat });
        let cur = columns_upto(a, p, q, squared, rows as int);
        assert(cur =~= Seq::new(prev.len(), |k: int| prev[k] + row[k]));
        lemma_compose_add(prev, row, bl);
        lemma_compose_placed(g, i, len, bl);
        // the row composes to `a[i] * b + p[i] * q`
        let ga = Seq::new(a.len(), |j: int| b[j] * a[i as int]);
        let gp = Seq::new(a.len(), |j: int| q[j] * p[i as int]);
        lemma_compose_scale(b, ga, a[i as int], bl);
        lemma_compose_scale(q, gp, p[i as int], bl);
        assert forall|j: int| 0 <= j < g.len() implies #[trigger] g[j] == ga[j] + gp[j] by {
            vstd::arithmetic::mul::lemma_mul_is_commutative(b[j] as int, a[i as int] as int);
            vstd::arithmetic::mul::lemma_mul_is_commutative(q[j] as int, p[i as int] as int);
            if !squared {
                assert(b[j] == 1);
            }
        }
        assert(g =~= Seq::new(ga.len(), |j: int| ga[j] + gp[j]));
        lemma_compose_add(ga, gp, bl);
        // the prefixes of `a` and `p` grow by the new row's limb
        assert(a.take(rows as int) =~= a.take(i as int).push(a[i as int]));
        assert(p.take(rows as int) =~= p.take(i as int).push(p[i as int]));
        lemma_compose_push(a.take(i as int), a[i as int], bl);
        lemma_compose_push(p.take(i as int), p[i as int], bl);
        let x = pow2(bl * i) as int;
        let ca = compose(a.take(i as int), bl) as int;
        let cp = compose(p.take(i as int), bl) as int;
        let cb = compose(b, bl) as int;
        let cq = compose(q, bl) as int;
        let ai = a[i as int] as int;
        let pi = p[i as int] as int;
        assert((ca + ai * x) * cb == ca * cb + (ai * x) * cb) by (nonlinear_arith);
        assert((ai * x) * cb == x * (cb * ai)) by (nonlinear_arith);
        assert((cp + pi * x) * cq == cp * cq + (pi * x) * cq) by (nonlinear_arith);
        assert((pi * x) * cq == x * (cq * pi)) by (nonlinear_arith);
        assert(x * (cb * ai) + x * (cq * pi) == x * (cb * ai + cq * pi)) by (nonlinear_arith);
    }
}

/// Law: the columns of an emulated gate are those of a product. Composed, the
/// multiplication columns are `a * a + p * q`, and the reduction columns, which
/// add `a[i]` once for every limb of `q`, are `a * (1, 1, ...) + p * q`.
pub proof fn law_emulated_columns(a: Seq<nat>, p: Seq<nat>, q: Seq<nat>, bl: nat)
    requires
        a.len() >= 1,
        p.len() == a.len(),
        q.len() == a.len(),
    ensures
        compose(Seq::new((2 * a.len() - 1) as nat, |k: int| emulated_column(a, p, q, true, k, a.len() as int)), bl)
            == compose(a, bl) * compose(a, bl) + compose(p, bl) * compose(q, bl),
        compose(Seq::new((2 * a.len() - 1) as nat, |k: int| emulated_column(a, p, q, false, k, a.len() as int)), bl)
            == compose(a, bl) * compose(Seq::new(a.len(), |j: int| 1nat), bl) + compose(p, bl) * compose(q, bl),
{
    lemma_columns_upto(a, p, q, true, a.len(), bl);
    lemma_columns_upto(a, p, q, false, a.len(), bl);
    assert(a.take(a.len() as int) =~= a);
    assert(p.take(p.len() as int) =~= p);
}

} // verus!
