//! Arbitrary precision natural numbers, held as base 2^32 digits and computed on
//! with `num_bigint`.
use num_bigint::BigUint;
use num_integer::Integer as _;
use num_traits::Num;
use vstd::arithmetic::power::pow;
use vstd::arithmetic::power2::pow2;
use vstd::prelude::*;

verus! {

/// The value of little endian base 2^32 digits.
pub open spec fn digits_value(d: Seq<u32>) -> nat
    decreases d.len(),
{
    if d.len() == 0 {
        0
    } else {
        d[0] as nat + 0x1_0000_0000 * digits_value(d.drop_first())
    }
}

/// The value of little endian bytes.
pub open spec fn bytes_value(b: Seq<u8>) -> nat
    decreases b.len(),
{
    if b.len() == 0 {
        0
    } else {
        b[0] as nat + 256 * bytes_value(b.drop_first())
    }
}

/// The number of bits needed to write `x` (zero for zero).
pub open spec fn bit_length(x: nat) -> nat
    decreases x,
{
    if x == 0 {
        0
    } else {
        1 + bit_length(x / 2)
    }
}

/// The value of the hexadecimal digit `c`, if it is one.
pub open spec fn hex_digit_value(c: char) -> Option<nat> {
    let x = c as int;
    if '0' as int <= x <= '9' as int {
        Some((x - '0' as int) as nat)
    } else if 'a' as int <= x <= 'f' as int {
        Some((x - 'a' as int + 10) as nat)
    } else if 'A' as int <= x <= 'F' as int {
        Some((x - 'A' as int + 10) as nat)
    } else {
        None
    }
}

/// The value of hexadecimal digits, most significant first, skipping any other
/// character.
pub open spec fn hex_value(s: Seq<char>) -> nat
    decreases s.len(),
{
    if s.len() == 0 {
        0
    } else {
        match hex_digit_value(s.last()) {
            Some(d) => hex_value(s.drop_last()) * 16 + d,
            None => hex_value(s.drop_last()),
        }
    }
}

/// `s` without its leading `+` when it has exactly one.
pub open spec fn strip_plus(s: Seq<char>) -> Seq<char> {
    if s.len() > 0 && s[0] == '+' && !(s.len() > 1 && s[1] == '+') {
        s.drop_first()
    } else {
        s
    }
}

/// The number that `s` writes in base 16: after at most one `+`, a nonempty run
/// of hexadecimal digits and underscores that starts with a digit; underscores
/// are skipped.
pub open spec fn parse_hex(s: Seq<char>) -> Option<nat> {
    let t = strip_plus(s);
    if t.len() == 0 || t[0] == '_' || exists|i: int| 0 <= i < t.len() && t[i] != '_' && #[trigger] hex_digit_value(t[i]) is None {
        None
    } else {
        Some(hex_value(t))
    }
}

/// An arbitrary precision natural number.
#[derive(Clone, Debug)]
pub struct BigNat {
    digits: Vec<u32>,
}

impl View for BigNat {
    type V = nat;

    closed spec fn view(&self) -> nat {
        digits_value(self.digits@)
    }
}

impl BigNat {
    /// Builds a number from its little endian base 2^32 digits.
    pub fn from_u32_digits(digits: Vec<u32>) -> (r: BigNat)
        ensures
            r@ == digits_value(digits@),
    {
        BigNat { digits }
    }

    /// The little endian base 2^32 digits this number is held in.
    pub fn to_u32_digits(&self) -> (r: Vec<u32>)
        ensures
            digits_value(r@) == self@,
    {
        let r = self.digits.clone();
        assert(r@ =~= self.digits@);
        r
    }

    /// A copy of this number.
    pub fn duplicate(&self) -> (r: BigNat)
        ensures
            r@ == self@,
    {
        BigNat { digits: self.to_u32_digits() }
    }

    /// The number `x`, held in its two base 2^32 digits, without zero digits on top.
    pub(crate) fn from_u64(x: u64) -> (r: BigNat)
        ensures
            r@ == x,
    {
        let lo = (x & 0xffff_ffff) as u32;
        let hi = (x >> 32) as u32;
        assert((x & 0xffff_ffff) + 0x1_0000_0000 * (x >> 32) == x) by (bit_vector);
        assert(x & 0xffff_ffff < 0x1_0000_0000) by (bit_vector);
        assert(x >> 32 < 0x1_0000_0000) by (bit_vector);
        let digits: Vec<u32> = if hi != 0 {
            vec![lo, hi]
        } else if lo != 0 {
            vec![lo]
        } else {
            Vec::new()
        };
        proof {
            reveal_with_fuel(digits_value, 3);
            assert(digits@.len() <= 2);
            if hi != 0 {
                assert(digits@.drop_first() =~= seq![hi]);
                assert(digits@.drop_first().drop_first() =~= Seq::<u32>::empty());
            } else if lo != 0 {
                assert(digits@.drop_first() =~= Seq::<u32>::empty());
            }
        }
        BigNat { digits }
    }

    /// `BigUint::from_bytes_le`: the number whose little endian bytes are `bytes`.
    #[verifier::external_body]
    pub(crate) fn from_bytes_le(bytes: &[u8]) -> (r: BigNat)
        ensures
            r@ == bytes_value(bytes@),
    {
        BigNat { digits: BigUint::from_bytes_le(bytes).to_u32_digits() }
    }

    /// `<BigUint as Num>::from_str_radix` in base 16: the number that `s` writes,
    /// or `None` when it writes none.
    #[verifier::external_body]
    pub(crate) fn from_str_radix16(s: &str) -> (r: Option<BigNat>)
        ensures
            r is None <==> parse_hex(s@) is None,
            r matches Some(x) ==> parse_hex(s@) == Some(x@),
    {
        match BigUint::from_str_radix(s, 16) {
            Ok(x) => Some(BigNat { digits: x.to_u32_digits() }),
            Err(_) => None,
        }
    }

    /// `&BigUint + &BigUint`: the sum.
    #[verifier::external_body]
    pub(crate) fn add(&self, other: &BigNat) -> (r: BigNat)
        ensures
            r@ == self@ + other@,
    {
        BigNat { digits: (BigUint::new(self.digits.clone()) + BigUint::new(other.digits.clone())).to_u32_digits() }
    }

    /// `&BigUint - &BigUint`, which panics below zero: the difference.
    #[verifier::external_body]
    pub(crate) fn sub(&self, other: &BigNat) -> (r: BigNat)
        requires
            other@ <= self@,
        ensures
            r@ == self@ - other@,
    {
        BigNat { digits: (BigUint::new(self.digits.clone()) - BigUint::new(other.digits.clone())).to_u32_digits() }
    }

    /// `&BigUint * &BigUint`: the product.
    #[verifier::external_body]
    pub(crate) fn mul(&self, other: &BigNat) -> (r: BigNat)
        ensures
            r@ == self@ * other@,
    {
        BigNat { digits: (BigUint::new(self.digits.clone()) * BigUint::new(other.digits.clone())).to_u32_digits() }
    }

    /// `num_integer::Integer::div_rem`, which panics on a zero divisor: quotient and
    /// remainder.
    #[verifier::external_body]
    pub(crate) fn div_rem(&self, other: &BigNat) -> (r: (BigNat, BigNat))
        requires
            other@ > 0,
        ensures
            r.0@ == self@ / other@,
            r.1@ == self@ % other@,
    {
        let (q, m) = BigUint::new(self.digits.clone()).div_rem(&BigUint::new(other.digits.clone()));
        (BigNat { digits: q.to_u32_digits() }, BigNat { digits: m.to_u32_digits() })
    }

    /// `&BigUint << u64`: the number times `2^k`.
    #[verifier::external_body]
    pub(crate) fn shl(&self, k: u64) -> (r: BigNat)
        ensures
            r@ == self@ * pow2(k as nat),
    {
        BigNat { digits: (BigUint::new(self.digits.clone()) << k).to_u32_digits() }
    }

    /// `&BigUint >> u64`: the number divided by `2^k`, rounded down.
    #[verifier::external_body]
    pub(crate) fn shr(&self, k: u64) -> (r: BigNat)
        ensures
            r@ == self@ / pow2(k as nat),
    {
        BigNat { digits: (BigUint::new(self.digits.clone()) >> k).to_u32_digits() }
    }

    /// `BigUint::bits`: the fewest bits that express the number.
    #[verifier::external_body]
    pub(crate) fn bits(&self) -> (r: u64)
        ensures
            r == bit_length(self@),
    {
        BigUint::new(self.digits.clone()).bits()
    }

    /// `BigUint < BigUint`.
    #[verifier::external_body]
    pub(crate) fn less_than(&self, other: &BigNat) -> (r: bool)
        ensures
            r == (self@ < other@),
    {
        BigUint::new(self.digits.clone()) < BigUint::new(other.digits.clone())
    }

    /// `BigUint == BigUint`.
    #[verifier::external_body]
    pub(crate) fn equals(&self, other: &BigNat) -> (r: bool)
        ensures
            r == (self@ == other@),
    {
        BigUint::new(self.digits.clone()) == BigUint::new(other.digits.clone())
    }

    /// `BigUint::modpow`, which panics on a zero modulus: `self^e mod m`.
    #[verifier::external_body]
    pub(crate) fn modpow(&self, e: &BigNat, m: &BigNat) -> (r: BigNat)
        requires
            m@ > 0,
        ensures
            r@ == pow(self@ as int, e@) % (m@ as int),
    {
        let b = BigUint::new(self.digits.clone());
        BigNat { digits: b.modpow(&BigUint::new(e.digits.clone()), &BigUint::new(m.digits.clone())).to_u32_digits() }
    }

    /// `BigUint::modinv`, which panics on a zero modulus: the `x < m` with
    /// `self * x = 1 (mod m)`, and `None` exactly when there is no such `x`.
    #[verifier::external_body]
    pub(crate) fn modinv(&self, m: &BigNat) -> (r: Option<BigNat>)
        requires
            m@ > 0,
        ensures
            r matches Some(x) ==> x@ < m@ && (self@ * x@) % m@ == 1nat % m@,
            r is None ==> forall|x: nat| #![trigger (self@ * x) % m@] (self@ * x) % m@ != 1nat % m@,
    {
        let b = BigUint::new(self.digits.clone());
        match b.modinv(&BigUint::new(m.digits.clone())) {
            Some(x) => Some(BigNat { digits: x.to_u32_digits() }),
            None => None,
        }
    }
}

} // verus!
