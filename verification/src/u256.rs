use vstd::prelude::*;
use vstd::arithmetic::div_mod::{lemma_fundamental_div_mod, lemma_fundamental_div_mod_converse};
use vstd::arithmetic::mul::{lemma_mul_is_associative, lemma_mul_is_distributive_add_other_way};

verus! {

/// 2^64, the base of one limb.
pub open spec fn limb_base() -> int {
    0x1_0000_0000_0000_0000int
}

/// 2^256, one more than the largest value a `U256` holds.
pub open spec fn u256_modulus() -> int {
    0x1_0000_0000_0000_0000_0000_0000_0000_0000_0000_0000_0000_0000_0000_0000_0000_0000int
}

/// An unsigned 256-bit integer stored as four 64-bit limbs, least significant first.
#[derive(Clone, Copy, Debug, PartialEq, Eq, Structural)]
pub struct U256 {
    pub l0: u64,
    pub l1: u64,
    pub l2: u64,
    pub l3: u64,
}

/// The number that four limbs stand for.
pub open spec fn limbs_value(l0: int, l1: int, l2: int, l3: int) -> int {
    l0 + limb_base() * l1 + 0x1_0000_0000_0000_0000_0000_0000_0000_0000int * l2
        + 0x1_0000_0000_0000_0000_0000_0000_0000_0000_0000_0000_0000_0000int * l3
}

/// The big-endian bytes of a 64-bit word.
pub open spec fn u64_be_bytes(x: u64) -> Seq<u8> {
    seq![
        (x >> 56u64) as u8,
        (x >> 48u64) as u8,
        (x >> 40u64) as u8,
        (x >> 32u64) as u8,
        (x >> 24u64) as u8,
        (x >> 16u64) as u8,
        (x >> 8u64) as u8,
        x as u8,
    ]
}

/// Whether a byte is an ASCII hexadecimal digit.
pub open spec fn is_hex_digit(c: u8) -> bool {
    (48 <= c <= 57) || (97 <= c <= 102) || (65 <= c <= 70)
}

/// The value of an ASCII hexadecimal digit.
pub open spec fn hex_digit_value(c: u8) -> int {
    if 48 <= c <= 57 {
        c - 48
    } else if 97 <= c <= 102 {
        c - 87
    } else {
        c - 55
    }
}

/// An ASCII lowercase hexadecimal digit: `0`-`9` or `a`-`f`.
pub open spec fn is_lower_hex_digit(c: u8) -> bool {
    (48 <= c <= 57) || (97 <= c <= 102)
}

/// The number that a string of hexadecimal digits spells, most significant digit first.
pub open spec fn hex_value(s: Seq<u8>) -> int
    decreases s.len(),
{
    if s.len() == 0 {
        0
    } else {
        hex_value(s.drop_last()) * 16 + hex_digit_value(s.last())
    }
}

/// 16 to the power `n`.
pub open spec fn pow16(n: nat) -> int
    decreases n,
{
    if n == 0 {
        1
    } else {
        16 * pow16((n - 1) as nat)
    }
}

impl U256 {
    /// The number this value stands for.
    pub open spec fn value(self) -> int {
        limbs_value(self.l0 as int, self.l1 as int, self.l2 as int, self.l3 as int)
    }

    /// The value whose number is `n` (taken modulo 2^256).
    pub open spec fn from_value(n: int) -> U256 {
        U256 {
            l0: (n % limb_base()) as u64,
            l1: ((n / limb_base()) % limb_base()) as u64,
            l2: ((n / limb_base() / limb_base()) % limb_base()) as u64,
            l3: ((n / limb_base() / limb_base() / limb_base()) % limb_base()) as u64,
        }
    }

    /// The 32 big-endian bytes of this value.
    pub open spec fn be_bytes(self) -> Seq<u8> {
        u64_be_bytes(self.l3) + u64_be_bytes(self.l2) + u64_be_bytes(self.l1) + u64_be_bytes(
            self.l0,
        )
    }

    pub fn zero() -> (r: U256)
        ensures
            r.value() == 0,
    {
        U256 { l0: 0, l1: 0, l2: 0, l3: 0 }
    }

    pub fn from_u64(x: u64) -> (r: U256)
        ensures
            r.value() == x,
    {
        U256 { l0: x, l1: 0, l2: 0, l3: 0 }
    }

    /// `self <= other` as numbers.
    pub fn le(&self, other: &U256) -> (b: bool)
        ensures
            b == (self.value() <= other.value()),
    {
        proof {
            lemma_value_lex(*self, *other);
        }
        if self.l3 != other.l3 {
            self.l3 < other.l3
        } else if self.l2 != other.l2 {
            self.l2 < other.l2
        } else if self.l1 != other.l1 {
            self.l1 < other.l1
        } else {
            self.l0 <= other.l0
        }
    }

    /// `self < other` as numbers.
    pub fn lt(&self, other: &U256) -> (b: bool)
        ensures
            b == (self.value() < other.value()),
    {
        !other.le(self)
    }

    /// Equality of the two values.
    pub fn same(&self, other: &U256) -> (b: bool)
        ensures
            b == (*self == *other),
            b == (self.value() == other.value()),
    {
        proof {
            lemma_value_injective(*self, *other);
        }
        *self == *other
    }

    /// The smaller of the two values (`self` when they are equal).
    pub fn min(self, other: U256) -> (r: U256)
        ensures
            r.value() == if self.value() <= other.value() { self.value() } else { other.value() },
            r == (if self.value() <= other.value() { self } else { other }),
    {
        if self.le(&other) {
            self
        } else {
            other
        }
    }

    /// `self` restricted to the range `[lo, hi]`.
    pub fn clamp(self, lo: U256, hi: U256) -> (r: U256)
        requires
            lo.value() <= hi.value(),
        ensures
            r == (if self.value() < lo.value() {
                lo
            } else if self.value() > hi.value() {
                hi
            } else {
                self
            }),
    {
        if self.lt(&lo) {
            lo
        } else if hi.lt(&self) {
            hi
        } else {
            self
        }
    }

    /// The product of this value and a 64-bit word, if it fits in 256 bits.
    pub fn checked_mul_u64(&self, k: u64) -> (r: Option<U256>)
        ensures
            r is Some <==> self.value() * k < u256_modulus(),
            r matches Some(v) ==> v.value() == self.value() * k,
    {
        let b: u128 = 0x1_0000_0000_0000_0000;
        let kk = k as u128;
        proof {
            lemma_limb_product_bound(self.l0, k, 0);
        }
        let p0: u128 = (self.l0 as u128) * kk;
        let r0 = (p0 % b) as u64;
        let c0 = p0 / b;
        proof {
            lemma_limb_product_bound(self.l1, k, c0);
        }
        let p1: u128 = (self.l1 as u128) * kk + c0;
        let r1 = (p1 % b) as u64;
        let c1 = p1 / b;
        proof {
            lemma_limb_product_bound(self.l2, k, c1);
        }
        let p2: u128 = (self.l2 as u128) * kk + c1;
        let r2 = (p2 % b) as u64;
        let c2 = p2 / b;
        proof {
            lemma_limb_product_bound(self.l3, k, c2);
        }
        let p3: u128 = (self.l3 as u128) * kk + c2;
        let r3 = (p3 % b) as u64;
        let c3 = p3 / b;
        let r = U256 { l0: r0, l1: r1, l2: r2, l3: r3 };
        proof {
            let bb = limb_base();
            assert(p0 == r0 + bb * c0);
            assert(p1 == r1 + bb * c1);
            assert(p2 == r2 + bb * c2);
            assert(p3 == r3 + bb * c3);
            lemma_mul_chain(
                self.l0 as int,
                self.l1 as int,
                self.l2 as int,
                self.l3 as int,
                k as int,
                r0 as int,
                r1 as int,
                r2 as int,
                r3 as int,
                c0 as int,
                c1 as int,
                c2 as int,
                c3 as int,
            );
            lemma_value_bounds(r);
            assert(u256_modulus() * c3 >= 0) by (nonlinear_arith)
                requires c3 >= 0;
            if c3 > 0 {
                assert(u256_modulus() * c3 >= u256_modulus()) by (nonlinear_arith)
                    requires c3 >= 1;
            }
        }
        if c3 == 0 {
            Some(r)
        } else {
            None
        }
    }

    /// The product of this value and a 64-bit word; the product must fit in 256 bits.
    pub fn mul_u64(&self, k: u64) -> (r: U256)
        requires
            self.value() * k < u256_modulus(),
        ensures
            r.value() == self.value() * k,
    {
        match self.checked_mul_u64(k) {
            Some(v) => v,
            None => {
                proof {
                    assert(false);
                }
                U256::zero()
            },
        }
    }

    /// The quotient of this value by a nonzero 64-bit word, rounded down.
    pub fn div_u64(&self, d: u64) -> (r: U256)
        requires
            d > 0,
        ensures
            r.value() == self.value() / (d as int),
    {
        self.div_rem_u64(d).0
    }

    /// The quotient of this value by a nonzero 64-bit word, rounded down, and the remainder.
    pub fn div_rem_u64(&self, d: u64) -> (r: (U256, u64))
        requires
            d > 0,
        ensures
            r.0.value() == self.value() / (d as int),
            r.1 == self.value() % (d as int),
    {
        let b: u128 = 0x1_0000_0000_0000_0000;
        let dd = d as u128;
        let q3 = self.l3 / d;
        let m3 = (self.l3 % d) as u128;
        proof {
            lemma_div_parts(self.l3 as int, d as int, q3 as int, m3 as int);
            lemma_div_step_bound(m3 as int, self.l2 as int, d as int);
        }
        let t2: u128 = m3 * b + self.l2 as u128;
        assert(t2 / dd < 0x1_0000_0000_0000_0000);
        let q2 = (t2 / dd) as u64;
        let m2 = t2 % dd;
        proof {
            lemma_div_parts(t2 as int, d as int, q2 as int, m2 as int);
            lemma_div_step_bound(m2 as int, self.l1 as int, d as int);
        }
        let t1: u128 = m2 * b + self.l1 as u128;
        assert(t1 / dd < 0x1_0000_0000_0000_0000);
        let q1 = (t1 / dd) as u64;
        let m1 = t1 % dd;
        proof {
            lemma_div_parts(t1 as int, d as int, q1 as int, m1 as int);
            lemma_div_step_bound(m1 as int, self.l0 as int, d as int);
        }
        let t0: u128 = m1 * b + self.l0 as u128;
        assert(t0 / dd < 0x1_0000_0000_0000_0000);
        let q0 = (t0 / dd) as u64;
        let m0 = t0 % dd;
        proof {
            lemma_div_parts(t0 as int, d as int, q0 as int, m0 as int);
        }
        let r = U256 { l0: q0, l1: q1, l2: q2, l3: q3 };
        proof {
            let di = d as int;
            lemma_div_chain(
                self.l0 as int,
                self.l1 as int,
                self.l2 as int,
                self.l3 as int,
                di,
                q0 as int,
                q1 as int,
                q2 as int,
                q3 as int,
                m0 as int,
                m1 as int,
                m2 as int,
                m3 as int,
            );
            lemma_fundamental_div_mod_converse(self.value(), di, r.value(), m0 as int);
        }
        (r, m0 as u64)
    }

    /// The sum of this value and a 64-bit word; the sum must fit in 256 bits.
    pub fn add_u64(&self, x: u64) -> (r: U256)
        requires
            self.value() + x < u256_modulus(),
        ensures
            r.value() == self.value() + x,
    {
        let b: u128 = 0x1_0000_0000_0000_0000;
        let s0: u128 = self.l0 as u128 + x as u128;
        let r0 = (s0 % b) as u64;
        let c0 = s0 / b;
        let s1: u128 = self.l1 as u128 + c0;
        let r1 = (s1 % b) as u64;
        let c1 = s1 / b;
        let s2: u128 = self.l2 as u128 + c1;
        let r2 = (s2 % b) as u64;
        let c2 = s2 / b;
        let s3: u128 = self.l3 as u128 + c2;
        let r3 = (s3 % b) as u64;
        let c3 = s3 / b;
        let r = U256 { l0: r0, l1: r1, l2: r2, l3: r3 };
        proof {
            let bb = limb_base();
            assert(s0 == r0 + bb * c0);
            assert(s1 == r1 + bb * c1);
            assert(s2 == r2 + bb * c2);
            assert(s3 == r3 + bb * c3);
            assert(c0 <= 1 && c1 <= 1 && c2 <= 1 && c3 <= 1);
            assert(self.value() + x == r.value() + u256_modulus() * c3);
            lemma_value_bounds(r);
        }
        r
    }

    /// The 32 big-endian bytes of this value.
    pub fn to_be_bytes(&self) -> (r: [u8; 32])
        ensures
            r@ == self.be_bytes(),
    {
        let a = u64_to_be(self.l3);
        let b = u64_to_be(self.l2);
        let c = u64_to_be(self.l1);
        let d = u64_to_be(self.l0);
        let r = [
            a[0], a[1], a[2], a[3], a[4], a[5], a[6], a[7],
            b[0], b[1], b[2], b[3], b[4], b[5], b[6], b[7],
            c[0], c[1], c[2], c[3], c[4], c[5], c[6], c[7],
            d[0], d[1], d[2], d[3], d[4], d[5], d[6], d[7],
        ];
        assert(r@ =~= self.be_bytes());
        r
    }

    /// The number as 64 lowercase hexadecimal digits, most significant first, with
    /// leading zeros.
    pub fn to_hex64(&self) -> (r: Vec<u8>)
        ensures
            r@.len() == 64,
            forall|i: int| 0 <= i < 64 ==> is_lower_hex_digit(#[trigger] r@[i]),
            hex_value(r@) == self.value(),
    {
        let mut out = hex16(self.l3);
        let ghost s0 = out@;
        let mut d2 = hex16(self.l2);
        let ghost s1 = d2@;
        out.append(&mut d2);
        let mut d1 = hex16(self.l1);
        let ghost s2 = d1@;
        out.append(&mut d1);
        let mut d0 = hex16(self.l0);
        let ghost s3 = d0@;
        out.append(&mut d0);
        proof {
            assert(out@ =~= s0 + s1 + s2 + s3);
            lemma_pow16_16();
            lemma_hex_value_concat(s0, s1);
            lemma_hex_value_concat(s0 + s1, s2);
            lemma_hex_value_concat(s0 + s1 + s2, s3);
            assert forall|i: int| 0 <= i < 64 implies is_lower_hex_digit(#[trigger] out@[i]) by {
                if i < 16 {
                    assert(out@[i] == s0[i]);
                } else if i < 32 {
                    assert(out@[i] == s1[i - 16]);
                } else if i < 48 {
                    assert(out@[i] == s2[i - 32]);
                } else {
                    assert(out@[i] == s3[i - 48]);
                }
            }
        }
        out
    }


    /// Parses exactly 64 hexadecimal digits, most significant first.
    pub fn from_hex64(digits: &[u8]) -> (r: U256)
        requires
            digits@.len() == 64,
            forall|i: int| 0 <= i < 64 ==> is_hex_digit(#[trigger] digits@[i]),
        ensures
            r.value() == hex_value(digits@),
    {
        let h3 = hex_chunk(digits, 0);
        let h2 = hex_chunk(digits, 16);
        let h1 = hex_chunk(digits, 32);
        let h0 = hex_chunk(digits, 48);
        proof {
            let s = digits@;
            let s0 = s.subrange(0, 16);
            let s1 = s.subrange(16, 32);
            let s2 = s.subrange(32, 48);
            let s3 = s.subrange(48, 64);
            assert(s.subrange(0, 32) =~= s0 + s1);
            assert(s.subrange(0, 48) =~= s.subrange(0, 32) + s2);
            assert(s =~= s.subrange(0, 48) + s3);
            lemma_pow16_16();
            lemma_hex_value_concat(s0, s1);
            lemma_hex_value_concat(s.subrange(0, 32), s2);
            lemma_hex_value_concat(s.subrange(0, 48), s3);
            assert(hex_value(s.subrange(0, 32)) == hex_value(s0) * limb_base() + hex_value(s1));
            assert(hex_value(s.subrange(0, 48)) == hex_value(s.subrange(0, 32)) * limb_base()
                + hex_value(s2));
            assert(hex_value(s) == hex_value(s.subrange(0, 48)) * limb_base() + hex_value(s3));
        }
        U256 { l0: h0, l1: h1, l2: h2, l3: h3 }
    }
}

/// Big-endian bytes of a 64-bit word.
pub fn u64_to_be(x: u64) -> (r: [u8; 8])
    ensures
        r@ == u64_be_bytes(x),
{
    let r = [
        (x >> 56u64) as u8,
        (x >> 48u64) as u8,
        (x >> 40u64) as u8,
        (x >> 32u64) as u8,
        (x >> 24u64) as u8,
        (x >> 16u64) as u8,
        (x >> 8u64) as u8,
        x as u8,
    ];
    assert(r@ =~= u64_be_bytes(x));
    r
}

/// The value of one hexadecimal digit.
pub fn hex_digit(c: u8) -> (r: u8)
    requires
        is_hex_digit(c),
    ensures
        r as int == hex_digit_value(c),
        r < 16,
{
    if 48 <= c && c <= 57 {
        c - 48
    } else if 97 <= c && c <= 102 {
        c - 87
    } else {
        c - 55
    }
}

/// The 16 lowercase hexadecimal digits of a 64-bit word, most significant first, with
/// leading zeros.
fn hex16(x: u64) -> (r: Vec<u8>)
    ensures
        r@.len() == 16,
        forall|i: int| 0 <= i < 16 ==> is_lower_hex_digit(#[trigger] r@[i]),
        hex_value(r@) == x,
{
    let mut out: Vec<u8> = Vec::new();
    let mut p: u64 = 0x1000_0000_0000_0000;
    let mut k: usize = 0;
    proof {
        lemma_pow16_16();
        lemma_pow16_le_16(15);
        assert(out@ =~= Seq::<u8>::empty());
        assert(x as int / pow16(16) == 0);
    }
    while k < 16
        invariant
            k <= 16,
            out@.len() == k,
            forall|i: int| 0 <= i < k ==> is_lower_hex_digit(#[trigger] out@[i]),
            k < 16 ==> p as int == pow16((15 - k) as nat),
            p > 0,
            hex_value(out@) == x as int / pow16((16 - k) as nat),
        decreases 16 - k,
    {
        let v = (x / p) % 16;
        let c: u8 = if v < 10 { 48 + v as u8 } else { 87 + v as u8 };
        let ghost before = out@;
        out.push(c);
        proof {
            let q = pow16((15 - k) as nat);
            lemma_pow16_positive((15 - k) as nat);
            assert(pow16((16 - k) as nat) == 16 * q);
            vstd::arithmetic::div_mod::lemma_div_denominator(x as int, q, 16);
            assert(x as int / (q * 16) == (x as int / q) / 16);
            let a = x as int / q;
            vstd::arithmetic::div_mod::lemma_fundamental_div_mod(a, 16);
            assert(out@.drop_last() =~= before);
            assert(hex_digit_value(c) == v);
            assert(hex_value(out@) == hex_value(before) * 16 + v);
            assert(hex_value(out@) == a);
            if k < 15 {
                lemma_pow16_le_16((14 - k) as nat);
                lemma_pow16_positive((14 - k) as nat);
            }
        }
        if k < 15 {
            p = p / 16;
        }
        k = k + 1;
    }
    assert(x as int / pow16(0) == x);
    out
}

/// The value of the 16 hexadecimal digits starting at `start`.
fn hex_chunk(digits: &[u8], start: usize) -> (r: u64)
    requires
        start + 16 <= digits.len(),
        forall|i: int| 0 <= i < digits@.len() ==> is_hex_digit(#[trigger] digits@[i]),
    ensures
        r as int == hex_value(digits@.subrange(start as int, start + 16)),
{
    let mut acc: u64 = 0;
    let mut i: usize = 0;
    proof {
        assert(digits@.subrange(start as int, start as int) =~= Seq::<u8>::empty());
    }
    while i < 16
        invariant
            i <= 16,
            start + 16 <= digits.len(),
            forall|j: int| 0 <= j < digits@.len() ==> is_hex_digit(#[trigger] digits@[j]),
            acc as int == hex_value(digits@.subrange(start as int, start + i)),
            (acc as int) < pow16(i as nat),
        decreases 16 - i,
    {
        let d = hex_digit(digits[start + i]);
        proof {
            let s = digits@.subrange(start as int, start + i + 1);
            assert(s.drop_last() =~= digits@.subrange(start as int, start + i));
            assert(s.last() == digits@[start + i]);
            lemma_pow16_le_16(i as nat);
            assert(acc * 16 + d < pow16((i + 1) as nat)) by (nonlinear_arith)
                requires
                    (acc as int) < pow16(i as nat),
                    d < 16,
                    pow16((i + 1) as nat) == 16 * pow16(i as nat),
            ;
        }
        acc = acc * 16 + d as u64;
        i = i + 1;
    }
    acc
}

/// The limb view orders values lexicographically from the most significant limb.
pub proof fn lemma_value_lex(a: U256, b: U256)
    ensures
        a.l3 < b.l3 ==> a.value() < b.value(),
        a.l3 == b.l3 && a.l2 < b.l2 ==> a.value() < b.value(),
        a.l3 == b.l3 && a.l2 == b.l2 && a.l1 < b.l1 ==> a.value() < b.value(),
        a.l3 == b.l3 && a.l2 == b.l2 && a.l1 == b.l1 ==> (a.value() <= b.value() <==> a.l0
            <= b.l0),
{
}

/// Every value lies in `[0, 2^256)`.
pub proof fn lemma_value_bounds(a: U256)
    ensures
        0 <= a.value() < u256_modulus(),
{
}

/// The limbs of a value are its base-2^64 digits.
pub proof fn lemma_value_limbs(a: U256)
    ensures
        a.l0 == a.value() % limb_base(),
        a.l1 == (a.value() / limb_base()) % limb_base(),
        a.l2 == (a.value() / limb_base() / limb_base()) % limb_base(),
        a.l3 == (a.value() / limb_base() / limb_base() / limb_base()) % limb_base(),
{
    let bb = limb_base();
    let v1 = a.l1 + bb * a.l2 + 0x1_0000_0000_0000_0000_0000_0000_0000_0000int * a.l3;
    let v2 = a.l2 + bb * a.l3;
    lemma_fundamental_div_mod_converse(a.value(), bb, v1, a.l0 as int);
    lemma_fundamental_div_mod_converse(v1, bb, v2, a.l1 as int);
    lemma_fundamental_div_mod_converse(v2, bb, a.l3 as int, a.l2 as int);
    lemma_fundamental_div_mod_converse(a.l3 as int, bb, 0, a.l3 as int);
}

/// Two values with the same number are the same value.
pub proof fn lemma_value_injective(a: U256, b: U256)
    ensures
        (a.value() == b.value()) == (a == b),
{
    lemma_value_limbs(a);
    lemma_value_limbs(b);
}

/// `from_value` gives back a value from its number.
pub proof fn lemma_from_value_of_value(a: U256)
    ensures
        U256::from_value(a.value()) == a,
{
    lemma_value_limbs(a);
}

proof fn lemma_div_parts(t: int, d: int, q: int, m: int)
    requires
        d > 0,
        q == t / d,
        m == t % d,
    ensures
        t == q * d + m,
        0 <= m < d,
{
    lemma_fundamental_div_mod(t, d);
}

proof fn lemma_limb_product_bound(l: u64, k: u64, c: u128)
    requires
        c < limb_base(),
    ensures
        (l as int) * (k as int) + c < limb_base() * limb_base(),
        (l as int) * (k as int) + c <= u128::MAX,
{
    let bb = limb_base();
    assert((l as int) * (k as int) <= (bb - 1) * (bb - 1)) by (nonlinear_arith)
        requires
            0 <= l < bb,
            0 <= k < bb,
    ;
}

/// Multiplying a sum of weighted limbs distributes over the limbs.
proof fn lemma_distribute(l0: int, l1: int, l2: int, l3: int, k: int)
    ensures
        limbs_value(l0, l1, l2, l3) * k == limbs_value(l0 * k, l1 * k, l2 * k, l3 * k),
{
    let b1 = limb_base();
    let b2 = 0x1_0000_0000_0000_0000_0000_0000_0000_0000int;
    let b3 = 0x1_0000_0000_0000_0000_0000_0000_0000_0000_0000_0000_0000_0000int;
    lemma_mul_is_distributive_add_other_way(k, l0 + b1 * l1 + b2 * l2, b3 * l3);
    lemma_mul_is_distributive_add_other_way(k, l0 + b1 * l1, b2 * l2);
    lemma_mul_is_distributive_add_other_way(k, l0, b1 * l1);
    lemma_mul_is_associative(b1, l1, k);
    lemma_mul_is_associative(b2, l2, k);
    lemma_mul_is_associative(b3, l3, k);
}

proof fn lemma_mul_chain(
    l0: int,
    l1: int,
    l2: int,
    l3: int,
    k: int,
    r0: int,
    r1: int,
    r2: int,
    r3: int,
    c0: int,
    c1: int,
    c2: int,
    c3: int,
)
    requires
        l0 * k == r0 + limb_base() * c0,
        l1 * k + c0 == r1 + limb_base() * c1,
        l2 * k + c1 == r2 + limb_base() * c2,
        l3 * k + c2 == r3 + limb_base() * c3,
    ensures
        limbs_value(l0, l1, l2, l3) * k == limbs_value(r0, r1, r2, r3) + u256_modulus() * c3,
{
    lemma_distribute(l0, l1, l2, l3, k);
}

proof fn lemma_div_step_bound(m: int, l: int, d: int)
    requires
        0 <= m < d,
        0 <= l < limb_base(),
        d < limb_base(),
    ensures
        m * limb_base() + l <= u128::MAX,
        m * limb_base() + l < d * limb_base(),
        (m * limb_base() + l) / d < limb_base(),
{
    let bb = limb_base();
    assert(m * bb + l < d * bb) by (nonlinear_arith)
        requires
            0 <= m < d,
            0 <= l < bb,
    ;
    assert((m * bb + l) / d < bb) by (nonlinear_arith)
        requires
            0 <= m * bb + l < d * bb,
            d > 0,
    ;
}

proof fn lemma_div_chain(
    l0: int,
    l1: int,
    l2: int,
    l3: int,
    d: int,
    q0: int,
    q1: int,
    q2: int,
    q3: int,
    m0: int,
    m1: int,
    m2: int,
    m3: int,
)
    requires
        l3 == q3 * d + m3,
        m3 * limb_base() + l2 == q2 * d + m2,
        m2 * limb_base() + l1 == q1 * d + m1,
        m1 * limb_base() + l0 == q0 * d + m0,
    ensures
        limbs_value(l0, l1, l2, l3) == limbs_value(q0, q1, q2, q3) * d + m0,
{
    lemma_distribute(q0, q1, q2, q3, d);
}

/// 16^16 = 2^64.
pub proof fn lemma_pow16_16()
    ensures
        pow16(16) == limb_base(),
{
    reveal_with_fuel(pow16, 17);
}

proof fn lemma_pow16_le_16(i: nat)
    requires
        i < 16,
    ensures
        pow16((i + 1) as nat) <= limb_base(),
        pow16((i + 1) as nat) == 16 * pow16(i as nat),
    decreases 16 - i,
{
    if i < 15 {
        lemma_pow16_le_16(i + 1);
        assert(pow16((i + 1) as nat) > 0) by {
            lemma_pow16_positive((i + 1) as nat);
        }
    } else {
        lemma_pow16_16();
    }
}

proof fn lemma_pow16_positive(n: nat)
    ensures
        pow16(n) > 0,
    decreases n,
{
    if n > 0 {
        lemma_pow16_positive((n - 1) as nat);
    }
}

/// Digits written after others shift the earlier ones up by one place each.
pub proof fn lemma_hex_value_concat(a: Seq<u8>, b: Seq<u8>)
    ensures
        hex_value(a + b) == hex_value(a) * pow16(b.len()) + hex_value(b),
    decreases b.len(),
{
    if b.len() == 0 {
        assert(a + b =~= a);
    } else {
        let bl = b.drop_last();
        assert((a + b).drop_last() =~= a + bl);
        assert((a + b).last() == b.last());
        lemma_hex_value_concat(a, bl);
        let x = hex_value(a);
        let p = pow16(bl.len());
        assert((x * p + hex_value(bl)) * 16 + hex_digit_value(b.last()) == x * (16 * p) + (
        hex_value(bl) * 16 + hex_digit_value(b.last()))) by (nonlinear_arith);
    }
}

} // verus!
