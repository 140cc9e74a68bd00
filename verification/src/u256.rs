//! Unsigned 256-bit integers stored as four 64-bit words, least significant first.
use vstd::prelude::*;
use vstd::arithmetic::div_mod::{lemma_fundamental_div_mod, lemma_mod_pos_bound};

verus! {

/// Unsigned 256-bit integer consisting of 4 x 64-bit words (little-endian word order).
#[derive(Clone, Copy, Debug, PartialEq, Eq, Structural)]
pub struct U256 {
    pub w0: u64,
    pub w1: u64,
    pub w2: u64,
    pub w3: u64,
}

/// 2^256, one more than the largest value a `U256` can hold.
pub open spec fn u256_modulus() -> int {
    0x1_0000_0000_0000_0000_0000_0000_0000_0000_0000_0000_0000_0000_0000_0000_0000_0000int
}

/// Value of four little-endian 64-bit words.
pub open spec fn words_value(w0: u64, w1: u64, w2: u64, w3: u64) -> int {
    w0 + w1 * 0x1_0000_0000_0000_0000int + w2 * 0x1_0000_0000_0000_0000_0000_0000_0000_0000int
        + w3 * 0x1_0000_0000_0000_0000_0000_0000_0000_0000_0000_0000_0000_0000int
}

/// Big-endian value of the 8 bytes of `s` starting at `i`.
pub open spec fn be64(s: Seq<u8>, i: int) -> int {
    s[i] * 0x100_0000_0000_0000int + s[i + 1] * 0x1_0000_0000_0000int + s[i + 2]
        * 0x100_0000_0000int + s[i + 3] * 0x1_0000_0000int + s[i + 4] * 0x100_0000int + s[i
        + 5] * 0x1_0000int + s[i + 6] * 0x100int + s[i + 7]
}

/// Little-endian value of the 8 bytes of `s` starting at `i`.
pub open spec fn le64(s: Seq<u8>, i: int) -> int {
    s[i] + s[i + 1] * 0x100int + s[i + 2] * 0x1_0000int + s[i + 3] * 0x100_0000int + s[i + 4]
        * 0x1_0000_0000int + s[i + 5] * 0x100_0000_0000int + s[i + 6] * 0x1_0000_0000_0000int
        + s[i + 7] * 0x100_0000_0000_0000int
}

/// Big-endian value of a 32-byte sequence.
pub open spec fn be256(s: Seq<u8>) -> int {
    words_value(be64(s, 24) as u64, be64(s, 16) as u64, be64(s, 8) as u64, be64(s, 0) as u64)
}

/// Little-endian value of a 32-byte sequence.
pub open spec fn le256(s: Seq<u8>) -> int {
    le64(s, 0) + le64(s, 8) * 0x1_0000_0000_0000_0000int + le64(s, 16)
        * 0x1_0000_0000_0000_0000_0000_0000_0000_0000int + le64(s, 24)
        * 0x1_0000_0000_0000_0000_0000_0000_0000_0000_0000_0000_0000_0000int
}

proof fn lemma_be64_bound(s: Seq<u8>, i: int)
    requires
        0 <= i,
        i + 8 <= s.len(),
    ensures
        0 <= be64(s, i) < 0x1_0000_0000_0000_0000int,
{
}

proof fn lemma_words_value_bound(w0: u64, w1: u64, w2: u64, w3: u64)
    ensures
        0 <= words_value(w0, w1, w2, w3) < u256_modulus(),
{
}

impl U256 {
    /// The number this value stands for.
    pub open spec fn value(self) -> int {
        words_value(self.w0, self.w1, self.w2, self.w3)
    }

    pub proof fn lemma_value_bound(self)
        ensures
            0 <= self.value() < u256_modulus(),
    {
        lemma_words_value_bound(self.w0, self.w1, self.w2, self.w3);
    }

    /// Builds a value from its four words, least significant first.
    pub fn from_words(w0: u64, w1: u64, w2: u64, w3: u64) -> (r: U256)
        ensures
            r.value() == words_value(w0, w1, w2, w3),
            r.w0 == w0 && r.w1 == w1 && r.w2 == w2 && r.w3 == w3,
    {
        U256 { w0: w0, w1: w1, w2: w2, w3: w3 }
    }

    /// Zero.
    pub fn zero() -> (r: U256)
        ensures
            r.value() == 0,
            r == (U256 { w0: 0, w1: 0, w2: 0, w3: 0 }),
    {
        U256 { w0: 0, w1: 0, w2: 0, w3: 0 }
    }

    /// `self <= other` as numbers.
    pub fn le(&self, other: &U256) -> (r: bool)
        ensures
            r == (self.value() <= other.value()),
    {
        let a = *self;
        let b = *other;
        if a.w3 != b.w3 {
            a.w3 < b.w3
        } else if a.w2 != b.w2 {
            a.w2 < b.w2
        } else if a.w1 != b.w1 {
            a.w1 < b.w1
        } else {
            a.w0 <= b.w0
        }
    }

    /// `self < other` as numbers.
    pub fn lt(&self, other: &U256) -> (r: bool)
        ensures
            r == (self.value() < other.value()),
    {
        !other.le(self)
    }

    /// The smaller of two values.
    pub fn min(&self, other: &U256) -> (r: U256)
        ensures
            r.value() == if self.value() <= other.value() {
                self.value()
            } else {
                other.value()
            },
    {
        if self.le(other) {
            *self
        } else {
            *other
        }
    }

    /// Integer division by 4 (rounding down).
    pub fn div4(&self) -> (r: U256)
        ensures
            r.value() == self.value() / 4,
    {
        let a = *self;
        let r0 = a.w0 / 4 + (a.w1 % 4) * 0x4000_0000_0000_0000;
        let r1 = a.w1 / 4 + (a.w2 % 4) * 0x4000_0000_0000_0000;
        let r2 = a.w2 / 4 + (a.w3 % 4) * 0x4000_0000_0000_0000;
        let r3 = a.w3 / 4;
        U256 { w0: r0, w1: r1, w2: r2, w3: r3 }
    }

    /// Multiplication by 4; the product must fit in 256 bits.
    pub fn mul4(&self) -> (r: U256)
        requires
            self.value() * 4 < u256_modulus(),
        ensures
            r.value() == self.value() * 4,
    {
        let a = *self;
        let r0 = (a.w0 % 0x4000_0000_0000_0000) * 4;
        let r1 = (a.w1 % 0x4000_0000_0000_0000) * 4 + a.w0 / 0x4000_0000_0000_0000;
        let r2 = (a.w2 % 0x4000_0000_0000_0000) * 4 + a.w1 / 0x4000_0000_0000_0000;
        let r3 = a.w3 * 4 + a.w2 / 0x4000_0000_0000_0000;
        U256 { w0: r0, w1: r1, w2: r2, w3: r3 }
    }

    /// Division by a small nonzero divisor: quotient and remainder.
    pub fn div_rem_small(&self, d: u64) -> (r: (U256, u64))
        requires
            d > 0,
        ensures
            r.0.value() * d + r.1 == self.value(),
            r.1 < d,
            r.0.value() == self.value() / (d as int),
            r.1 == self.value() % (d as int),
    {
        let a = *self;
        let dd = d as u128;
        let x3 = a.w3 as u128;
        let q3 = x3 / dd;
        let m3 = x3 % dd;
        let x2 = m3 * 0x1_0000_0000_0000_0000 + a.w2 as u128;
        let q2 = x2 / dd;
        let m2 = x2 % dd;
        let x1 = m2 * 0x1_0000_0000_0000_0000 + a.w1 as u128;
        let q1 = x1 / dd;
        let m1 = x1 % dd;
        let x0 = m1 * 0x1_0000_0000_0000_0000 + a.w0 as u128;
        let q0 = x0 / dd;
        let m0 = x0 % dd;
        proof {
            lemma_fundamental_div_mod(x3 as int, d as int);
            lemma_mod_pos_bound(x3 as int, d as int);
            lemma_div_step(m3, a.w2, d);
            lemma_fundamental_div_mod(x2 as int, d as int);
            lemma_mod_pos_bound(x2 as int, d as int);
            lemma_div_step(m2, a.w1, d);
            lemma_fundamental_div_mod(x1 as int, d as int);
            lemma_mod_pos_bound(x1 as int, d as int);
            lemma_div_step(m1, a.w0, d);
            lemma_fundamental_div_mod(x0 as int, d as int);
            lemma_mod_pos_bound(x0 as int, d as int);
        }
        let q = U256 { w0: q0 as u64, w1: q1 as u64, w2: q2 as u64, w3: q3 as u64 };
        proof {
            assert(q.value() * d + m0 == self.value()) by (nonlinear_arith)
                requires
                    x3 == q3 * d + m3,
                    x2 == q2 * d + m2,
                    x1 == q1 * d + m1,
                    x0 == q0 * d + m0,
                    x3 == a.w3,
                    x2 == m3 * 0x1_0000_0000_0000_0000int + a.w2,
                    x1 == m2 * 0x1_0000_0000_0000_0000int + a.w1,
                    x0 == m1 * 0x1_0000_0000_0000_0000int + a.w0,
                    q.w0 == q0,
                    q.w1 == q1,
                    q.w2 == q2,
                    q.w3 == q3,
                    self.value() == words_value(a.w0, a.w1, a.w2, a.w3),
            ;
            lemma_div_unique(self.value(), d as int, q.value(), m0 as int);
        }
        (q, m0 as u64)
    }

    /// Multiplication by a 64-bit factor; `None` when the product does not fit in 256 bits.
    pub fn checked_mul_small(&self, m: u64) -> (r: Option<U256>)
        ensures
            match r {
                Some(p) => p.value() == self.value() * m && self.value() * m < u256_modulus(),
                None => self.value() * m >= u256_modulus(),
            },
    {
        let a = *self;
        let mm = m as u128;
        proof {
            lemma_mul_fits(a.w0, m);
            lemma_mul_fits(a.w1, m);
            lemma_mul_fits(a.w2, m);
            lemma_mul_fits(a.w3, m);
        }
        let p0 = a.w0 as u128 * mm;
        let r0 = p0 % 0x1_0000_0000_0000_0000;
        let c0 = p0 / 0x1_0000_0000_0000_0000;
        let p1 = a.w1 as u128 * mm + c0;
        let r1 = p1 % 0x1_0000_0000_0000_0000;
        let c1 = p1 / 0x1_0000_0000_0000_0000;
        let p2 = a.w2 as u128 * mm + c1;
        let r2 = p2 % 0x1_0000_0000_0000_0000;
        let c2 = p2 / 0x1_0000_0000_0000_0000;
        let p3 = a.w3 as u128 * mm + c2;
        let r3 = p3 % 0x1_0000_0000_0000_0000;
        let c3 = p3 / 0x1_0000_0000_0000_0000;
        proof {
            lemma_fundamental_div_mod(p0 as int, 0x1_0000_0000_0000_0000int);
            lemma_fundamental_div_mod(p1 as int, 0x1_0000_0000_0000_0000int);
            lemma_fundamental_div_mod(p2 as int, 0x1_0000_0000_0000_0000int);
            lemma_fundamental_div_mod(p3 as int, 0x1_0000_0000_0000_0000int);
        }
        let ghost t0 = a.w0 as int * m;
        let ghost t1 = a.w1 as int * m;
        let ghost t2 = a.w2 as int * m;
        let ghost t3 = a.w3 as int * m;
        proof {
            assert(self.value() * m == t0 + t1 * 0x1_0000_0000_0000_0000int + t2
                * 0x1_0000_0000_0000_0000_0000_0000_0000_0000int + t3
                * 0x1_0000_0000_0000_0000_0000_0000_0000_0000_0000_0000_0000_0000int)
                by (nonlinear_arith)
                requires
                    t0 == a.w0 as int * m,
                    t1 == a.w1 as int * m,
                    t2 == a.w2 as int * m,
                    t3 == a.w3 as int * m,
                    self.value() == words_value(a.w0, a.w1, a.w2, a.w3),
            ;
        }
        if c3 != 0 {
            None
        } else {
            Some(U256 { w0: r0 as u64, w1: r1 as u64, w2: r2 as u64, w3: r3 as u64 })
        }
    }

    /// Addition of a 64-bit amount; `None` when the sum does not fit in 256 bits.
    pub fn checked_add_small(&self, x: u64) -> (r: Option<U256>)
        ensures
            match r {
                Some(s) => s.value() == self.value() + x && self.value() + x < u256_modulus(),
                None => self.value() + x >= u256_modulus(),
            },
    {
        let a = *self;
        let s0 = a.w0 as u128 + x as u128;
        let r0 = s0 % 0x1_0000_0000_0000_0000;
        let c0 = s0 / 0x1_0000_0000_0000_0000;
        let s1 = a.w1 as u128 + c0;
        let r1 = s1 % 0x1_0000_0000_0000_0000;
        let c1 = s1 / 0x1_0000_0000_0000_0000;
        let s2 = a.w2 as u128 + c1;
        let r2 = s2 % 0x1_0000_0000_0000_0000;
        let c2 = s2 / 0x1_0000_0000_0000_0000;
        let s3 = a.w3 as u128 + c2;
        let r3 = s3 % 0x1_0000_0000_0000_0000;
        let c3 = s3 / 0x1_0000_0000_0000_0000;
        proof {
            lemma_fundamental_div_mod(s0 as int, 0x1_0000_0000_0000_0000int);
            lemma_fundamental_div_mod(s1 as int, 0x1_0000_0000_0000_0000int);
            lemma_fundamental_div_mod(s2 as int, 0x1_0000_0000_0000_0000int);
            lemma_fundamental_div_mod(s3 as int, 0x1_0000_0000_0000_0000int);
        }
        if c3 != 0 {
            None
        } else {
            Some(U256 { w0: r0 as u64, w1: r1 as u64, w2: r2 as u64, w3: r3 as u64 })
        }
    }
}

proof fn lemma_div_step(m: u128, w: u64, d: u64)
    requires
        d > 0,
        m < d,
    ensures
        m * 0x1_0000_0000_0000_0000int + w < 0x1_0000_0000_0000_0000_0000_0000_0000_0000int,
        (m * 0x1_0000_0000_0000_0000int + w) / (d as int) < 0x1_0000_0000_0000_0000int,
{
    assert(m * 0x1_0000_0000_0000_0000int + w < d * 0x1_0000_0000_0000_0000int) by (nonlinear_arith)
        requires
            m < d,
            w < 0x1_0000_0000_0000_0000int,
    ;
    assert((m * 0x1_0000_0000_0000_0000int + w) / (d as int) < 0x1_0000_0000_0000_0000int)
        by (nonlinear_arith)
        requires
            m * 0x1_0000_0000_0000_0000int + w < d * 0x1_0000_0000_0000_0000int,
            d > 0,
            m >= 0,
            w >= 0,
    ;
}

proof fn lemma_mul_fits(a: u64, m: u64)
    ensures
        a as int * m + 0x1_0000_0000_0000_0000int <= 0x1_0000_0000_0000_0000_0000_0000_0000_0000int,
{
    assert(a as int * m <= 0xFFFF_FFFF_FFFF_FFFFint * 0xFFFF_FFFF_FFFF_FFFFint) by (nonlinear_arith)
        requires
            a <= 0xFFFF_FFFF_FFFF_FFFFint,
            m <= 0xFFFF_FFFF_FFFF_FFFFint,
            a >= 0,
            m >= 0,
    ;
}

proof fn lemma_div_unique(x: int, d: int, q: int, r: int)
    requires
        d > 0,
        0 <= r < d,
        q * d + r == x,
    ensures
        q == x / d,
        r == x % d,
{
    vstd::arithmetic::div_mod::lemma_fundamental_div_mod_converse(x, d, q, r);
}


/// Big-endian value of the 8 bytes of `s` starting at `i`, computed.
fn be64_at(s: &[u8], i: usize) -> (r: u64)
    requires
        i + 8 <= s@.len(),
    ensures
        r == be64(s@, i as int),
{
    let b0 = s[i] as u64;
    let b1 = s[i + 1] as u64;
    let b2 = s[i + 2] as u64;
    let b3 = s[i + 3] as u64;
    let b4 = s[i + 4] as u64;
    let b5 = s[i + 5] as u64;
    let b6 = s[i + 6] as u64;
    let b7 = s[i + 7] as u64;
    b0 * 0x100_0000_0000_0000 + b1 * 0x1_0000_0000_0000 + b2 * 0x100_0000_0000 + b3 * 0x1_0000_0000
        + b4 * 0x100_0000 + b5 * 0x1_0000 + b6 * 0x100 + b7
}

/// The 8 little-endian bytes of a 64-bit word.
pub open spec fn spec_le8(w: u64) -> Seq<u8> {
    seq![
        (w % 0x100) as u8,
        ((w / 0x100) % 0x100) as u8,
        ((w / 0x1_0000) % 0x100) as u8,
        ((w / 0x100_0000) % 0x100) as u8,
        ((w / 0x1_0000_0000) % 0x100) as u8,
        ((w / 0x100_0000_0000) % 0x100) as u8,
        ((w / 0x1_0000_0000_0000) % 0x100) as u8,
        ((w / 0x100_0000_0000_0000) % 0x100) as u8,
    ]
}

/// The 32 little-endian bytes of a 256-bit value.
pub open spec fn spec_le_bytes(x: U256) -> Seq<u8> {
    spec_le8(x.w0) + spec_le8(x.w1) + spec_le8(x.w2) + spec_le8(x.w3)
}

/// Reading the 8 little-endian bytes of a word gives the word back.
pub proof fn lemma_le8_value(w: u64)
    ensures
        le64(spec_le8(w), 0) == w,
{
    assert(w == (w % 0x100) + ((w / 0x100) % 0x100) * 0x100 + ((w / 0x1_0000) % 0x100) * 0x1_0000
        + ((w / 0x100_0000) % 0x100) * 0x100_0000 + ((w / 0x1_0000_0000) % 0x100) * 0x1_0000_0000
        + ((w / 0x100_0000_0000) % 0x100) * 0x100_0000_0000 + ((w / 0x1_0000_0000_0000) % 0x100)
        * 0x1_0000_0000_0000 + ((w / 0x100_0000_0000_0000) % 0x100) * 0x100_0000_0000_0000)
        by (bit_vector);
}

/// The little-endian value of 8 bytes depends only on those bytes.
proof fn lemma_le64_same(a: Seq<u8>, i: int, b: Seq<u8>)
    requires
        0 <= i,
        i + 8 <= a.len(),
        b.len() == 8,
        a.subrange(i, i + 8) == b,
    ensures
        le64(a, i) == le64(b, 0),
{
    assert(a[i] == b[0]);
    assert(a[i + 1] == b[1]);
    assert(a[i + 2] == b[2]);
    assert(a[i + 3] == b[3]);
    assert(a[i + 4] == b[4]);
    assert(a[i + 5] == b[5]);
    assert(a[i + 6] == b[6]);
    assert(a[i + 7] == b[7]);
}

/// The little-endian bytes of a value read back as its four words and its value.
pub proof fn lemma_le_bytes_words(x: U256)
    ensures
        spec_le_bytes(x).len() == 32,
        le64(spec_le_bytes(x), 0) == x.w0,
        le64(spec_le_bytes(x), 8) == x.w1,
        le64(spec_le_bytes(x), 16) == x.w2,
        le64(spec_le_bytes(x), 24) == x.w3,
        le256(spec_le_bytes(x)) == x.value(),
{
    let bx = spec_le_bytes(x);
    let a = spec_le8(x.w0);
    let b = spec_le8(x.w1);
    let c = spec_le8(x.w2);
    let d = spec_le8(x.w3);
    assert(bx.subrange(0, 8) =~= a);
    assert(bx.subrange(8, 16) =~= b);
    assert(bx.subrange(16, 24) =~= c);
    assert(bx.subrange(24, 32) =~= d);
    lemma_le64_same(bx, 0, a);
    lemma_le64_same(bx, 8, b);
    lemma_le64_same(bx, 16, c);
    lemma_le64_same(bx, 24, d);
    lemma_le8_value(x.w0);
    lemma_le8_value(x.w1);
    lemma_le8_value(x.w2);
    lemma_le8_value(x.w3);
}

/// Different values have different little-endian bytes.
pub proof fn lemma_le_bytes_injective(x: U256, y: U256)
    ensures
        spec_le_bytes(x) == spec_le_bytes(y) <==> x == y,
{
    lemma_le_bytes_words(x);
    lemma_le_bytes_words(y);
}

/// The 8 little-endian bytes of a 64-bit word.
fn le_bytes64(w: u64) -> (r: [u8; 8])
    ensures
        le64(r@, 0) == w,
        r@ == spec_le8(w),
{
    let r = [
        (w % 0x100) as u8,
        ((w / 0x100) % 0x100) as u8,
        ((w / 0x1_0000) % 0x100) as u8,
        ((w / 0x100_0000) % 0x100) as u8,
        ((w / 0x1_0000_0000) % 0x100) as u8,
        ((w / 0x100_0000_0000) % 0x100) as u8,
        ((w / 0x1_0000_0000_0000) % 0x100) as u8,
        ((w / 0x100_0000_0000_0000) % 0x100) as u8,
    ];
    assert(w == (w % 0x100) + ((w / 0x100) % 0x100) * 0x100 + ((w / 0x1_0000) % 0x100) * 0x1_0000
        + ((w / 0x100_0000) % 0x100) * 0x100_0000 + ((w / 0x1_0000_0000) % 0x100) * 0x1_0000_0000
        + ((w / 0x100_0000_0000) % 0x100) * 0x100_0000_0000 + ((w / 0x1_0000_0000_0000) % 0x100)
        * 0x1_0000_0000_0000 + ((w / 0x100_0000_0000_0000) % 0x100) * 0x100_0000_0000_0000)
        by (bit_vector);
    assert(r@ =~= spec_le8(w));
    r
}

impl U256 {
    /// The value whose big-endian encoding is the 32 bytes `s`.
    pub open spec fn spec_from_be_bytes(s: Seq<u8>) -> U256 {
        U256 {
            w0: be64(s, 24) as u64,
            w1: be64(s, 16) as u64,
            w2: be64(s, 8) as u64,
            w3: be64(s, 0) as u64,
        }
    }

    /// Reads a value from its 32-byte big-endian encoding.
    pub fn from_big_endian(s: &[u8]) -> (r: U256)
        requires
            s@.len() == 32,
        ensures
            r == U256::spec_from_be_bytes(s@),
            r.value() == be256(s@),
    {
        proof {
            lemma_be64_bound(s@, 0);
            lemma_be64_bound(s@, 8);
            lemma_be64_bound(s@, 16);
            lemma_be64_bound(s@, 24);
        }
        let w3 = be64_at(s, 0);
        let w2 = be64_at(s, 8);
        let w1 = be64_at(s, 16);
        let w0 = be64_at(s, 24);
        U256 { w0, w1, w2, w3 }
    }

    /// The 32-byte little-endian encoding of the value.
    #[verifier::rlimit(60)]
    pub fn to_little_endian(&self) -> (r: [u8; 32])
        ensures
            r@ == spec_le_bytes(*self),
            r@.len() == 32,
            le256(r@) == self.value(),
    {
        let a = le_bytes64(self.w0);
        let b = le_bytes64(self.w1);
        let c = le_bytes64(self.w2);
        let d = le_bytes64(self.w3);
        let r = [
            a[0], a[1], a[2], a[3], a[4], a[5], a[6], a[7],
            b[0], b[1], b[2], b[3], b[4], b[5], b[6], b[7],
            c[0], c[1], c[2], c[3], c[4], c[5], c[6], c[7],
            d[0], d[1], d[2], d[3], d[4], d[5], d[6], d[7],
        ];
        assert(le64(r@, 0) == le64(a@, 0));
        assert(le64(r@, 8) == le64(b@, 0));
        assert(le64(r@, 16) == le64(c@, 0));
        assert(le64(r@, 24) == le64(d@, 0));
        assert(r@ =~= spec_le_bytes(*self));
        r
    }
}


/// CBOR encoding of a 256-bit value: its four words, least significant first, as an array.
pub open spec fn spec_encode_u256(x: U256) -> Seq<u8> {
    crate::cbor::enc_array_head(4) + crate::cbor::enc_uint(x.w0) + crate::cbor::enc_uint(x.w1)
        + crate::cbor::enc_uint(x.w2) + crate::cbor::enc_uint(x.w3)
}

proof fn lemma_regroup(h: Seq<u8>, u0: Seq<u8>, u1: Seq<u8>, u2: Seq<u8>, u3: Seq<u8>, x: Seq<u8>)
    ensures
        h + u0 + u1 + u2 + u3 + x == h + (u0 + (u1 + (u2 + (u3 + x)))),
{
    assert(h + u0 + u1 + u2 + u3 + x =~= h + (u0 + (u1 + (u2 + (u3 + x)))));
}

proof fn lemma_strip_prefix(h: Seq<u8>, r1: Seq<u8>, r2: Seq<u8>)
    requires
        h + r1 == h + r2,
    ensures
        r1 == r2,
{
    assert(r1 =~= (h + r1).subrange(h.len() as int, (h + r1).len() as int));
    assert(r2 =~= (h + r2).subrange(h.len() as int, (h + r2).len() as int));
}

/// Two 256-bit values with what follows them: equal bytes mean equal values and equal rests.
pub proof fn lemma_u256_prefix(a: U256, b: U256, x: Seq<u8>, y: Seq<u8>)
    requires
        spec_encode_u256(a) + x == spec_encode_u256(b) + y,
    ensures
        a == b,
        x == y,
{
    let h = crate::cbor::enc_array_head(4);
    let ua0 = crate::cbor::enc_uint(a.w0);
    let ua1 = crate::cbor::enc_uint(a.w1);
    let ua2 = crate::cbor::enc_uint(a.w2);
    let ua3 = crate::cbor::enc_uint(a.w3);
    let ub0 = crate::cbor::enc_uint(b.w0);
    let ub1 = crate::cbor::enc_uint(b.w1);
    let ub2 = crate::cbor::enc_uint(b.w2);
    let ub3 = crate::cbor::enc_uint(b.w3);
    lemma_regroup(h, ua0, ua1, ua2, ua3, x);
    lemma_regroup(h, ub0, ub1, ub2, ub3, y);
    lemma_strip_prefix(h, ua0 + (ua1 + (ua2 + (ua3 + x))), ub0 + (ub1 + (ub2 + (ub3 + y))));
    crate::cbor::lemma_uint_prefix(a.w0, b.w0, ua1 + (ua2 + (ua3 + x)), ub1 + (ub2 + (ub3 + y)));
    crate::cbor::lemma_uint_prefix(a.w1, b.w1, ua2 + (ua3 + x), ub2 + (ub3 + y));
    crate::cbor::lemma_uint_prefix(a.w2, b.w2, ua3 + x, ub3 + y);
    crate::cbor::lemma_uint_prefix(a.w3, b.w3, x, y);
}

/// Appends the CBOR encoding of a 256-bit value.
pub fn push_u256(out: &mut Vec<u8>, x: &U256)
    ensures
        final(out)@ == old(out)@ + spec_encode_u256(*x),
{
    crate::cbor::push_array_head(out, 4);
    crate::cbor::push_uint(out, x.w0);
    crate::cbor::push_uint(out, x.w1);
    crate::cbor::push_uint(out, x.w2);
    crate::cbor::push_uint(out, x.w3);
    assert(final(out)@ =~= old(out)@ + spec_encode_u256(*x));
}

} // verus!
