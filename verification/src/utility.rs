//! Small integer helpers shared by the memory managers: single bits,
//! base-2 logarithms and rounding to a multiple.

use vstd::prelude::*;
use vstd::arithmetic::power2::{pow2, lemma_pow2_pos, lemma_pow2_unfold, lemma_pow2_strictly_increases};
use vstd::arithmetic::div_mod::{lemma_fundamental_div_mod, lemma_div_pos_is_pos, lemma_mod_bound};
use vstd::arithmetic::mul::{lemma_mul_inequality, lemma_mul_is_commutative};
use vstd::bits::{lemma_u64_shl_is_mul, lemma_u64_shr_is_div, lemma_u64_pow2_no_overflow};
use vstd::std_specs::bits::{u64_leading_zeros, axiom_u64_leading_zeros};

verus! {

/// An unsigned machine integer that can be widened to `u64` and truncated back.
pub trait UInt: Copy + Sized {
    /// The value widened to `u64`.
    spec fn spec_to64(self) -> u64;

    /// `x` truncated to this type.
    spec fn spec_from64(x: u64) -> Self;

    /// The largest value of this type, widened.
    spec fn spec_max() -> u64;

    /// Widening stays within the type's largest value and truncates back to
    /// the same value; a `u64` within that largest value survives truncation
    /// and widening unchanged.
    proof fn lemma_round_trip(self, x: u64)
        ensures
            self.spec_to64() <= Self::spec_max(),
            Self::spec_from64(self.spec_to64()) == self,
            x <= Self::spec_max() ==> Self::spec_from64(x).spec_to64() == x,
    ;

    fn from64(x: u64) -> (r: Self)
        ensures
            r == Self::spec_from64(x),
    ;

    fn to64(self) -> (r: u64)
        ensures
            r == self.spec_to64(),
    ;
}

impl UInt for u8 {
    open spec fn spec_max() -> u64 {
        0xff
    }

    proof fn lemma_round_trip(self, x: u64) {
    }

    open spec fn spec_to64(self) -> u64 {
        self as u64
    }

    open spec fn spec_from64(x: u64) -> u8 {
        x as u8
    }

    fn from64(x: u64) -> (r: u8) {
        x as u8
    }

    fn to64(self) -> (r: u64) {
        self as u64
    }
}

impl UInt for u16 {
    open spec fn spec_max() -> u64 {
        0xffff
    }

    proof fn lemma_round_trip(self, x: u64) {
    }

    open spec fn spec_to64(self) -> u64 {
        self as u64
    }

    open spec fn spec_from64(x: u64) -> u16 {
        x as u16
    }

    fn from64(x: u64) -> (r: u16) {
        x as u16
    }

    fn to64(self) -> (r: u64) {
        self as u64
    }
}

impl UInt for u32 {
    open spec fn spec_max() -> u64 {
        0xffff_ffff
    }

    proof fn lemma_round_trip(self, x: u64) {
    }

    open spec fn spec_to64(self) -> u64 {
        self as u64
    }

    open spec fn spec_from64(x: u64) -> u32 {
        x as u32
    }

    fn from64(x: u64) -> (r: u32) {
        x as u32
    }

    fn to64(self) -> (r: u64) {
        self as u64
    }
}

impl UInt for u64 {
    open spec fn spec_max() -> u64 {
        u64::MAX
    }

    proof fn lemma_round_trip(self, x: u64) {
    }

    open spec fn spec_to64(self) -> u64 {
        self
    }

    open spec fn spec_from64(x: u64) -> u64 {
        x
    }

    fn from64(x: u64) -> (r: u64) {
        x
    }

    fn to64(self) -> (r: u64) {
        self
    }
}

impl UInt for usize {
    open spec fn spec_max() -> u64 {
        usize::MAX as u64
    }

    proof fn lemma_round_trip(self, x: u64) {
    }

    open spec fn spec_to64(self) -> u64 {
        self as u64
    }

    open spec fn spec_from64(x: u64) -> usize {
        x as usize
    }

    fn from64(x: u64) -> (r: usize) {
        x as usize
    }

    fn to64(self) -> (r: u64) {
        self as u64
    }
}

/// The smallest multiple of `base` that is not below `x`.
pub open spec fn round_up_spec(x: int, base: int) -> int {
    ((x + base - 1) / base) * base
}

/// The largest multiple of `base` that is not above `x`.
pub open spec fn round_down_spec(x: int, base: int) -> int {
    (x / base) * base
}

/// `n` is the base-2 logarithm of `x`, rounded down.
pub open spec fn is_log2_floor(x: int, n: int) -> bool {
    0 <= n && pow2(n as nat) <= x < pow2((n + 1) as nat)
}

/// `n` is the base-2 logarithm of `x`, rounded up.
pub open spec fn is_log2_ceil(x: int, n: int) -> bool {
    0 <= n && x <= pow2(n as nat) && (n == 0 || pow2((n - 1) as nat) < x)
}

/// Bit `k` of `x`.
pub open spec fn bit_of(x: int, k: nat) -> bool {
    (x / (pow2(k) as int)) % 2 == 1
}

/// A value of `R` whose only set bit is bit `num` (truncated to the width of `R`).
pub fn bit<R: UInt>(num: u8) -> (r: R)
    requires
        num < 64,
    ensures
        r == R::spec_from64(pow2(num as nat) as u64),
        pow2(num as nat) <= R::spec_max() ==> r.spec_to64() == pow2(num as nat),
{
    proof {
        lemma_u64_pow2_no_overflow(num as nat);
        lemma_u64_shl_is_mul(1u64, num as u64);
    }
    let r = R::from64(1u64 << num);
    proof {
        r.lemma_round_trip(pow2(num as nat) as u64);
    }
    r
}

/// Whether bit `num` of `x` is set.
pub fn get_bit<T: UInt>(x: T, num: u8) -> (r: bool)
    requires
        num < 64,
    ensures
        r == bit_of(x.spec_to64() as int, num as nat),
{
    let v = x.to64();
    let n = num as u64;
    let r = (v & (1u64 << n)) != 0;
    proof {
        assert(((v & (1u64 << n)) != 0) == (((v >> n) & 1u64) == 1u64)) by (bit_vector)
            requires
                n < 64,
        ;
        assert(((v >> n) & 1u64) == (v >> n) % 2) by (bit_vector);
        lemma_u64_shr_is_div(v, n);
    }
    r
}

/// Bounds of a `u64` from its number of leading zeros.
proof fn lemma_leading_zeros_bounds(v: u64)
    requires
        v > 0,
    ensures
        0 <= u64_leading_zeros(v) < 64,
        is_log2_floor(v as int, 63 - u64_leading_zeros(v)),
{
    axiom_u64_leading_zeros(v);
    let lz = u64_leading_zeros(v);
    let k = (63 - lz) as u64;
    assert(k < 64);
    // the bit at position k is set
    assert((v >> k) & 1u64 != 0u64);
    lemma_u64_shr_is_div(v, k);
    assert((v >> k) & 1u64 != 0u64 ==> (v >> k) >= 1u64) by (bit_vector);
    lemma_pow2_pos(k as nat);
    assert(v as nat / pow2(k as nat) >= 1);
    assert(v >= pow2(k as nat)) by {
        if v < pow2(k as nat) {
            vstd::arithmetic::div_mod::lemma_basic_div(v as int, pow2(k as nat) as int);
        }
    }
    // every bit above k is clear
    if lz > 0 {
        let s = (64 - lz) as u64;
        assert(v >> s == 0);
        lemma_u64_shr_is_div(v, s);
        lemma_pow2_pos(s as nat);
        assert(v < pow2(s as nat)) by {
            if v >= pow2(s as nat) {
                vstd::arithmetic::div_mod::lemma_div_is_ordered(
                    pow2(s as nat) as int,
                    v as int,
                    pow2(s as nat) as int,
                );
                vstd::arithmetic::div_mod::lemma_div_by_self(pow2(s as nat) as int);
            }
        }
        assert((k + 1) as nat == s as nat);
    } else {
        vstd::arithmetic::power2::lemma2_to64_rest();
        assert(k == 63);
        assert(pow2(64) == 0x10000000000000000);
    }
}

/// The base-2 logarithm of `x`, rounded down.
pub fn log2_floor<T: UInt>(x: T) -> (r: usize)
    requires
        x.spec_to64() > 0,
    ensures
        r < 64,
        is_log2_floor(x.spec_to64() as int, r as int),
{
    let v = x.to64();
    let lz = v.leading_zeros();
    proof {
        lemma_leading_zeros_bounds(v);
    }
    64 - (lz as usize) - 1
}

/// The base-2 logarithm of `x`, rounded up.
pub fn log2_ceil<T: UInt>(x: T) -> (r: usize)
    requires
        x.spec_to64() > 0,
    ensures
        r <= 64,
        is_log2_ceil(x.spec_to64() as int, r as int),
{
    let mut ret = log2_floor(x);
    let v = x.to64();
    proof {
        lemma_u64_pow2_no_overflow(ret as nat);
        lemma_u64_shl_is_mul(1u64, ret as u64);
    }
    if v > (1u64 << ret) {
        ret += 1;
        proof {
            lemma_pow2_unfold(ret as nat);
        }
    } else {
        proof {
            lemma_pow2_pos(ret as nat);
            if ret > 0 {
                lemma_pow2_strictly_increases((ret - 1) as nat, ret as nat);
            }
        }
    }
    ret
}

/// The signed distance in bytes from address `begin` to address `end`.
pub fn dist(begin: u64, end: u64) -> (r: i64)
    requires
        i64::MIN <= (end as i64) - (begin as i64) <= i64::MAX,
    ensures
        r == (end as i64) - (begin as i64),
{
    (end as i64) - (begin as i64)
}

/// Facts about rounding `x` up to a multiple of `b`.
pub proof fn lemma_round_up_facts(x: int, b: int)
    requires
        x >= 0,
        b > 0,
    ensures
        x % b == 0 ==> round_up_spec(x, b) == x,
        x % b != 0 ==> round_up_spec(x, b) == x - x % b + b,
        x <= round_up_spec(x, b) < x + b,
        round_up_spec(x, b) % b == 0,
        x % b <= x,
{
    lemma_div_pos_is_pos(x, b);
    vstd::arithmetic::mul::lemma_mul_nonnegative(b, x / b);
    lemma_fundamental_div_mod(x, b);
    lemma_mod_bound(x, b);
    let q = x / b;
    let r = x % b;
    assert(x == b * q + r);
    lemma_mul_is_commutative(q, b);
    vstd::arithmetic::mul::lemma_mul_is_distributive_add(b, q, 1);
    lemma_mul_is_commutative(q + 1, b);
    if r == 0 {
        assert((x + b - 1) / b == q) by {
            vstd::arithmetic::div_mod::lemma_fundamental_div_mod_converse(
                x + b - 1,
                b,
                q,
                b - 1,
            );
        }
    } else {
        assert((x + b - 1) / b == q + 1) by {
            vstd::arithmetic::div_mod::lemma_fundamental_div_mod_converse(
                x + b - 1,
                b,
                q + 1,
                r - 1,
            );
        }
    }
    vstd::arithmetic::mul::lemma_mul_is_distributive_add(b, q, 1);
    lemma_mul_is_commutative(q, b);
    lemma_mul_is_commutative(q + 1, b);
    vstd::arithmetic::div_mod::lemma_mod_multiples_basic((x + b - 1) / b, b);
}

/// Facts about rounding `x` down to a multiple of `b`.
pub proof fn lemma_round_down_facts(x: int, b: int)
    requires
        x >= 0,
        b > 0,
    ensures
        round_down_spec(x, b) == x - x % b,
        x - b < round_down_spec(x, b) <= x,
        round_down_spec(x, b) % b == 0,
{
    lemma_fundamental_div_mod(x, b);
    lemma_mod_bound(x, b);
    lemma_mul_is_commutative(x / b, b);
    vstd::arithmetic::div_mod::lemma_mod_multiples_basic(x / b, b);
}

/// `x` rounded up to a multiple of `base` (the result truncated to the width of `T`).
pub fn round_up<T: UInt>(x: T, base: T) -> (r: T)
    requires
        base.spec_to64() > 0,
        round_up_spec(x.spec_to64() as int, base.spec_to64() as int) <= u64::MAX,
    ensures
        r == T::spec_from64(round_up_spec(x.spec_to64() as int, base.spec_to64() as int) as u64),
        round_up_spec(x.spec_to64() as int, base.spec_to64() as int) <= T::spec_max() ==> r.spec_to64()
            == round_up_spec(x.spec_to64() as int, base.spec_to64() as int),
{
    let v = x.to64();
    let b = base.to64();
    proof {
        lemma_round_up_facts(v as int, b as int);
    }
    let r = v % b;
    assert(r != 0 ==> v - r + b == round_up_spec(v as int, b as int));
    let res = T::from64(if r == 0 { v } else { v - r + b });
    proof {
        res.lemma_round_trip(round_up_spec(v as int, b as int) as u64);
    }
    res
}

/// `x` rounded down to a multiple of `base` (the result truncated to the width of `T`).
pub fn round_down<T: UInt>(x: T, base: T) -> (r: T)
    requires
        base.spec_to64() > 0,
    ensures
        r == T::spec_from64(round_down_spec(x.spec_to64() as int, base.spec_to64() as int) as u64),
        r.spec_to64() == round_down_spec(x.spec_to64() as int, base.spec_to64() as int),
{
    let base = base.to64();
    let v = x.to64();
    proof {
        lemma_round_down_facts(v as int, base as int);
        lemma_fundamental_div_mod(v as int, base as int);
        vstd::arithmetic::div_mod::lemma_mod_bound(v as int, base as int);
        lemma_mul_is_commutative((v / base) as int, base as int);
    }
    let res = T::from64((v / base) * base);
    proof {
        x.lemma_round_trip(0);
        res.lemma_round_trip(round_down_spec(v as int, base as int) as u64);
    }
    res
}

} // verus!
