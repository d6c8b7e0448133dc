//! Bit manipulation on fixed-width integers: reading and writing single bits and bit
//! fields, classic tricks, and small bit-packed structures.
use vstd::prelude::*;

verus! {

/// Bit `i` of `x` (bit 0 is the least significant).
pub open spec fn bit(x: u32, i: u32) -> bool {
    (x >> i) & 1 == 1
}

// ------------------------------------------------------------------------------
// Inspection
// ------------------------------------------------------------------------------

/// Whether bit `pos` of `n` is set.
pub fn is_bit_set(n: u32, pos: u32) -> (r: bool)
    requires
        pos < 32,
    ensures
        r == bit(n, pos),
{
    assert((n & (1u32 << pos) != 0) == ((n >> pos) & 1 == 1)) by (bit_vector)
        requires
            pos < 32,
    ;
    n & (1 << pos) != 0
}

/// Bit `pos` of `n`, as 0 or 1.
pub fn get_bit(n: u32, pos: u32) -> (r: u32)
    requires
        pos < 32,
    ensures
        r == if bit(n, pos) { 1u32 } else { 0u32 },
{
    assert((n >> pos) & 1 == 0 || (n >> pos) & 1 == 1) by (bit_vector);
    (n >> pos) & 1
}

/// The bit field `lo ..= hi` of `n`, shifted down to bit 0.
pub fn get_bits(n: u32, lo: u32, hi: u32) -> (r: u32)
    requires
        lo <= hi,
        hi - lo < 31,
        lo < 32,
    ensures
        forall|i: u32| i < 32 ==> bit(r, i) == (i <= hi - lo && bit(n, (lo + i) as u32)),
{
    let width = hi - lo + 1;
    assert(1u32 << width >= 1) by (bit_vector)
        requires
            width < 32,
    ;
    let mask = (1u32 << width) - 1;
    let r = (n >> lo) & mask;
    assert(forall|i: u32| i < 32 ==> (((r >> i) & 1 == 1) == (i <= hi - lo && ((n >> ((lo + i) as u32)) & 1 == 1))))
        by (bit_vector)
        requires
            lo <= hi,
            hi - lo < 31,
            width == hi - lo + 1,
            mask == ((1u32 << width) - 1) as u32,
            r == (n >> lo) & mask,
    ;
    r
}

/// The number of set bits of `x`.
pub open spec fn pop_count(x: u32) -> nat
    decreases x,
{
    if x == 0 {
        0
    } else {
        (x % 2) as nat + pop_count(x / 2)
    }
}

proof fn lemma_pop_count_le(x: u32)
    ensures
        pop_count(x) <= x,
    decreases x,
{
    if x != 0 {
        lemma_pop_count_le(x / 2);
    }
}

/// The number of ones in the binary representation of `n`, counted digit by digit.
fn count_ones(n: u32) -> (r: u32)
    ensures
        r == pop_count(n),
{
    proof {
        lemma_pop_count_le(n);
    }
    let mut m = n;
    let mut total: u32 = 0;
    while m > 0
        invariant
            total + pop_count(m) == pop_count(n),
            pop_count(n) <= n,
        decreases m,
    {
        total = total + m % 2;
        m = m / 2;
    }
    total
}

/// Whether `n` has an odd number of set bits, as 0 or 1.
pub fn parity(n: u32) -> (r: u32)
    ensures
        r == pop_count(n) % 2,
{
    let ones = count_ones(n);
    assert(ones & 1 == ones % 2) by (bit_vector);
    ones & 1
}

/// `x` is a power of two.
pub open spec fn is_power_of_two(x: u32) -> bool {
    exists|k: u32| k < 32 && x == #[trigger] (1u32 << k)
}

/// The values of `x & (x - 1) == 0` other than zero are the powers of two.
proof fn lemma_single_bit(x: u32)
    ensures
        (x != 0 && x & ((x - 1) as u32) == 0) <==> is_power_of_two(x),
{
    assert(x != 0 && x & ((x - 1) as u32) == 0 <==> (x == 1u32 << 0u32 || x == 1u32 << 1u32 || x == 1u32 << 2u32
        || x == 1u32 << 3u32 || x == 1u32 << 4u32 || x == 1u32 << 5u32 || x == 1u32 << 6u32 || x == 1u32 << 7u32
        || x == 1u32 << 8u32 || x == 1u32 << 9u32 || x == 1u32 << 10u32 || x == 1u32 << 11u32 || x == 1u32 << 12u32
        || x == 1u32 << 13u32 || x == 1u32 << 14u32 || x == 1u32 << 15u32 || x == 1u32 << 16u32
        || x == 1u32 << 17u32 || x == 1u32 << 18u32 || x == 1u32 << 19u32 || x == 1u32 << 20u32
        || x == 1u32 << 21u32 || x == 1u32 << 22u32 || x == 1u32 << 23u32 || x == 1u32 << 24u32
        || x == 1u32 << 25u32 || x == 1u32 << 26u32 || x == 1u32 << 27u32 || x == 1u32 << 28u32
        || x == 1u32 << 29u32 || x == 1u32 << 30u32 || x == 1u32 << 31u32)) by (bit_vector);
    if is_power_of_two(x) {
        let k = choose|k: u32| k < 32 && x == #[trigger] (1u32 << k);
        assert(k < 32 && x == 1u32 << k ==> x != 0 && x & ((x - 1) as u32) == 0) by (bit_vector);
    }
}

// ------------------------------------------------------------------------------
// Manipulation
// ------------------------------------------------------------------------------

/// `n` with bit `pos` set.
pub fn set_bit(n: u32, pos: u32) -> (r: u32)
    requires
        pos < 32,
    ensures
        forall|i: u32| i < 32 ==> bit(r, i) == (i == pos || bit(n, i)),
{
    let r = n | (1 << pos);
    assert(forall|i: u32| i < 32 ==> (((r >> i) & 1 == 1) == (i == pos || (n >> i) & 1 == 1))) by (bit_vector)
        requires
            pos < 32,
            r == n | (1u32 << pos),
    ;
    r
}

/// `n` with bit `pos` cleared.
pub fn clear_bit(n: u32, pos: u32) -> (r: u32)
    requires
        pos < 32,
    ensures
        forall|i: u32| i < 32 ==> bit(r, i) == (i != pos && bit(n, i)),
{
    let r = n & !(1 << pos);
    assert(forall|i: u32| i < 32 ==> (((r >> i) & 1 == 1) == (i != pos && (n >> i) & 1 == 1))) by (bit_vector)
        requires
            pos < 32,
            r == n & !(1u32 << pos),
    ;
    r
}

/// `n` with bit `pos` flipped.
pub fn toggle_bit(n: u32, pos: u32) -> (r: u32)
    requires
        pos < 32,
    ensures
        forall|i: u32| i < 32 ==> bit(r, i) == (if i == pos { !bit(n, i) } else { bit(n, i) }),
{
    let r = n ^ (1 << pos);
    assert(forall|i: u32|
        i < 32 ==> (((r >> i) & 1 == 1) == (if i == pos { !((n >> i) & 1 == 1) } else { (n >> i) & 1 == 1 })))
        by (bit_vector)
        requires
            pos < 32,
            r == n ^ (1u32 << pos),
    ;
    r
}

/// `n` with bit `pos` set to the lowest bit of `val`.
pub fn write_bit(n: u32, pos: u32, val: u32) -> (r: u32)
    requires
        pos < 32,
    ensures
        forall|i: u32| i < 32 ==> bit(r, i) == (if i == pos { bit(val, 0) } else { bit(n, i) }),
{
    let r = (n & !(1 << pos)) | ((val & 1) << pos);
    assert(forall|i: u32|
        i < 32 ==> (((r >> i) & 1 == 1) == (if i == pos { (val >> 0u32) & 1 == 1 } else { (n >> i) & 1 == 1 })))
        by (bit_vector)
        requires
            pos < 32,
            r == (n & !(1u32 << pos)) | ((val & 1) << pos),
    ;
    r
}

/// `n` with the bit field `lo ..= hi` replaced by the low bits of `val`.
pub fn set_bits(n: u32, lo: u32, hi: u32, val: u32) -> (r: u32)
    requires
        lo <= hi,
        hi - lo < 31,
        lo < 32,
    ensures
        forall|i: u32|
            i < 32 ==> bit(r, i) == (if lo <= i <= hi { bit(val, (i - lo) as u32) } else { bit(n, i) }),
{
    let width = hi - lo + 1;
    assert(1u32 << width >= 1) by (bit_vector)
        requires
            width < 32,
    ;
    let mask = ((1u32 << width) - 1) << lo;
    let r = (n & !mask) | ((val << lo) & mask);
    assert(forall|i: u32|
        i < 32 ==> (((r >> i) & 1 == 1) == (if lo <= i <= hi {
            (val >> ((i - lo) as u32)) & 1 == 1
        } else {
            (n >> i) & 1 == 1
        }))) by (bit_vector)
        requires
            lo <= hi,
            hi - lo < 31,
            lo < 32,
            width == hi - lo + 1,
            mask == (((1u32 << width) - 1) as u32) << lo,
            r == (n & !mask) | ((val << lo) & mask),
    ;
    r
}

/// The lowest set bit of `n` alone (`n & -n`); zero for zero.
pub fn lowest_set_bit(n: i32) -> (r: i32)
    requires
        n != i32::MIN,
    ensures
        n == 0 ==> r == 0,
        n != 0 ==> r as u32 == 1u32 << (n as u32).trailing_zeros(),
{
    let r = n & (-n);
    proof {
        let u = n as u32;
        vstd::std_specs::bits::axiom_u32_trailing_zeros(u);
        let t = u.trailing_zeros();
        assert(n == 0 ==> r == 0) by (bit_vector)
            requires
                r == n & (-n) as i32,
        ;
        if n != 0 {
            assert(u != 0) by (bit_vector)
                requires
                    u == n as u32,
                    n != 0,
            ;
            assert(r as u32 == 1u32 << t) by (bit_vector)
                requires
                    r == n & (-n) as i32,
                    u == n as u32,
                    n != i32::MIN,
                    t < 32,
                    (u >> t) & 1u32 == 1u32,
                    u << ((32 - t) as u32) == 0,
            ;
        }
    }
    r
}

/// `n` with its lowest set bit cleared (`n & (n - 1)`).
pub fn clear_lowest_set_bit(n: u32) -> (r: u32)
    requires
        n > 0,
    ensures
        forall|i: u32| i < 32 ==> bit(r, i) == (bit(n, i) && i != n.trailing_zeros()),
{
    let r = n & (n - 1);
    proof {
        vstd::std_specs::bits::axiom_u32_trailing_zeros(n);
        let t = n.trailing_zeros();
        assert(forall|i: u32| i < 32 ==> (((r >> i) & 1 == 1) == ((n >> i) & 1 == 1 && i != t))) by (bit_vector)
            requires
                r == n & ((n - 1) as u32),
                n > 0,
                t < 32,
                (n >> t) & 1u32 == 1u32,
                n << ((32 - t) as u32) == 0,
        ;
    }
    r
}

/// The highest set bit of `n` alone; zero for zero.
pub fn highest_set_bit(n: u32) -> (r: u32)
    ensures
        n == 0 ==> r == 0,
        n != 0 ==> is_power_of_two(r) && r <= n && n < 2 * r,
{
    if n == 0 {
        return 0;
    }
    let lz = n.leading_zeros();
    proof {
        vstd::std_specs::bits::axiom_u32_leading_zeros(n);
    }
    let k = 31 - lz;
    let r = 1u32 << k;
    proof {
        assert(r <= n && n < 2 * r) by (bit_vector)
            requires
                k < 32,
                (n >> k) & 1u32 != 0u32,
                n >> ((k + 1) as u32) == 0,
                r == 1u32 << k,
        ;
        assert(is_power_of_two(r));
    }
    r
}

// ------------------------------------------------------------------------------
// Classic tricks
// ------------------------------------------------------------------------------

/// Whether `n` is a power of two: non-zero with a single bit set.
pub fn is_pow2(n: u32) -> (r: bool)
    ensures
        r == is_power_of_two(n),
{
    proof {
        lemma_single_bit(n);
    }
    n != 0 && (n & (n - 1)) == 0
}

/// The largest power of two not above `n`; zero for zero.
pub fn round_down_pow2(n: u32) -> (r: u32)
    ensures
        n == 0 ==> r == 0,
        n != 0 ==> is_power_of_two(r) && r <= n && n < 2 * r,
{
    highest_set_bit(n)
}

/// `|n|`, computed without a branch.
pub fn abs_trick(n: i32) -> (r: i32)
    requires
        n != i32::MIN,
    ensures
        r == if n < 0 { -n } else { n as int },
{
    let mask = n >> 31;
    assert(i32::MIN <= n + mask <= i32::MAX && ((n + mask) as i32) ^ mask == if n < 0 { -n } else { n as int })
        by (bit_vector)
        requires
            n != i32::MIN,
            mask == n >> 31,
    ;
    (n + mask) ^ mask
}

/// The smaller of `a` and `b`, computed without a branch.
pub fn bit_min(a: i32, b: i32) -> (r: i32)
    requires
        i32::MIN <= a - b <= i32::MAX,
    ensures
        r == if a < b { a } else { b },
{
    let d = a - b;
    assert(i32::MIN <= b + (d & (d >> 31)) <= i32::MAX && b + (d & (d >> 31)) == if a < b { a } else { b })
        by (bit_vector)
        requires
            d == a - b,
    ;
    b + (d & (d >> 31))
}

/// The larger of `a` and `b`, computed without a branch.
pub fn bit_max(a: i32, b: i32) -> (r: i32)
    requires
        i32::MIN <= a - b <= i32::MAX,
    ensures
        r == if a < b { b } else { a },
{
    let d = a - b;
    assert(i32::MIN <= a - (d & (d >> 31)) <= i32::MAX && a - (d & (d >> 31)) == if a < b { b } else { a })
        by (bit_vector)
        requires
            d == a - b,
    ;
    a - (d & (d >> 31))
}

/// The sign of `n`: -1, 0 or 1.
pub fn sign(n: i32) -> (r: i32)
    requires
        n != i32::MIN,
    ensures
        r == if n < 0 { -1 } else if n == 0 { 0 } else { 1 },
{
    let m = -n;
    assert((n >> 31) | ((m >> 31) & 1) == if n < 0 { -1i32 } else if n == 0 { 0i32 } else { 1i32 })
        by (bit_vector)
        requires
            n != i32::MIN,
            m == -n,
    ;
    (n >> 31) | ((m >> 31) & 1)
}

/// Switches between `a` and `b`: given one of them, returns the other.
pub fn toggle(n: i32, a: i32, b: i32) -> (r: i32)
    ensures
        r == a ^ b ^ n,
        n == a ==> r == b,
        n == b ==> r == a,
{
    assert((n == a ==> a ^ b ^ n == b) && (n == b ==> a ^ b ^ n == a)) by (bit_vector);
    a ^ b ^ n
}

/// `n & (m - 1)`, which is `n % m` when `m` is a power of two.
pub fn fast_mod(n: u32, m: u32) -> (r: u32)
    requires
        m > 0,
    ensures
        r == n & ((m - 1) as u32),
        is_power_of_two(m) ==> r == n % m,
{
    proof {
        if is_power_of_two(m) {
            let k = choose|k: u32| k < 32 && m == #[trigger] (1u32 << k);
            vstd::bits::lemma_u32_pow2_no_overflow(k as nat);
            vstd::bits::lemma_u32_shl_is_mul(1, k);
            vstd::bits::lemma_u32_low_bits_mask_is_mod(n, k as nat);
        }
    }
    n & (m - 1)
}

/// The smallest power of two not below `n`: 1 for 0 and 1.
pub fn round_up_pow2(n: u32) -> (r: u32)
    requires
        n <= 0x8000_0000,
    ensures
        is_power_of_two(r),
        n <= r,
        r == 1 || r / 2 < n,
{
    if n <= 1 {
        assert(1u32 == 1u32 << 0u32) by (bit_vector);
        return 1;
    }
    let p = highest_set_bit(n - 1);
    proof {
        let k = choose|k: u32| k < 32 && p == #[trigger] (1u32 << k);
        assert(k < 32 && p == 1u32 << k && p < 0x8000_0000u32 ==> p * 2 <= 0x8000_0000u32 && (p * 2)
            as u32 == 1u32 << ((k + 1) as u32) && (k + 1) < 32) by (bit_vector);
        assert(is_power_of_two((p * 2) as u32)) by {
            assert((p * 2) as u32 == 1u32 << ((k + 1) as u32));
        }
    }
    p * 2
}

/// The position of the lowest set bit of `n`, which is the number of zero bits below
/// it; 32 for zero.
pub fn lowest_set_bit_position(n: u32) -> (r: u32)
    ensures
        r <= 32,
        n == 0 <==> r == 32,
        r < 32 ==> bit(n, r),
        forall|j: u32| j < r ==> !#[trigger] bit(n, j),
{
    proof {
        vstd::std_specs::bits::axiom_u32_trailing_zeros(n);
    }
    n.trailing_zeros()
}

/// Swaps `a` and `b` by three exclusive ors, with no temporary.
pub fn xor_swap(a: &mut i32, b: &mut i32)
    ensures
        *final(a) == *old(b),
        *final(b) == *old(a),
{
    let x = *a;
    let y = *b;
    assert(((x ^ y) ^ (y ^ (x ^ y))) == y && (y ^ (x ^ y)) == x) by (bit_vector);
    *a = *a ^ *b;
    *b = *b ^ *a;
    *a = *a ^ *b;
}

/// Bit `2 * i` of `x`.
pub open spec fn even_bit(x: u32, i: u32) -> bool {
    bit(x, (2 * i) as u32)
}

/// Bit `2 * i + 1` of `x`.
pub open spec fn odd_bit(x: u32, i: u32) -> bool {
    bit(x, (2 * i + 1) as u32)
}

/// Spreads the 16 bits of `x` to the even bit positions of the result.
pub fn part1_by1(x: u16) -> (r: u32)
    ensures
        forall|i: u32|
            #![trigger even_bit(r, i)]
            #![trigger odd_bit(r, i)]
            i < 16 ==> even_bit(r, i) == ((x >> i) & 1 == 1) && !odd_bit(r, i),
{
    let mut v = x as u32;
    v = (v | (v << 8)) & 0x00FF00FF;
    v = (v | (v << 4)) & 0x0F0F0F0F;
    v = (v | (v << 2)) & 0x33333333;
    v = (v | (v << 1)) & 0x55555555;
    proof {
        let v0 = x as u32;
        let v1 = (v0 | (v0 << 8u32)) & 0x00FF00FFu32;
        let v2 = (v1 | (v1 << 4u32)) & 0x0F0F0F0Fu32;
        let v3 = (v2 | (v2 << 2u32)) & 0x33333333u32;
        assert(forall|i: u32| i < 16 ==> ((v >> ((2 * i) as u32)) & 1 == 1) == ((x >> i) & 1 == 1)
            && !((v >> ((2 * i + 1) as u32)) & 1 == 1)) by (bit_vector)
            requires
                v0 == x as u32,
                v1 == (v0 | (v0 << 8u32)) & 0x00FF00FFu32,
                v2 == (v1 | (v1 << 4u32)) & 0x0F0F0F0Fu32,
                v3 == (v2 | (v2 << 2u32)) & 0x33333333u32,
                v == (v3 | (v3 << 1u32)) & 0x55555555u32,
        ;
    }
    v
}

/// The Morton (Z-order) code of `(x, y)`: the bits of `x` and `y` interleaved, `x` in
/// the even positions.
pub fn morton_encode(x: u16, y: u16) -> (r: u32)
    ensures
        forall|i: u32|
            #![trigger even_bit(r, i)]
            #![trigger odd_bit(r, i)]
            i < 16 ==> even_bit(r, i) == ((x >> i) & 1 == 1) && odd_bit(r, i) == ((y >> i) & 1 == 1),
{
    let a = part1_by1(x);
    let b = part1_by1(y);
    let r = a | (b << 1);
    assert forall|i: u32|
        #![trigger even_bit(r, i)]
        #![trigger odd_bit(r, i)]
        i < 16 implies even_bit(r, i) == ((x >> i) & 1 == 1) && odd_bit(r, i) == ((y >> i) & 1 == 1) by {
        assert(!odd_bit(a, i) && even_bit(a, i) == ((x >> i) & 1 == 1) && even_bit(b, i) == ((y >> i) & 1 == 1));
        if i > 0 {
            assert(!odd_bit(b, (i - 1) as u32));
        }
        let e = (2 * i) as u32;
        let o = (2 * i + 1) as u32;
        let below = if i > 0 { (2 * i - 1) as u32 } else { 0 };
        assert(((r >> e) & 1 == 1) == ((a >> e) & 1 == 1) && ((r >> o) & 1 == 1) == ((b >> e) & 1 == 1))
            by (bit_vector)
            requires
                r == a | (b << 1u32),
                i < 16,
                e == 2 * i,
                o == 2 * i + 1,
                i > 0 ==> below == 2 * i - 1,
                !((a >> o) & 1 == 1),
                i == 0 || !((b >> below) & 1 == 1),
        ;
    }
    r
}

/// The Gray code of `n`: neighbouring numbers get codes that differ in one bit.
pub fn to_gray(n: u32) -> (r: u32)
    ensures
        r == n ^ (n >> 1),
{
    n ^ (n >> 1)
}

/// The number whose Gray code is `g`.
pub fn from_gray(g: u32) -> (r: u32)
    ensures
        r ^ (r >> 1) == g,
{
    let g0 = g;
    let mut g = g;
    let mut n = g;
    g = g >> 1;
    assert(n ^ (n >> 1) == g0 ^ g) by (bit_vector)
        requires
            n == g0,
            g == g0 >> 1u32,
    ;
    while g != 0
        invariant
            n ^ (n >> 1) == g0 ^ g,
        decreases g,
    {
        let n2 = n ^ g;
        let g2 = g >> 1;
        assert(n2 ^ (n2 >> 1) == g0 ^ g2 && (g != 0 ==> g2 < g)) by (bit_vector)
            requires
                n ^ (n >> 1) == g0 ^ g,
                n2 == n ^ g,
                g2 == g >> 1u32,
        ;
        n = n2;
        g = g2;
    }
    assert(g0 ^ 0 == g0) by (bit_vector);
    n
}

/// Decoding a Gray code gives back the number that was encoded.
pub proof fn law_gray_round_trip(n: u32, back: u32)
    requires
        back ^ (back >> 1) == n ^ (n >> 1),
    ensures
        back == n,
{
    assert(back ^ (back >> 1) == n ^ (n >> 1) ==> back == n) by (bit_vector);
}

// ------------------------------------------------------------------------------
// Bit-packed structures
// ------------------------------------------------------------------------------

/// Permission to read.
pub const READ: u8 = 1;
/// Permission to write.
pub const WRITE: u8 = 2;
/// Permission to execute.
pub const EXECUTE: u8 = 4;

/// A set of permission flags, one bit each.
pub struct Permissions(u8);

impl Permissions {
    /// The flags, as bits.
    pub closed spec fn flags(&self) -> u8 {
        self.0
    }

    /// No permission granted.
    pub fn new() -> (r: Self)
        ensures
            r.flags() == 0,
    {
        Permissions(0)
    }

    /// Grants the flags set in `flag`.
    pub fn grant(&mut self, flag: u8)
        ensures
            final(self).flags() == old(self).flags() | flag,
    {
        self.0 = self.0 | flag;
    }

    /// Takes back the flags set in `flag`.
    pub fn revoke(&mut self, flag: u8)
        ensures
            final(self).flags() == old(self).flags() & !flag,
    {
        self.0 = self.0 & !flag;
    }

    /// Whether every flag set in `flag` is granted.
    pub fn has(&self, flag: u8) -> (r: bool)
        ensures
            r == (self.flags() & flag == flag),
    {
        self.0 & flag == flag
    }

    /// Whether some flag set in `flags` is granted.
    pub fn has_any(&self, flags: u8) -> (r: bool)
        ensures
            r == (self.flags() & flags != 0),
    {
        self.0 & flags != 0
    }
}

/// A granted flag is held; a revoked one is held no more, not even in part.
pub proof fn law_grant_then_has(flags: u8, flag: u8)
    ensures
        (flags | flag) & flag == flag,
        flag != 0 ==> (flags & !flag) & flag == 0,
{
    assert((flags | flag) & flag == flag && (flag != 0 ==> (flags & !flag) & flag == 0)) by (bit_vector);
}

/// `hi` in the upper and `lo` in the lower half of a `u32`.
pub fn pack(hi: u16, lo: u16) -> (r: u32)
    ensures
        r == hi * 65536 + lo,
{
    let r = ((hi as u32) << 16) | (lo as u32);
    assert(r == hi * 65536 + lo) by (bit_vector)
        requires
            r == ((hi as u32) << 16u32) | (lo as u32),
    ;
    r
}

/// The upper and the lower half of `n`.
pub fn unpack(n: u32) -> (r: (u16, u16))
    ensures
        n == r.0 * 65536 + r.1,
{
    let r = ((n >> 16) as u16, n as u16);
    assert(n == ((n >> 16u32) as u16) * 65536 + (n as u16)) by (bit_vector);
    r
}

/// Unpacking a packed pair gives the pair back.
pub proof fn law_unpack_undoes_pack(hi: u16, lo: u16, packed: u32, back: (u16, u16))
    requires
        packed == hi * 65536 + lo,
        packed == back.0 * 65536 + back.1,
    ensures
        back == (hi, lo),
{
    assert(back.0 == hi && back.1 == lo) by (nonlinear_arith)
        requires
            hi * 65536 + lo == back.0 * 65536 + back.1,
            0 <= lo < 65536,
            0 <= back.1 < 65536,
    ;
}

/// The address `a.b.c.d` as one number.
pub fn ipv4_to_u32(a: u8, b: u8, c: u8, d: u8) -> (r: u32)
    ensures
        r == a * 16777216 + b * 65536 + c * 256 + d,
{
    let r = (a as u32) << 24 | (b as u32) << 16 | (c as u32) << 8 | d as u32;
    assert(r == a * 16777216 + b * 65536 + c * 256 + d) by (bit_vector)
        requires
            r == (a as u32) << 24u32 | (b as u32) << 16u32 | (c as u32) << 8u32 | d as u32,
    ;
    r
}

/// The four bytes of an address, most significant first.
pub fn u32_to_ipv4(ip: u32) -> (r: (u8, u8, u8, u8))
    ensures
        ip == r.0 * 16777216 + r.1 * 65536 + r.2 * 256 + r.3,
{
    assert(ip == ((ip >> 24u32) as u8) * 16777216 + ((ip >> 16u32) as u8) * 65536 + ((ip >> 8u32) as u8) * 256
        + (ip as u8)) by (bit_vector);
    ((ip >> 24) as u8, (ip >> 16) as u8, (ip >> 8) as u8, ip as u8)
}

/// The XOR of all elements.
pub open spec fn xor_all(s: Seq<i32>) -> i32
    decreases s.len(),
{
    if s.len() == 0 {
        0
    } else {
        xor_all(s.drop_last()) ^ s.last()
    }
}

/// The XOR of all elements: with every value appearing twice but one, that one.
pub fn find_unique(nums: &[i32]) -> (r: i32)
    ensures
        r == xor_all(nums@),
{
    let mut acc: i32 = 0;
    let mut i: usize = 0;
    while i < nums.len()
        invariant
            i <= nums@.len(),
            acc == xor_all(nums@.take(i as int)),
        decreases nums@.len() - i,
    {
        proof {
            assert(nums@.take(i + 1).drop_last() =~= nums@.take(i as int));
        }
        acc = acc ^ nums[i];
        i = i + 1;
    }
    proof {
        assert(nums@.take(i as int) =~= nums@);
    }
    acc
}

/// Appending a sequence to itself cancels under XOR.
pub proof fn law_xor_pairs_cancel(s: Seq<i32>, u: i32)
    ensures
        xor_all(s + s) == 0,
        xor_all(s + s + seq![u]) == u,
    decreases s.len(),
{
    lemma_xor_concat(s, s);
    assert(xor_all(s) ^ xor_all(s) == 0) by {
        let x = xor_all(s);
        assert(x ^ x == 0) by (bit_vector);
    }
    assert((s + s + seq![u]).drop_last() =~= s + s);
    assert(0i32 ^ u == u) by (bit_vector);
}

/// XOR over a concatenation is the XOR of the two parts.
proof fn lemma_xor_concat(a: Seq<i32>, b: Seq<i32>)
    ensures
        xor_all(a + b) == xor_all(a) ^ xor_all(b),
    decreases b.len(),
{
    if b.len() == 0 {
        assert(a + b =~= a);
        let x = xor_all(a);
        assert(x ^ 0 == x) by (bit_vector);
    } else {
        lemma_xor_concat(a, b.drop_last());
        assert((a + b).drop_last() =~= a + b.drop_last());
        let x = xor_all(a);
        let y = xor_all(b.drop_last());
        let z = b.last();
        assert((x ^ y) ^ z == x ^ (y ^ z)) by (bit_vector);
    }
}

/// The sum of the bytes of `s`.
pub open spec fn byte_sum(s: Seq<u8>) -> nat
    decreases s.len(),
{
    if s.len() == 0 {
        0
    } else {
        byte_sum(s.drop_last()) + s.last() as nat
    }
}

/// A 64-bit Bloom filter over byte strings, with two hash functions: the length and the
/// byte sum, each modulo 64.
pub struct BloomFilter {
    bits: u64,
}

impl BloomFilter {
    /// The bits set so far.
    pub closed spec fn bits(&self) -> u64 {
        self.bits
    }

    /// An empty filter.
    pub fn new() -> (r: Self)
        ensures
            r.bits() == 0,
    {
        BloomFilter { bits: 0 }
    }

    /// The first hash: the length modulo 64.
    pub fn hash1(s: &[u8]) -> (r: u64)
        ensures
            r == s@.len() % 64,
    {
        s.len() as u64 % 64
    }

    /// The second hash: the byte sum, as a `u8`, modulo 64.
    pub fn hash2(s: &[u8]) -> (r: u64)
        requires
            byte_sum(s@) < 256,
        ensures
            r == byte_sum(s@) % 64,
    {
        let mut sum: u8 = 0;
        let mut i: usize = 0;
        while i < s.len()
            invariant
                i <= s@.len(),
                byte_sum(s@) < 256,
                sum == byte_sum(s@.take(i as int)),
            decreases s@.len() - i,
        {
            proof {
                assert(s@.take(i + 1).drop_last() =~= s@.take(i as int));
                lemma_byte_sum_prefix(s@, i + 1);
            }
            sum = sum + s[i];
            i = i + 1;
        }
        proof {
            assert(s@.take(i as int) =~= s@);
        }
        sum as u64 % 64
    }

    /// Sets the two bits that `s` hashes to.
    pub fn insert(&mut self, s: &[u8])
        requires
            byte_sum(s@) < 256,
        ensures
            final(self).bits() == old(self).bits() | (1u64 << (s@.len() % 64) as u64) | (1u64 << (
            byte_sum(s@) % 64) as u64),
    {
        let h1 = Self::hash1(s);
        let h2 = Self::hash2(s);
        self.bits = self.bits | (1 << h1);
        self.bits = self.bits | (1 << h2);
    }

    /// False: `s` was certainly never inserted. True: it probably was.
    pub fn probably_contains(&self, s: &[u8]) -> (r: bool)
        requires
            byte_sum(s@) < 256,
        ensures
            r == (self.bits() & (1u64 << (s@.len() % 64) as u64) != 0 && self.bits() & (1u64 << (byte_sum(
                s@,
            ) % 64) as u64) != 0),
    {
        let b1: u64 = 1 << Self::hash1(s);
        let b2: u64 = 1 << Self::hash2(s);
        self.bits & b1 != 0 && self.bits & b2 != 0
    }
}

/// The bytes of a prefix sum to no more than all of them.
proof fn lemma_byte_sum_prefix(s: Seq<u8>, k: int)
    requires
        0 <= k <= s.len(),
    ensures
        byte_sum(s.take(k)) <= byte_sum(s),
    decreases s.len() - k,
{
    if k < s.len() {
        assert(s.take(k + 1).drop_last() =~= s.take(k));
        lemma_byte_sum_prefix(s, k + 1);
    } else {
        assert(s.take(k) =~= s);
    }
}

/// No false negatives: once the two bits of an element are set, later inserts only add
/// bits, and the element is reported as present.
pub proof fn law_bloom_no_false_negative(before: u64, h1: u64, h2: u64, later: u64)
    requires
        h1 < 64,
        h2 < 64,
    ensures
        ((before | (1u64 << h1) | (1u64 << h2)) | later) & (1u64 << h1) != 0,
        ((before | (1u64 << h1) | (1u64 << h2)) | later) & (1u64 << h2) != 0,
{
    assert(((before | (1u64 << h1) | (1u64 << h2)) | later) & (1u64 << h1) != 0
        && ((before | (1u64 << h1) | (1u64 << h2)) | later) & (1u64 << h2) != 0) by (bit_vector)
        requires
            h1 < 64,
            h2 < 64,
    ;
}

/// The number of set bits over all numbers from `lo` to `hi`.
pub open spec fn range_pop(lo: u32, hi: u32) -> nat
    decreases hi - lo,
{
    if hi < lo {
        0
    } else if hi == lo {
        pop_count(lo)
    } else {
        range_pop(lo, (hi - 1) as u32) + pop_count(hi)
    }
}

/// The number of set bits over all numbers from `lo` to `hi`, both included.
pub fn count_bits_in_range(lo: u32, hi: u32) -> (r: u32)
    requires
        range_pop(lo, hi) <= u32::MAX,
    ensures
        r == range_pop(lo, hi),
{
    if hi < lo {
        return 0;
    }
    let mut total: u32 = 0;
    let mut n: u32 = lo;
    loop
        invariant_except_break
            lo <= n <= hi,
            total + pop_count(n) == range_pop(lo, n),
        invariant
            range_pop(lo, hi) <= u32::MAX,
        ensures
            total == range_pop(lo, hi),
        decreases hi - n,
    {
        proof {
            lemma_range_pop_grows(lo, n, hi);
        }
        total = total + count_ones(n);
        if n == hi {
            break;
        }
        n = n + 1;
    }
    total
}

proof fn lemma_range_pop_grows(lo: u32, a: u32, b: u32)
    requires
        lo <= a <= b,
    ensures
        range_pop(lo, a) <= range_pop(lo, b),
    decreases b - a,
{
    if a < b {
        lemma_range_pop_grows(lo, a, (b - 1) as u32);
    }
}

/// The bytes of `val`, least significant first.
fn le_bytes(val: u32) -> (r: [u8; 4])
    ensures
        r@[0] == val % 256,
        r@[1] == (val / 256) % 256,
        r@[2] == (val / 65536) % 256,
        r@[3] == val / 16777216,
{
    [(val % 256) as u8, ((val / 256) % 256) as u8, ((val / 65536) % 256) as u8, (val / 16777216) as u8]
}

/// The number whose bytes, least significant first, are `b`.
fn from_le_bytes(b: [u8; 4]) -> (r: u32)
    ensures
        r == b@[0] + b@[1] * 256 + b@[2] * 65536 + b@[3] * 16777216,
{
    let b0 = b[0] as u32;
    let b1 = b[1] as u32;
    let b2 = b[2] as u32;
    let b3 = b[3] as u32;
    b0 + b1 * 256 + b2 * 65536 + b3 * 16777216
}

/// Writes `val` into `buf[offset .. offset + 4]`, least significant byte first.
pub fn write_u32_le(buf: &mut [u8], offset: usize, val: u32)
    requires
        offset + 4 <= old(buf)@.len(),
    ensures
        final(buf)@.len() == old(buf)@.len(),
        final(buf)@[offset as int] == val % 256,
        final(buf)@[offset + 1] == (val / 256) % 256,
        final(buf)@[offset + 2] == (val / 65536) % 256,
        final(buf)@[offset + 3] == val / 16777216,
        forall|k: int| 0 <= k < offset || offset + 4 <= k < final(buf)@.len() ==> final(buf)@[k] == old(buf)@[k],
{
    let bytes = le_bytes(val);
    buf[offset] = bytes[0];
    buf[offset + 1] = bytes[1];
    buf[offset + 2] = bytes[2];
    buf[offset + 3] = bytes[3];
}

/// Reads the number stored in `buf[offset .. offset + 4]`, least significant byte first.
pub fn read_u32_le(buf: &[u8], offset: usize) -> (r: u32)
    requires
        offset + 4 <= buf@.len(),
    ensures
        r == buf@[offset as int] + buf@[offset + 1] * 256 + buf@[offset + 2] * 65536 + buf@[offset + 3] * 16777216,
{
    from_le_bytes([buf[offset], buf[offset + 1], buf[offset + 2], buf[offset + 3]])
}

/// Reading back what `write_u32_le` wrote gives the value written.
pub proof fn law_read_after_write(val: u32, b0: u8, b1: u8, b2: u8, b3: u8)
    requires
        b0 == val % 256,
        b1 == (val / 256) % 256,
        b2 == (val / 65536) % 256,
        b3 == val / 16777216,
    ensures
        b0 + b1 * 256 + b2 * 65536 + b3 * 16777216 == val,
{
    assert(b0 + b1 * 256 + b2 * 65536 + b3 * 16777216 == val) by (nonlinear_arith)
        requires
            b0 == val % 256,
            b1 == (val / 256) % 256,
            b2 == (val / 65536) % 256,
            b3 == val / 16777216,
            val <= 0xffff_ffff,
    ;
}

} // verus!
