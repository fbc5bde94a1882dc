//! Floating-point numbers by their bits, and the table of their texts.
//!
//! No floating-point operation is used here. A double is the integer of its 64
//! bits; its decimal text is looked up in a table that the caller fills.

use vstd::arithmetic::power2::{
    lemma2_to64, lemma2_to64_rest, lemma_pow2_adds, lemma_pow2_pos, lemma_pow2_unfold, pow2,
};
use vstd::prelude::*;

verus! {

/// Whether the double with these bits is finite: its exponent is not all ones.
pub open spec fn is_finite_double(bits: u64) -> bool {
    (bits / 0x10_0000_0000_0000) % 2048 != 2047
}

/// Whether the single with these bits is finite.
pub open spec fn is_finite_single(bits: u32) -> bool {
    (bits / 0x80_0000) % 256 != 255
}

/// Whether two doubles are equal as numbers: neither is NaN, and they have the
/// same bits or both are zero.
pub open spec fn doubles_equal(a: u64, b: u64) -> bool {
    &&& !is_nan(a)
    &&& !is_nan(b)
    &&& a == b || (a % 0x8000_0000_0000_0000 == 0 && b % 0x8000_0000_0000_0000 == 0)
}

/// Whether the double with these bits is not a number.
pub open spec fn is_nan(bits: u64) -> bool {
    !is_finite_double(bits) && bits % 0x10_0000_0000_0000 != 0
}

/// The magnitude of a finite double, in units of the smallest positive one.
pub open spec fn double_units(bits: u64) -> nat {
    let e = ((bits / 0x10_0000_0000_0000) % 2048) as nat;
    let m = (bits % 0x10_0000_0000_0000) as nat;
    if e == 0 {
        m
    } else {
        (0x10_0000_0000_0000 + m) * pow2((e - 1) as nat)
    }
}

/// The magnitude of a finite single, in units of the smallest positive double,
/// which is the smallest positive single divided by the 925th power of two.
pub open spec fn single_units(bits: u32) -> nat {
    let e = ((bits / 0x80_0000) % 256) as nat;
    let m = (bits % 0x80_0000) as nat;
    if e == 0 {
        m * pow2(925)
    } else {
        (0x80_0000 + m) * pow2((e - 1) as nat) * pow2(925)
    }
}

/// The number of the highest bit that is set in `m`.
pub open spec fn top_bit(m: nat) -> nat
    decreases m,
{
    if m <= 1 {
        0
    } else {
        1 + top_bit(m / 2)
    }
}

/// The bits of the double that a finite single widens to.
pub open spec fn widened(bits: u32) -> u64 {
    let sign = (bits / 0x8000_0000) as int;
    let e = ((bits / 0x80_0000) % 256) as int;
    let m = (bits % 0x80_0000) as int;
    let magnitude: int = if e == 0 && m == 0 {
        0
    } else if e == 0 {
        let k = top_bit(m as nat);
        (874 + k) * 0x10_0000_0000_0000 + (m - pow2(k)) * pow2((52 - k) as nat)
    } else {
        (e + 896) * 0x10_0000_0000_0000 + m * 0x2000_0000
    };
    (sign * 0x8000_0000_0000_0000 + magnitude) as u64
}

proof fn lemma_top_bit(m: nat)
    requires
        1 <= m,
    ensures
        pow2(top_bit(m)) <= m < 2 * pow2(top_bit(m)),
    decreases m,
{
    lemma2_to64();
    if m > 1 {
        lemma_top_bit(m / 2);
        lemma_pow2_unfold(top_bit(m));
    }
}

proof fn lemma_top_bit_bound(m: nat, n: nat)
    requires
        1 <= m < pow2(n),
    ensures
        top_bit(m) < n,
{
    lemma_top_bit(m);
    if top_bit(m) >= n {
        if top_bit(m) > n {
            vstd::arithmetic::power2::lemma_pow2_strictly_increases(n, top_bit(m));
        }
    }
}

/// The magnitude field of a widened single below the normal range fits in 52
/// bits.
proof fn lemma_subnormal(m: nat)
    requires
        1 <= m < 0x80_0000,
    ensures
        top_bit(m) < 23,
        pow2(top_bit(m)) <= m,
        0 <= (m - pow2(top_bit(m))) * pow2((52 - top_bit(m)) as nat) < 0x10_0000_0000_0000,
{
    lemma2_to64();
    lemma2_to64_rest();
    let k = top_bit(m);
    lemma_top_bit(m);
    lemma_top_bit_bound(m, 23);
    let p = pow2(k) as int;
    let q = pow2((52 - k) as nat) as int;
    lemma_pow2_adds(k, (52 - k) as nat);
    assert(p * q == 0x10_0000_0000_0000);
    lemma_pow2_pos((52 - k) as nat);
    assert(0 <= (m - p) * q < p * q) by (nonlinear_arith)
        requires
            0 <= m - p < p,
            q > 0,
    ;
}

/// Widening changes neither the sign nor the magnitude of a finite single.
pub proof fn lemma_widening_is_exact(bits: u32)
    requires
        is_finite_single(bits),
    ensures
        is_finite_double(widened(bits)),
        double_units(widened(bits)) == single_units(bits),
        widened(bits) / 0x8000_0000_0000_0000 == bits / 0x8000_0000,
{
    let sign = (bits / 0x8000_0000) as nat;
    let e = ((bits / 0x80_0000) % 256) as nat;
    let m = (bits % 0x80_0000) as nat;
    let w = widened(bits);
    lemma2_to64();
    lemma2_to64_rest();
    assert(sign <= 1);
    if e == 0 && m == 0 {
        assert(0 * pow2(925) == 0) by (nonlinear_arith);
    } else if e == 0 {
        let k = top_bit(m);
        lemma_top_bit(m);
        lemma_subnormal(m);
        let q = pow2((52 - k) as nat) as int;
        let f = (m - pow2(k)) * q;
        assert(w == sign * 0x8000_0000_0000_0000 + (874 + k) * 0x10_0000_0000_0000 + f);
        assert((w / 0x10_0000_0000_0000) % 2048 == 874 + k);
        assert(w % 0x10_0000_0000_0000 == f);
        lemma_pow2_adds(k, (52 - k) as nat);
        lemma_pow2_adds((52 - k) as nat, (873 + k) as nat);
        let p = pow2(k) as int;
        let r = pow2((873 + k) as nat) as int;
        assert((p * q + (m - p) * q) * r == m * (q * r)) by (nonlinear_arith);
    } else {
        assert(w == sign * 0x8000_0000_0000_0000 + (e + 896) * 0x10_0000_0000_0000 + m
            * 0x2000_0000);
        assert((w / 0x10_0000_0000_0000) % 2048 == e + 896);
        assert(w % 0x10_0000_0000_0000 == m * 0x2000_0000);
        lemma_pow2_adds((e - 1) as nat, 896);
        lemma_pow2_adds(29, 896);
        let a = pow2((e - 1) as nat) as int;
        let c = pow2(896) as int;
        assert(pow2(29) == 0x2000_0000);
        assert(((0x80_0000 + m) * 0x2000_0000) * (a * c) == (0x80_0000 + m) * a * (0x2000_0000 * c))
            by (nonlinear_arith);
    }
}

/// Whether the double with these bits is finite.
pub fn double_is_finite(bits: u64) -> (r: bool)
    ensures
        r == is_finite_double(bits),
{
    (bits / 0x10_0000_0000_0000) % 2048 != 2047
}

/// Whether the single with these bits is finite.
pub fn single_is_finite(bits: u32) -> (r: bool)
    ensures
        r == is_finite_single(bits),
{
    (bits / 0x80_0000) % 256 != 255
}

/// Whether two doubles are equal as numbers.
pub fn same_double(a: u64, b: u64) -> (r: bool)
    ensures
        r == doubles_equal(a, b),
{
    let a_nan: bool = !double_is_finite(a) && a % 0x10_0000_0000_0000 != 0;
    let b_nan: bool = !double_is_finite(b) && b % 0x10_0000_0000_0000 != 0;
    !a_nan && !b_nan && (a == b || (a % 0x8000_0000_0000_0000 == 0 && b % 0x8000_0000_0000_0000
        == 0))
}

/// The bits of the double that a finite single widens to.
pub fn widen(bits: u32) -> (r: u64)
    requires
        is_finite_single(bits),
    ensures
        r == widened(bits),
{
    let sign: u64 = (bits / 0x8000_0000) as u64;
    let e: u64 = ((bits / 0x80_0000) % 256) as u64;
    let m: u64 = (bits % 0x80_0000) as u64;
    let magnitude: u64 = if e == 0 && m == 0 {
        0
    } else if e == 0 {
        let mut k: u64 = 0;
        let mut rest: u64 = m;
        let mut low: u64 = 1;
        let mut high: u64 = 0x10_0000_0000_0000;
        proof {
            lemma2_to64();
            lemma2_to64_rest();
            lemma_subnormal(m as nat);
        }
        while rest > 1
            invariant
                1 <= m < 0x80_0000,
                1 <= rest <= m,
                k + top_bit(rest as nat) == top_bit(m as nat),
                top_bit(m as nat) < 23,
                low == pow2(k as nat),
                high == pow2((52 - k) as nat),
                low <= 0x80_0000,
            decreases rest,
        {
            proof {
                lemma2_to64();
                lemma2_to64_rest();
                lemma_pow2_unfold((k + 1) as nat);
                lemma_pow2_unfold((52 - k) as nat);
                if k + 1 < 23 {
                    vstd::arithmetic::power2::lemma_pow2_strictly_increases((k + 1) as nat, 23);
                }
            }
            rest = rest / 2;
            k = k + 1;
            low = low * 2;
            high = high / 2;
        }
        assert(top_bit(rest as nat) == 0);
        (874 + k) * 0x10_0000_0000_0000 + (m - low) * high
    } else {
        (e + 896) * 0x10_0000_0000_0000 + m * 0x2000_0000
    };
    sign * 0x8000_0000_0000_0000 + magnitude
}

/// A whole number held to the range of an `i64`.
pub open spec fn held_to_i64(n: int) -> i64 {
    if n < i64::MIN {
        i64::MIN
    } else if n > i64::MAX {
        i64::MAX
    } else {
        n as i64
    }
}

/// The whole number nearest to the magnitude of a finite double, the larger one
/// halfway between two.
pub open spec fn nearest_whole(bits: u64) -> nat {
    (2 * double_units(bits) + pow2(1074)) / pow2(1075)
}

/// The whole number nearest to a double, away from zero halfway between two, held
/// to the range of an `i64`; 0 for what is not a number.
pub open spec fn rounded(bits: u64) -> i64 {
    let negative = bits >= 0x8000_0000_0000_0000;
    if is_nan(bits) {
        0
    } else if !is_finite_double(bits) {
        if negative {
            i64::MIN
        } else {
            i64::MAX
        }
    } else if negative {
        held_to_i64(-(nearest_whole(bits) as int))
    } else {
        held_to_i64(nearest_whole(bits) as int)
    }
}

fn power_of_two(n: u64) -> (r: u64)
    requires
        n < 64,
    ensures
        r == pow2(n as nat),
{
    let mut r: u64 = 1;
    let mut i: u64 = 0;
    proof {
        lemma2_to64();
    }
    while i < n
        invariant
            i <= n < 64,
            r == pow2(i as nat),
        decreases n - i,
    {
        proof {
            lemma2_to64_rest();
            lemma_pow2_unfold((i + 1) as nat);
            if i + 1 < 63 {
                vstd::arithmetic::power2::lemma_pow2_strictly_increases((i + 1) as nat, 63);
            }
        }
        r = r * 2;
        i = i + 1;
    }
    r
}

/// A double of at least 1 unit in its last place is whole.
proof fn lemma_nearest_large(m: nat, k: nat)
    ensures
        (2 * (m * pow2(1074 + k)) + pow2(1074)) / pow2(1075) == m * pow2(k),
{
    lemma_pow2_adds(1074, k);
    lemma_pow2_unfold(1075);
    lemma_pow2_pos(1074);
    let one = pow2(1074) as int;
    let p = pow2(k) as int;
    let n = m as int;
    assert(2 * (n * (one * p)) == (n * p) * (2 * one)) by (nonlinear_arith);
    vstd::arithmetic::div_mod::lemma_fundamental_div_mod_converse(
        (n * p) * (2 * one) + one,
        2 * one,
        n * p,
        one,
    );
}

/// A double below that is cut to whole numbers.
proof fn lemma_nearest_small(m: nat, s: nat)
    requires
        1 <= s <= 1074,
    ensures
        (2 * (m * pow2((1074 - s) as nat)) + pow2(1074)) / pow2(1075) == (m + pow2(
            (s - 1) as nat,
        )) / pow2(s),
{
    let q = pow2((1075 - s) as nat) as int;
    lemma_pow2_unfold((1075 - s) as nat);
    lemma_pow2_adds((1075 - s) as nat, s);
    lemma_pow2_adds((1075 - s) as nat, (s - 1) as nat);
    lemma_pow2_pos((1075 - s) as nat);
    lemma_pow2_pos(s);
    let half = pow2((s - 1) as nat) as int;
    let small = pow2((1074 - s) as nat) as int;
    let n = m as int;
    assert(2 * (n * small) + q * half == q * (n + half)) by (nonlinear_arith)
        requires
            q == 2 * small,
    ;
    vstd::arithmetic::div_mod::lemma_div_denominator(q * (n + half), q, pow2(s) as int);
    vstd::arithmetic::div_mod::lemma_div_multiples_vanish(n + half, q);
    assert((q * (n + half)) / q == n + half);
}

/// The whole number nearest to a double.
pub fn round_double(bits: u64) -> (r: i64)
    ensures
        r == rounded(bits),
{
    let negative: bool = bits >= 0x8000_0000_0000_0000;
    let e: u64 = (bits / 0x10_0000_0000_0000) % 2048;
    let f: u64 = bits % 0x10_0000_0000_0000;
    if e == 2047 {
        return if f != 0 {
            0
        } else if negative {
            i64::MIN
        } else {
            i64::MAX
        };
    }
    let m: u64 = if e == 0 {
        f
    } else {
        0x10_0000_0000_0000 + f
    };
    // The exponent of the last place, counted from that of the smallest double.
    let k: u64 = if e == 0 {
        0
    } else {
        e - 1
    };
    proof {
        lemma2_to64();
        lemma2_to64_rest();
        assert(double_units(bits) == m * pow2(k as nat)) by {
            assert(m * pow2(0) == m) by (nonlinear_arith)
                requires
                    pow2(0) == 1,
            ;
        }
    }
    if k >= 1085 {
        proof {
            let extra = (k - 1074) as nat;
            lemma_nearest_large(m as nat, extra);
            if extra > 11 {
                vstd::arithmetic::power2::lemma_pow2_strictly_increases(11, extra);
            }
            assert(m * pow2(extra) >= 0x8000_0000_0000_0000) by (nonlinear_arith)
                requires
                    m >= 0x10_0000_0000_0000,
                    pow2(extra) >= 2048,
            ;
        }
        return if negative {
            i64::MIN
        } else {
            i64::MAX
        };
    }
    let magnitude: u64 = if k >= 1074 {
        let p: u64 = power_of_two(k - 1074);
        proof {
            let extra = (k - 1074) as nat;
            lemma_nearest_large(m as nat, extra);
            if extra < 10 {
                vstd::arithmetic::power2::lemma_pow2_strictly_increases(extra, 10);
            }
            assert(m * p < 0x8000_0000_0000_0000) by (nonlinear_arith)
                requires
                    m < 0x20_0000_0000_0000,
                    p <= 1024,
            ;
        }
        m * p
    } else {
        let s: u64 = 1074 - k;
        proof {
            lemma_nearest_small(m as nat, s as nat);
        }
        if s > 53 {
            proof {
                let half = pow2((s - 1) as nat);
                lemma_pow2_unfold(s as nat);
                if s - 1 > 53 {
                    vstd::arithmetic::power2::lemma_pow2_strictly_increases(53, (s - 1) as nat);
                }
                vstd::arithmetic::div_mod::lemma_basic_div(
                    (m + half) as int,
                    pow2(s as nat) as int,
                );
            }
            0
        } else {
            let half: u64 = power_of_two(s - 1);
            proof {
                if s - 1 < 52 {
                    vstd::arithmetic::power2::lemma_pow2_strictly_increases((s - 1) as nat, 52);
                }
            }
            let one: u64 = power_of_two(s);
            proof {
                lemma_pow2_pos(s as nat);
                assert((m + half) / one as int <= m + half) by (nonlinear_arith)
                    requires
                        one >= 1,
                        m + half >= 0,
                ;
            }
            (m + half) / one
        }
    };
    if negative {
        -(magnitude as i64)
    } else {
        magnitude as i64
    }
}

/// The place of a double in the order of all doubles: by value, the negative zero
/// before the positive one, and what is not a number at the two ends.
pub open spec fn total_rank(bits: u64) -> int {
    if bits < 0x8000_0000_0000_0000 {
        bits as int
    } else {
        -1 - (bits - 0x8000_0000_0000_0000)
    }
}

/// The place of a double in the order of all doubles.
pub fn rank_double(bits: u64) -> (r: i128)
    ensures
        r == total_rank(bits),
{
    if bits < 0x8000_0000_0000_0000 {
        bits as i128
    } else {
        -1 - (bits - 0x8000_0000_0000_0000) as i128
    }
}

/// The texts of doubles, each with the bits of the double.
pub struct FloatTexts {
    pub entries: Vec<(u64, String)>,
}

/// The text that a table gives for a double: that of the first entry with
/// these bits.
pub open spec fn found_text(entries: Seq<(u64, Seq<char>)>, bits: u64) -> Option<Seq<char>>
    decreases entries.len(),
{
    if entries.len() == 0 {
        None
    } else if entries[0].0 == bits {
        Some(entries[0].1)
    } else {
        found_text(entries.drop_first(), bits)
    }
}

/// The text of a double, no characters where the table has none.
pub open spec fn float_text(entries: Seq<(u64, Seq<char>)>, bits: u64) -> Seq<char> {
    match found_text(entries, bits) {
        Some(text) => text,
        None => seq![],
    }
}

impl View for FloatTexts {
    type V = Seq<(u64, Seq<char>)>;

    open spec fn view(&self) -> Seq<(u64, Seq<char>)> {
        self.entries@.map_values(|e: (u64, String)| (e.0, e.1@))
    }
}

impl FloatTexts {
    /// The text that the table gives for a double.
    pub fn find(&self, bits: u64) -> (r: Option<String>)
        ensures
            match r {
                Some(text) => found_text(self@, bits) == Some(text@),
                None => found_text(self@, bits) is None,
            },
    {
        let mut i: usize = 0;
        assert(self@.skip(0) == self@);
        while i < self.entries.len()
            invariant
                i <= self.entries.len(),
                found_text(self@, bits) == found_text(self@.skip(i as int), bits),
            decreases self.entries.len() - i,
        {
            proof {
                assert(self@.skip(i as int)[0] == self@[i as int]);
                assert(self@.skip(i as int).drop_first() == self@.skip(i + 1));
            }
            if self.entries[i].0 == bits {
                return Some(self.entries[i].1.clone());
            }
            i += 1;
        }
        None
    }

    /// The text of a double, no characters where the table has none.
    pub fn lookup(&self, bits: u64) -> (r: String)
        ensures
            r@ == float_text(self@, bits),
    {
        match self.find(bits) {
            Some(text) => text,
            None => String::new(),
        }
    }
}

} // verus!
