//! Floating-point values carried as bit patterns.
//!
//! Search statistics, priors, logits and ratings are IEEE-754 numbers. This crate
//! stores them as the integers that their bits spell, so that a value is moved,
//! compared and negated exactly. Arithmetic on them is supplied by the caller.

use vstd::prelude::*;

verus! {

/// An `f64` as its 64-bit pattern.
pub type Real = u64;

/// An `f32` as its 32-bit pattern.
pub type Real32 = u32;

/// The sign bit of a [`Real`].
pub const SIGN: u64 = 0x8000_0000_0000_0000;

/// Positive zero; [`SIGN`] itself is negative zero.
pub const ZERO: Real = 0;

/// One.
pub const ONE: Real = 0x3ff0_0000_0000_0000;

/// Positive infinity. A magnitude above it is not a number.
pub const INFINITY: Real = 0x7ff0_0000_0000_0000;

/// Negative infinity, below every other number.
pub const NEG_INFINITY: Real = 0xfff0_0000_0000_0000;

/// Zero as a [`Real32`].
pub const ZERO32: Real32 = 0;

/// One as a [`Real32`].
pub const ONE32: Real32 = 0x3f80_0000;

/// Minus one as a [`Real32`].
pub const MINUS_ONE32: Real32 = 0xbf80_0000;

/// The sign bit of a [`Real32`].
pub const SIGN32: u32 = 0x8000_0000;

/// The pattern without its sign bit.
pub open spec fn magnitude(x: Real) -> int {
    if x < SIGN {
        x as int
    } else {
        x - SIGN
    }
}

/// Whether the pattern is not a number.
pub open spec fn is_nan(x: Real) -> bool {
    magnitude(x) > INFINITY
}

/// The place of a pattern in the order of the numbers; both zeros sit at 0.
pub open spec fn rank(x: Real) -> int {
    if x < SIGN {
        x as int
    } else {
        SIGN - x
    }
}

/// `x > y` as floating point compares: false as soon as one side is not a number.
pub open spec fn greater(x: Real, y: Real) -> bool {
    !is_nan(x) && !is_nan(y) && rank(x) > rank(y)
}

/// Whether the pattern is one of the two zeros.
pub open spec fn is_zero(x: Real) -> bool {
    magnitude(x) == 0
}

/// The same number with the other sign.
pub open spec fn negated(x: Real) -> Real {
    if x < SIGN {
        (x + SIGN) as u64
    } else {
        (x - SIGN) as u64
    }
}

/// The same single-precision number with the other sign.
pub open spec fn negated32(x: Real32) -> Real32 {
    if x < SIGN32 {
        (x + SIGN32) as u32
    } else {
        (x - SIGN32) as u32
    }
}

/// Whether the pattern is not a number.
pub fn nan(x: Real) -> (r: bool)
    ensures
        r == is_nan(x),
{
    let m: u64 = if x < SIGN { x } else { x - SIGN };
    m > INFINITY
}

/// Whether the pattern is one of the two zeros.
pub fn zero(x: Real) -> (r: bool)
    ensures
        r == is_zero(x),
{
    x == ZERO || x == SIGN
}

/// Floating-point `x > y`.
pub fn gt(x: Real, y: Real) -> (r: bool)
    ensures
        r == greater(x, y),
{
    if nan(x) || nan(y) {
        false
    } else if x < SIGN {
        if y < SIGN {
            x > y
        } else {
            x > ZERO || y > SIGN
        }
    } else {
        y >= SIGN && x < y
    }
}

/// Floating-point `-x`.
pub fn neg(x: Real) -> (r: Real)
    ensures
        r == negated(x),
{
    if x < SIGN {
        x + SIGN
    } else {
        x - SIGN
    }
}

/// Floating-point `-x` in single precision.
pub fn neg32(x: Real32) -> (r: Real32)
    ensures
        r == negated32(x),
{
    if x < SIGN32 {
        x + SIGN32
    } else {
        x - SIGN32
    }
}

/// Negating twice gives the pattern back.
pub proof fn negation_is_an_involution(x: Real)
    ensures
        negated(negated(x)) == x,
{
}

/// Negation reverses the order of any two numbers.
pub proof fn negation_reverses_order(x: Real, y: Real)
    ensures
        greater(x, y) == greater(negated(y), negated(x)),
{
}

/// No pattern is greater than itself, and the relation is transitive.
pub proof fn greater_is_a_strict_order(x: Real, y: Real, z: Real)
    ensures
        !greater(x, x),
        greater(x, y) && greater(y, z) ==> greater(x, z),
{
}

/// Position `r` is where a left-to-right scan that keeps the first strictly greater
/// value ends: the first of the largest numbers, or 0 when nothing exceeds negative
/// infinity.
pub open spec fn is_argmax(xs: Seq<Real>, r: int) -> bool {
    if exists|i: int| 0 <= i < xs.len() && greater(#[trigger] xs[i], NEG_INFINITY) {
        is_peak(xs, r)
    } else {
        r == 0
    }
}

/// `xs[r]` exceeds negative infinity, nothing is greater, and everything that stands
/// before it is smaller or not a number.
pub open spec fn is_peak(xs: Seq<Real>, r: int) -> bool {
    &&& 0 <= r < xs.len()
    &&& greater(xs[r], NEG_INFINITY)
    &&& forall|i: int| 0 <= i < xs.len() ==> !greater(#[trigger] xs[i], xs[r])
    &&& forall|i: int| 0 <= i < r ==> is_nan(#[trigger] xs[i]) || greater(xs[r], xs[i])
}

/// The peak of a sequence is at one place only.
pub proof fn peak_is_unique(xs: Seq<Real>, r: int, s: int)
    requires
        is_peak(xs, r),
        is_peak(xs, s),
    ensures
        r == s,
{
    if r < s {
        assert(!greater(xs[s], xs[r]));
    } else if s < r {
        assert(!greater(xs[r], xs[s]));
    }
}

/// Index of the largest value, the first one on ties; values that are not numbers
/// never win.
pub fn argmax(xs: &[Real]) -> (bi: usize)
    ensures
        is_argmax(xs@, bi as int),
        xs@.len() > 0 ==> bi < xs@.len(),
{
    let mut bi: usize = 0;
    let mut bv: Real = NEG_INFINITY;
    let mut i: usize = 0;
    while i < xs.len()
        invariant
            0 <= i <= xs@.len(),
            bv == NEG_INFINITY ==> bi == 0 && forall|k: int|
                0 <= k < i ==> !greater(#[trigger] xs@[k], NEG_INFINITY),
            bv != NEG_INFINITY ==> {
                &&& bi < i
                &&& bv == xs@[bi as int]
                &&& is_peak(xs@.take(i as int), bi as int)
            },
        decreases xs@.len() - i,
    {
        let x = xs[i];
        let ghost before = xs@.take(i as int);
        let ghost after = xs@.take(i + 1);
        assert(forall|k: int| 0 <= k < i ==> after[k] == #[trigger] before[k]);
        assert(after[i as int] == x);
        assert(forall|k: int| 0 <= k < i ==> #[trigger] before[k] == xs@[k]);
        if gt(x, bv) {
            bv = x;
            bi = i;
            assert(is_peak(after, bi as int)) by {
                assert forall|k: int| 0 <= k < after.len() implies !greater(
                    #[trigger] after[k],
                    after[bi as int],
                ) by {
                    if k < i {
                        assert(after[k] == before[k]);
                    }
                }
                assert forall|k: int| 0 <= k < bi implies is_nan(#[trigger] after[k]) || greater(
                    after[bi as int],
                    after[k],
                ) by {
                    assert(after[k] == before[k]);
                }
            }
        } else if bv != NEG_INFINITY {
            assert(is_peak(after, bi as int)) by {
                assert(after[bi as int] == before[bi as int]);
                assert forall|k: int| 0 <= k < after.len() implies !greater(
                    #[trigger] after[k],
                    after[bi as int],
                ) by {
                    if k < i {
                        assert(after[k] == before[k]);
                    }
                }
                assert forall|k: int| 0 <= k < bi implies is_nan(#[trigger] after[k]) || greater(
                    after[bi as int],
                    after[k],
                ) by {
                    assert(after[k] == before[k]);
                }
            }
        }
        i += 1;
    }
    assert(xs@.take(i as int) =~= xs@);
    proof {
        if bv != NEG_INFINITY {
            assert(greater(xs@[bi as int], NEG_INFINITY));
        }
    }
    bi
}

// --- single precision --------------------------------------------------------

/// Positive infinity in single precision. A magnitude above it is not a number.
pub const INFINITY32: Real32 = 0x7f80_0000;

/// Negative infinity in single precision.
pub const NEG_INFINITY32: Real32 = 0xff80_0000;

/// Whether the pattern is not a number.
pub open spec fn is_nan32(x: Real32) -> bool {
    if x < SIGN32 {
        x > INFINITY32
    } else {
        x - SIGN32 > INFINITY32
    }
}

/// The place of a pattern in the order of the numbers; both zeros sit at 0.
pub open spec fn rank32(x: Real32) -> int {
    if x < SIGN32 {
        x as int
    } else {
        SIGN32 - x
    }
}

/// `x > y` as floating point compares.
pub open spec fn greater32(x: Real32, y: Real32) -> bool {
    !is_nan32(x) && !is_nan32(y) && rank32(x) > rank32(y)
}

/// `x <= y` as floating point compares.
pub open spec fn at_most32(x: Real32, y: Real32) -> bool {
    !is_nan32(x) && !is_nan32(y) && rank32(x) <= rank32(y)
}

fn nan32(x: Real32) -> (r: bool)
    ensures
        r == is_nan32(x),
{
    let m: u32 = if x < SIGN32 {
        x
    } else {
        x - SIGN32
    };
    m > INFINITY32
}

/// The place of a pattern in the order of the numbers.
fn place32(x: Real32) -> (r: i64)
    ensures
        r == rank32(x),
{
    if x < SIGN32 {
        x as i64
    } else {
        SIGN32 as i64 - x as i64
    }
}

/// Floating-point `x > y` in single precision.
pub fn gt32(x: Real32, y: Real32) -> (r: bool)
    ensures
        r == greater32(x, y),
{
    !nan32(x) && !nan32(y) && place32(x) > place32(y)
}

/// The power of two with the given exponent.
pub open spec fn power(e: nat) -> nat
    decreases e,
{
    if e == 0 {
        1
    } else {
        2 * power((e - 1) as nat)
    }
}

/// The single-precision number for a whole number `n` whose leading bit has place `e`: the
/// biased exponent, followed by the bits below the leading one.
pub open spec fn whole_bits(n: int, e: nat) -> int {
    (127 + e) * 0x80_0000 + (n - power(e)) * power((23 - e) as nat)
}

/// Place of the leading bit of a positive whole number.
pub open spec fn lead(n: int) -> nat
    decreases n,
{
    if n <= 1 {
        0
    } else {
        1 + lead(n / 2)
    }
}

/// The single-precision number for a whole number below two to the twenty-fourth.
pub open spec fn whole(n: int) -> int {
    if n == 0 {
        0
    } else {
        whole_bits(n, lead(n))
    }
}

proof fn lemma_lead(n: int, e: nat)
    requires
        power(e) <= n < 2 * power(e),
    ensures
        lead(n) == e,
    decreases e,
{
    if e > 0 {
        lemma_lead(n / 2, (e - 1) as nat);
        lemma_power_positive((e - 1) as nat);
    }
}

/// Different whole numbers have different single-precision numbers.
pub proof fn whole_numbers_differ(m: int, n: int)
    requires
        0 <= m < n < 0x100_0000,
    ensures
        whole(m) < whole(n),
{
    lemma_bracket(n);
    let b = lead(n);
    lemma_power_positive((23 - b) as nat);
    lemma_split(b);
    if m > 0 {
        lemma_bracket(m);
        let a = lead(m);
        lemma_power_positive((23 - a) as nat);
        lemma_split(a);
        if a == b {
            assert((m - power(a)) * power((23 - a) as nat) < (n - power(a)) * power(
                (23 - a) as nat,
            )) by (nonlinear_arith)
                requires
                    m - power(a) < n - power(a),
                    power((23 - a) as nat) >= 1,
            ;
        } else {
            if a > b {
                lemma_power_monotone((b + 1) as nat, a);
            }
            assert((m - power(a)) * power((23 - a) as nat) < power(a) * power((23 - a) as nat))
                by (nonlinear_arith)
                requires
                    m - power(a) < power(a),
                    power((23 - a) as nat) >= 1,
            ;
            assert(0 <= (n - power(b)) * power((23 - b) as nat)) by (nonlinear_arith)
                requires
                    0 <= n - power(b),
                    power((23 - b) as nat) >= 1,
            ;
        }
    } else {
        assert(0 <= (n - power(b)) * power((23 - b) as nat)) by (nonlinear_arith)
            requires
                0 <= n - power(b),
                power((23 - b) as nat) >= 1,
        ;
    }
}

/// The single-precision number for a whole number fits in a word.
pub proof fn whole_numbers_fit(n: int)
    requires
        0 <= n < 0x100_0000,
    ensures
        0 <= whole(n) < 0x8000_0000,
{
    if n > 0 {
        lemma_bracket(n);
        let e = lead(n);
        lemma_power_positive((23 - e) as nat);
        lemma_split(e);
        assert(0 <= (n - power(e)) * power((23 - e) as nat) < power(e) * power((23 - e) as nat))
            by (nonlinear_arith)
            requires
                0 <= n - power(e) < power(e),
                power((23 - e) as nat) >= 1,
        ;
    }
}

proof fn lemma_power_monotone(a: nat, b: nat)
    requires
        a <= b,
    ensures
        power(a) <= power(b),
    decreases b,
{
    if a < b {
        lemma_power_monotone(a, (b - 1) as nat);
        lemma_power_positive((b - 1) as nat);
    }
}

proof fn lemma_split(e: nat)
    requires
        e <= 23,
    ensures
        power(e) * power((23 - e) as nat) == 0x80_0000,
    decreases e,
{
    lemma_power_23();
    if e > 0 {
        lemma_split((e - 1) as nat);
        let p = power((e - 1) as nat);
        let q = power((23 - e) as nat);
        assert(power((24 - e) as nat) == 2 * q);
        assert((2 * p) * q == p * (2 * q)) by (nonlinear_arith);
        assert((23 - (e - 1)) as nat == (24 - e) as nat);
        assert(power(e) == 2 * p);
    } else {
        assert(power(e) == 1);
        assert((23 - e) as nat == 23);
    }
}

proof fn lemma_bracket(n: int)
    requires
        0 < n < 0x100_0000,
    ensures
        power(lead(n)) <= n < 2 * power(lead(n)),
        lead(n) <= 23,
    decreases n,
{
    if n > 1 {
        lemma_bracket(n / 2);
        if lead(n) > 23 {
            lemma_power_23();
            lemma_power_monotone(23, lead(n / 2));
            assert(lead(n / 2) == 23);
        }
    }
}

/// A whole number as a single-precision number.
pub fn whole32(n: u32) -> (x: Real32)
    requires
        n < 0x100_0000,
    ensures
        x == whole(n as int),
{
    if n == 0 {
        return ZERO32;
    }
    let mut e: u32 = 0;
    let mut top: u32 = 1;
    let mut scale: u32 = 0x80_0000;
    proof {
        lemma_power_23();
    }
    while e < 23 && 2 * top <= n
        invariant
            n < 0x100_0000,
            e <= 23,
            top == power(e as nat),
            top <= n,
            scale == power((23 - e) as nat),
            top * scale == 0x80_0000,
            power(23) == 0x80_0000,
            top <= 0x80_0000,
        decreases 23 - e,
    {
        proof {
            assert(power((23 - e) as nat) == 2 * power((22 - e) as nat));
            assert((2 * top) * (scale / 2) == top * scale) by (nonlinear_arith)
                requires
                    scale % 2 == 0,
            ;
            assert(2 * top <= 0x80_0000) by (nonlinear_arith)
                requires
                    (2 * top) * (scale / 2) == 0x80_0000,
                    scale / 2 >= 1,
                    top >= 0,
            ;
            lemma_power_positive((22 - e) as nat);
        }
        top = 2 * top;
        scale = scale / 2;
        e += 1;
    }
    proof {
        lemma_power_positive((23 - e) as nat);
        assert(n < 2 * top);
        assert((n - top) * scale < top * scale) by (nonlinear_arith)
            requires
                0 <= n - top < top,
                scale > 0,
        ;
        assert(0 <= (n - top) * scale) by (nonlinear_arith)
            requires
                0 <= n - top,
                scale > 0,
        ;
    }
    let x: u32 = (127 + e) * 0x80_0000 + (n - top) * scale;
    proof {
        lemma_lead(n as int, e as nat);
    }
    x
}

proof fn lemma_power_positive(e: nat)
    ensures
        power(e) >= 1,
    decreases e,
{
    if e > 0 {
        lemma_power_positive((e - 1) as nat);
    }
}

proof fn lemma_power_23()
    ensures
        power(23) == 0x80_0000,
{
    reveal_with_fuel(power, 24);
}

} // verus!
