//! Binary floating-point values held exactly by their IEEE 754 bit patterns:
//! what a pattern stands for, how two of them compare, and how an `f32` is
//! written with a fixed number of decimals.
//!
//! Every finite binary32 or binary64 value is `±mant * 2^exp` for whole
//! numbers `mant` and `exp`, so nothing here is rounded: comparisons and
//! decimal expansions are computed on those integers.
use vstd::prelude::*;
use crate::text::{decimal, digit_char, pow10, push_decimal, push_str};
use vstd::arithmetic::power2::{
    lemma2_to64, lemma_pow2_adds, lemma_pow2_pos, lemma_pow2_strictly_increases, lemma_pow2_unfold,
    pow2,
};

verus! {

/// What a bit pattern stands for.
pub enum FloatView {
    Nan,
    Inf { neg: bool },
    /// `±mant * 2^exp`; zero when `mant` is zero, with its sign kept.
    Fin { neg: bool, mant: nat, exp: int },
}

/// The value of an IEEE 754 binary32 bit pattern: sign bit, 8 exponent bits
/// biased by 127, 23 fraction bits.
pub open spec fn f32_view(b: u32) -> FloatView {
    let neg = b >= 0x8000_0000;
    let e = (b / 0x80_0000) % 0x100;
    let f = b % 0x80_0000;
    if e == 0xff {
        if f == 0 {
            FloatView::Inf { neg }
        } else {
            FloatView::Nan
        }
    } else if e == 0 {
        FloatView::Fin { neg, mant: f as nat, exp: -149 }
    } else {
        FloatView::Fin { neg, mant: (f + 0x80_0000) as nat, exp: e - 150 }
    }
}

/// The value of an IEEE 754 binary64 bit pattern: sign bit, 11 exponent bits
/// biased by 1023, 52 fraction bits.
pub open spec fn f64_view(b: u64) -> FloatView {
    let neg = b >= 0x8000_0000_0000_0000;
    let e = (b / 0x10_0000_0000_0000) % 0x800;
    let f = b % 0x10_0000_0000_0000;
    if e == 0x7ff {
        if f == 0 {
            FloatView::Inf { neg }
        } else {
            FloatView::Nan
        }
    } else if e == 0 {
        FloatView::Fin { neg, mant: f as nat, exp: -1074 }
    } else {
        FloatView::Fin { neg, mant: (f + 0x10_0000_0000_0000) as nat, exp: e - 1075 }
    }
}

/// How many halvings bring `n` below `2^53`.
pub open spec fn f64_shift(n: nat) -> nat
    decreases n,
{
    if n < 0x20_0000_0000_0000 {
        0
    } else {
        1 + f64_shift(n / 2)
    }
}

/// `x / 2^k`, rounded to nearest with ties to even.
pub open spec fn round_shift(x: nat, k: nat) -> nat {
    let p = pow2(k);
    let q = x / p;
    let r = x % p;
    if 2 * r > p || (2 * r == p && q % 2 == 1) {
        q + 1
    } else {
        q
    }
}

/// `n as f64`: the nearest binary64 value, ties to even.
pub open spec fn u64_as_f64(n: u64) -> FloatView {
    let s = f64_shift(n as nat);
    FloatView::Fin { neg: false, mant: round_shift(n as nat, s), exp: s as int }
}

/// A number as the threshold checks hold it: a whole number converted to
/// `f64`, or the bits of an `f32` or of an `f64`.
#[derive(Debug, Clone, Copy)]
pub enum Num {
    U64(u64),
    F32(u32),
    F64(u64),
}

pub open spec fn num_view(n: Num) -> FloatView {
    match n {
        Num::U64(x) => u64_as_f64(x),
        Num::F32(b) => f32_view(b),
        Num::F64(b) => f64_view(b),
    }
}

/// `±mant * 2^(exp - e0)` as an integer, for `e0 <= exp`.
pub open spec fn signed_scaled(neg: bool, mant: nat, exp: int, e0: int) -> int {
    let a: int = (mant * pow2((exp - e0) as nat)) as int;
    if neg {
        -a
    } else {
        a
    }
}

/// `x > y` as IEEE 754 compares: false where either is NaN, infinities
/// beyond every finite value, zeros equal whatever their sign, and finite
/// values by their exact value.
pub open spec fn float_gt(x: FloatView, y: FloatView) -> bool {
    match x {
        FloatView::Nan => false,
        FloatView::Inf { neg: nx } => match y {
            FloatView::Nan => false,
            FloatView::Inf { neg: ny } => !nx && ny,
            FloatView::Fin { .. } => !nx,
        },
        FloatView::Fin { neg: n1, mant: m1, exp: e1 } => match y {
            FloatView::Nan => false,
            FloatView::Inf { neg: ny } => ny,
            FloatView::Fin { neg: n2, mant: m2, exp: e2 } => {
                let e0 = if e1 < e2 {
                    e1
                } else {
                    e2
                };
                signed_scaled(n1, m1, e1, e0) > signed_scaled(n2, m2, e2, e0)
            },
        },
    }
}

/// Whole numbers below `2^53` convert to `f64` exactly, so they compare as
/// whole numbers.
pub proof fn lemma_whole_gt(x: u64, y: u64)
    requires
        x < 0x20_0000_0000_0000,
        y < 0x20_0000_0000_0000,
    ensures
        float_gt(num_view(Num::U64(x)), num_view(Num::U64(y))) == (x > y),
        num_view(Num::U64(x)) == (FloatView::Fin { neg: false, mant: x as nat, exp: 0 }),
{
    lemma2_to64();
    assert(f64_shift(x as nat) == 0);
    assert(f64_shift(y as nat) == 0);
    assert(round_shift(x as nat, 0) == x);
    assert(round_shift(y as nat, 0) == y);
    let z: nat = (0int - 0int) as nat;
    assert(z == 0);
    assert(pow2(z) == 1);
    assert(x * pow2(z) == x) by (nonlinear_arith)
        requires
            pow2(z) == 1,
    ;
    assert(y * pow2(z) == y) by (nonlinear_arith)
        requires
            pow2(z) == 1,
    ;
}

/// `2^k` for `k < 128`.
fn pow2_u128(k: u32) -> (r: u128)
    requires
        k < 128,
    ensures
        r == pow2(k as nat),
{
    let mut r: u128 = 1;
    let mut i: u32 = 0;
    proof {
        lemma2_to64();
    }
    while i < k
        invariant
            i <= k < 128,
            r == pow2(i as nat),
        decreases k - i,
    {
        proof {
            lemma_pow2_unfold((i + 1) as nat);
            lemma_pow2_strictly_increases((i + 1) as nat, 128);
            lemma_pow2_adds(64, 64);
            lemma2_to64();
        }
        r = r * 2;
        i = i + 1;
    }
    r
}

/// A decoded value: `kind` 0 for NaN, 1 for an infinity, 2 for a finite
/// `±mant * 2^exp`.
struct Parts {
    kind: u8,
    neg: bool,
    mant: u64,
    exp: i32,
}

spec fn parts_view(p: Parts) -> FloatView {
    if p.kind == 0 {
        FloatView::Nan
    } else if p.kind == 1 {
        FloatView::Inf { neg: p.neg }
    } else {
        FloatView::Fin { neg: p.neg, mant: p.mant as nat, exp: p.exp as int }
    }
}

spec fn parts_ok(p: Parts) -> bool {
    &&& p.kind <= 2
    &&& -1100 <= p.exp <= 1100
}

fn decode_f32(b: u32) -> (p: Parts)
    ensures
        parts_view(p) == f32_view(b),
        parts_ok(p),
        p.kind == 2 ==> p.mant < 0x100_0000 && -149 <= p.exp <= 104,
{
    let neg = b >= 0x8000_0000;
    let e = (b / 0x80_0000) % 0x100;
    let f = b % 0x80_0000;
    if e == 0xff {
        Parts { kind: if f == 0 { 1 } else { 0 }, neg, mant: 0, exp: 0 }
    } else if e == 0 {
        Parts { kind: 2, neg, mant: f as u64, exp: -149 }
    } else {
        Parts { kind: 2, neg, mant: (f + 0x80_0000) as u64, exp: e as i32 - 150 }
    }
}

fn decode_f64(b: u64) -> (p: Parts)
    ensures
        parts_view(p) == f64_view(b),
        parts_ok(p),
{
    let neg = b >= 0x8000_0000_0000_0000;
    let e = (b / 0x10_0000_0000_0000) % 0x800;
    let f = b % 0x10_0000_0000_0000;
    if e == 0x7ff {
        Parts { kind: if f == 0 { 1 } else { 0 }, neg, mant: 0, exp: 0 }
    } else if e == 0 {
        Parts { kind: 2, neg, mant: f, exp: -1074 }
    } else {
        Parts { kind: 2, neg, mant: f + 0x10_0000_0000_0000, exp: e as i32 - 1075 }
    }
}

/// `(x / 2^s) / 2 == x / 2^(s + 1)`.
proof fn lemma_halve(x: nat, s: nat)
    ensures
        (x / pow2(s)) / 2 == x / pow2(s + 1),
{
    lemma_pow2_pos(s);
    lemma_pow2_unfold(s + 1);
    vstd::arithmetic::div_mod::lemma_div_denominator(x as int, pow2(s) as int, 2);
    assert(pow2(s) * 2 == pow2(s + 1));
}

proof fn lemma_f64_shift_small(n: nat)
    requires
        n < pow2(64),
    ensures
        f64_shift(n) <= 11,
        n / pow2(f64_shift(n)) < 0x20_0000_0000_0000,
    decreases 64nat,
{
    lemma2_to64();
    lemma_shift_steps(n, 0);
}

/// Following `f64_shift` from `n / 2^s` on.
proof fn lemma_shift_steps(n: nat, s: nat)
    requires
        n < pow2(64),
        s <= 11,
        f64_shift(n) == s + f64_shift(n / pow2(s)),
    ensures
        f64_shift(n) <= 11,
        n / pow2(f64_shift(n)) < 0x20_0000_0000_0000,
    decreases 12 - s,
{
    lemma2_to64();
    lemma_pow2_pos(s);
    let m = n / pow2(s);
    if m < 0x20_0000_0000_0000 {
    } else {
        lemma_halve(n, s);
        if s == 11 {
            // n / 2^11 >= 2^53 would make n >= 2^64
            lemma_pow2_adds(11, 53);
            assert(pow2(11) == 0x800);
            assert(m >= 0x20_0000_0000_0000);
            vstd::arithmetic::div_mod::lemma_fundamental_div_mod(n as int, pow2(11) as int);
            assert(n >= pow2(11) * m) by (nonlinear_arith)
                requires
                    n == pow2(11) * m + n % pow2(11),
                    n % pow2(11) >= 0,
            ;
            assert(pow2(11) * m >= 0x800 * 0x20_0000_0000_0000) by (nonlinear_arith)
                requires
                    pow2(11) == 0x800,
                    m >= 0x20_0000_0000_0000,
            ;
            assert(false);
        } else {
            lemma_shift_steps(n, s + 1);
        }
    }
}

fn decode_u64(n: u64) -> (p: Parts)
    ensures
        parts_view(p) == u64_as_f64(n),
        parts_ok(p),
{
    let mut m: u64 = n;
    let mut s: u32 = 0;
    proof {
        lemma2_to64();
        lemma_f64_shift_small(n as nat);
    }
    while m >= 0x20_0000_0000_0000
        invariant
            m as nat == (n as nat) / pow2(s as nat),
            s + f64_shift(m as nat) == f64_shift(n as nat),
            f64_shift(n as nat) <= 11,
        decreases m,
    {
        proof {
            lemma_halve(n as nat, s as nat);
        }
        m = m / 2;
        s = s + 1;
    }
    let p = pow2_u128(s) as u64;
    let r = n % p;
    let q = m;
    proof {
        lemma_pow2_pos(s as nat);
        assert(q == (n as nat) / pow2(s as nat));
    }
    let rounded = if 2 * (r as u128) > p as u128 || (2 * (r as u128) == p as u128 && q % 2 == 1) {
        q + 1
    } else {
        q
    };
    Parts { kind: 2, neg: false, mant: rounded, exp: s as i32 }
}

fn decode(n: &Num) -> (p: Parts)
    ensures
        parts_view(p) == num_view(*n),
        parts_ok(p),
{
    match n {
        Num::U64(x) => decode_u64(*x),
        Num::F32(b) => decode_f32(*b),
        Num::F64(b) => decode_f64(*b),
    }
}

/// Compares `m1 * 2^e1` with `m2 * 2^e2`: 1, 0 or -1.
#[verifier::spinoff_prover]
#[verifier::rlimit(40)]
fn mag_order(m1: u64, e1: i32, m2: u64, e2: i32) -> (c: i8)
    requires
        -1100 <= e1 <= 1100,
        -1100 <= e2 <= 1100,
    ensures
        ({
            let e0 = if e1 < e2 {
                e1 as int
            } else {
                e2 as int
            };
            let a = m1 * pow2((e1 - e0) as nat);
            let b = m2 * pow2((e2 - e0) as nat);
            &&& c == 1 <==> a > b
            &&& c == 0 <==> a == b
            &&& c == -1 <==> a < b
        }),
    decreases (if e1 >= e2 {
        0int
    } else {
        1int
    }),
{
    proof {
        lemma2_to64();
    }
    if e1 >= e2 {
        let d = (e1 - e2) as u32;
        proof {
            assert(pow2(0) == 1);
            lemma_pow2_pos(d as nat);
        }
        if m1 == 0 {
            return if m2 == 0 {
                0
            } else {
                -1
            };
        }
        if d >= 64 {
            proof {
                if d > 64 {
                    lemma_pow2_strictly_increases(64, d as nat);
                }
                let p = pow2(d as nat);
                assert(m1 * p >= p) by (nonlinear_arith)
                    requires
                        m1 >= 1,
                        p >= 1,
                ;
            }
            return 1;
        }
        let pd = pow2_u128(d);
        proof {
            lemma_pow2_strictly_increases(d as nat, 64);
            assert(m1 * pd <= 0xffff_ffff_ffff_ffffu128 * 0xffff_ffff_ffff_ffffu128) by (nonlinear_arith)
                requires
                    m1 <= 0xffff_ffff_ffff_ffffu128,
                    pd <= 0xffff_ffff_ffff_ffffu128,
            ;
        }
        let a: u128 = m1 as u128 * pd;
        if a > m2 as u128 {
            1
        } else if a == m2 as u128 {
            0
        } else {
            -1
        }
    } else {
        let c = mag_order(m2, e2, m1, e1);
        if c == 1 {
            -1
        } else if c == 0 {
            0
        } else {
            1
        }
    }
}

/// `a > b` as IEEE 754 compares the two values (`float_gt`).
#[verifier::spinoff_prover]
#[verifier::rlimit(40)]
pub fn num_gt(a: &Num, b: &Num) -> (r: bool)
    ensures
        r == float_gt(num_view(*a), num_view(*b)),
{
    let x = decode(a);
    let y = decode(b);
    if x.kind == 0 || y.kind == 0 {
        return false;
    }
    if x.kind == 1 {
        return if y.kind == 1 {
            !x.neg && y.neg
        } else {
            !x.neg
        };
    }
    if y.kind == 1 {
        return y.neg;
    }
    let c = mag_order(x.mant, x.exp, y.mant, y.exp);
    let ghost e0: int = if x.exp < y.exp {
        x.exp as int
    } else {
        y.exp as int
    };
    let ghost sa = signed_scaled(x.neg, x.mant as nat, x.exp as int, e0);
    let ghost sb = signed_scaled(y.neg, y.mant as nat, y.exp as int, e0);
    proof {
        let pa = pow2((x.exp - e0) as nat);
        let pb = pow2((y.exp - e0) as nat);
        lemma_pow2_pos((x.exp - e0) as nat);
        lemma_pow2_pos((y.exp - e0) as nat);
        let ma = x.mant as nat;
        let mb = y.mant as nat;
        assert(ma * pa >= 0 && mb * pb >= 0) by (nonlinear_arith)
            requires
                pa > 0,
                pb > 0,
        ;
        assert(ma > 0 ==> ma * pa > 0) by (nonlinear_arith)
            requires
                pa > 0,
        ;
        assert(ma == 0 ==> ma * pa == 0) by (nonlinear_arith);
        assert(mb == 0 ==> mb * pb == 0) by (nonlinear_arith);
    }
    if !x.neg && !y.neg {
        c == 1
    } else if x.neg && y.neg {
        c == -1
    } else if !x.neg {
        // a >= 0 >= b: greater unless both are zero
        c != 0 || x.mant != 0
    } else {
        assert(sa <= 0 && sb >= 0);
        false
    }
}


// ---------------------------------------------------------------------------
// Writing an `f32` with a fixed number of decimals
// ---------------------------------------------------------------------------

/// The last `d` decimal digits of `n`, zero-padded.
pub open spec fn digits_fixed(n: nat, d: nat) -> Seq<char>
    decreases d,
{
    if d == 0 {
        Seq::empty()
    } else {
        digits_fixed(n / 10, (d - 1) as nat) + seq![digit_char(n % 10)]
    }
}

/// `mant * 2^exp` times `10^d`, rounded to a whole number, to nearest with
/// ties to even.
pub open spec fn scaled_decimals(mant: nat, exp: int, d: nat) -> nat {
    let x = mant * pow10(d);
    if exp >= 0 {
        x * pow2(exp as nat)
    } else {
        round_shift(x, (-exp) as nat)
    }
}

/// A value written with `d` decimals as `{:.d}` writes a float: the exact
/// value rounded to nearest with ties to even, a `-` for a negative sign bit
/// (also where the value rounds to zero), and `NaN`, `inf`, `-inf`.
pub open spec fn fixed_text(v: FloatView, d: nat) -> Seq<char> {
    match v {
        FloatView::Nan => "NaN"@,
        FloatView::Inf { neg } => if neg {
            "-inf"@
        } else {
            "inf"@
        },
        FloatView::Fin { neg, mant, exp } => {
            let n = scaled_decimals(mant, exp, d);
            let p = pow10(d);
            (if neg {
                seq!['-']
            } else {
                Seq::<char>::empty()
            }) + decimal(n / p) + seq!['.'] + digits_fixed(n % p, d)
        },
    }
}

/// Appends `digits_fixed(n, d)`.
fn push_digits_fixed(out: &mut Vec<char>, n: u64, d: u32)
    ensures
        final(out)@ == old(out)@ + digits_fixed(n as nat, d as nat),
    decreases d,
{
    if d > 0 {
        push_digits_fixed(out, n / 10, d - 1);
        let c = ((n % 10) as u8 + 0x30u8) as char;
        assert(c == digit_char((n % 10) as nat));
        out.push(c);
        assert(digits_fixed(n as nat, d as nat) == digits_fixed((n / 10) as nat, (d - 1) as nat)
            + seq![digit_char((n % 10) as nat)]);
    } else {
        assert(old(out)@ + digits_fixed(n as nat, 0) =~= old(out)@);
    }
}

/// Appends the decimal rendering of `n`.
fn push_decimal_u128(out: &mut Vec<char>, n: u128)
    ensures
        final(out)@ == old(out)@ + decimal(n as nat),
    decreases n,
{
    if n >= 10 {
        push_decimal_u128(out, n / 10);
    }
    let c = ((n % 10) as u8 + 0x30u8) as char;
    assert(c == digit_char((n % 10) as nat));
    out.push(c);
}

/// `x / 2^k` rounded, where `x < 2^31`.
#[verifier::spinoff_prover]
fn round_shift_small(x: u64, k: u32) -> (n: u64)
    requires
        x < 0x8000_0000,
        1 <= k <= 149,
    ensures
        n == round_shift(x as nat, k as nat),
        n <= x + 1,
{
    proof {
        lemma2_to64();
        lemma_pow2_pos(k as nat);
    }
    if k >= 32 {
        proof {
            if k > 32 {
                lemma_pow2_strictly_increases(32, k as nat);
            }
            let p: int = pow2(k as nat) as int;
            let xi: int = x as int;
            assert(xi / p == 0 && xi % p == xi) by (nonlinear_arith)
                requires
                    0 <= xi < p,
            ;
        }
        return 0;
    }
    let p = pow2_u128(k) as u64;
    proof {
        lemma_pow2_strictly_increases(k as nat, 32);
    }
    let q = x / p;
    let r = x % p;
    if 2 * r > p || (2 * r == p && q % 2 == 1) {
        q + 1
    } else {
        q
    }
}

/// The `f32` with bits `b`, written with `d` decimals; see `fixed_text`.
#[verifier::spinoff_prover]
#[verifier::rlimit(40)]
pub fn f32_fixed(b: u32, d: u32) -> (v: Vec<char>)
    requires
        1 <= d <= 2,
    ensures
        v@ == fixed_text(f32_view(b), d as nat),
{
    let x = decode_f32(b);
    let mut v: Vec<char> = Vec::new();
    if x.kind == 0 {
        push_str(&mut v, "NaN");
        return v;
    }
    if x.kind == 1 {
        if x.neg {
            push_str(&mut v, "-inf");
        } else {
            push_str(&mut v, "inf");
        }
        return v;
    }
    let p: u64 = if d == 1 {
        10
    } else {
        100
    };
    proof {
        reveal_with_fuel(pow10, 3);
        lemma2_to64();
    }
    if x.neg {
        v.push('-');
    }
    if x.exp >= 0 {
        // a whole number: its digits, then zeros
        let e = x.exp as u32;
        let pe = pow2_u128(e);
        proof {
            if e < 104 {
                lemma_pow2_strictly_increases(e as nat, 104);
            }
            lemma_pow2_adds(24, 104);
            lemma_pow2_adds(64, 64);
            lemma_pow2_pos(e as nat);
            assert(x.mant * pe < pow2(24) * pow2(104)) by (nonlinear_arith)
                requires
                    x.mant < pow2(24),
                    pe <= pow2(104),
                    pe >= 1,
            ;
            let m: int = x.mant as int;
            let pp: int = pow10(d as nat) as int;
            let pw: int = pe as int;
            assert((m * pp * pw) / pp == m * pw && (m * pp * pw) % pp == 0) by (nonlinear_arith)
                requires
                    pp > 0,
            ;
        }
        let whole: u128 = x.mant as u128 * pe;
        push_decimal_u128(&mut v, whole);
        v.push('.');
        push_digits_fixed(&mut v, 0, d);
    } else {
        let n = round_shift_small(x.mant * p, (-x.exp) as u32);
        push_decimal(&mut v, n / p);
        v.push('.');
        push_digits_fixed(&mut v, n % p, d);
    }
    assert(v@ =~= fixed_text(f32_view(b), d as nat));
    v
}

} // verus!
