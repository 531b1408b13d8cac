use vstd::prelude::*;

verus! {

/// `10^n`.
pub open spec fn pow10(n: nat) -> nat
    decreases n,
{
    if n == 0 {
        1
    } else {
        10 * pow10((n - 1) as nat)
    }
}

/// A decimal number: `units * 10^-scale`.
#[derive(Clone, Copy, Debug, PartialEq, Eq, Structural)]
pub struct Price {
    pub units: i128,
    pub scale: u32,
}

/// `n / d` rounded to the nearest integer; an exact half goes to the even neighbour.
pub open spec fn round_div(n: nat, d: nat) -> nat
    recommends
        d > 0,
{
    let q = n / d;
    let r = n % d;
    if 2 * r < d {
        q
    } else if 2 * r > d {
        q + 1
    } else if q % 2 == 0 {
        q
    } else {
        q + 1
    }
}

pub open spec fn abs(x: int) -> nat {
    if x < 0 {
        (-x) as nat
    } else {
        x as nat
    }
}

/// The price expressed in units of `10^-precision`, rounded to the nearest integer.
pub open spec fn scaled(price: Price, precision: nat) -> int {
    let s = price.scale as nat;
    if s <= precision {
        price.units * pow10((precision - s) as nat)
    } else {
        let m = round_div(abs(price.units as int), pow10((s - precision) as nat));
        if price.units < 0 {
            -m
        } else {
            m as int
        }
    }
}

pub open spec fn clamp_i64(x: int) -> i64 {
    if x > i64::MAX {
        i64::MAX
    } else if x < i64::MIN {
        i64::MIN
    } else {
        x as i64
    }
}

/// The integer key of a price at a given precision: the scaled price, saturated
/// to the range of `i64`.
pub open spec fn quantize(price: Price, precision: nat) -> i64 {
    clamp_i64(scaled(price, precision))
}

/// The price that a key stands for at a given precision.
pub open spec fn dequantize(key: i64, precision: nat) -> Price {
    Price { units: key as i128, scale: precision as u32 }
}

/// Two prices stand for the same number.
pub open spec fn same_value(a: Price, b: Price) -> bool {
    a.units * pow10(b.scale as nat) == b.units * pow10(a.scale as nat)
}

pub proof fn lemma_pow10_positive(n: nat)
    ensures
        pow10(n) >= 1,
    decreases n,
{
    if n > 0 {
        lemma_pow10_positive((n - 1) as nat);
    }
}

pub proof fn lemma_pow10_monotonic(a: nat, b: nat)
    requires
        a <= b,
    ensures
        pow10(a) <= pow10(b),
    decreases b,
{
    if a < b {
        lemma_pow10_monotonic(a, (b - 1) as nat);
        lemma_pow10_positive((b - 1) as nat);
    }
}

pub proof fn lemma_pow10_add(a: nat, b: nat)
    ensures
        pow10(a + b) == pow10(a) * pow10(b),
    decreases b,
{
    if b > 0 {
        lemma_pow10_add(a, (b - 1) as nat);
        let c = pow10((b - 1) as nat);
        assert((a + b - 1) as nat == a + (b - 1) as nat);
        assert(pow10(a + b) == 10 * pow10((a + b - 1) as nat));
        assert(pow10(a + b) == 10 * (pow10(a) * c));
        assert(pow10(b) == 10 * c);
        assert(10 * (pow10(a) * c) == pow10(a) * (10 * c)) by (nonlinear_arith);
    } else {
        assert(pow10(b) == 1);
        assert(a + b == a);
    }
}

/// `10^n` as an exact integer.
pub fn pow10_u128(n: u32) -> (r: u128)
    requires
        n <= 38,
    ensures
        r == pow10(n as nat),
{
    let mut r: u128 = 1;
    let mut i: u32 = 0;
    while i < n
        invariant
            i <= n <= 38,
            r == pow10(i as nat),
        decreases n - i,
    {
        proof {
            lemma_pow10_monotonic((i + 1) as nat, 38);
            reveal_with_fuel(pow10, 39);
        }
        r = r * 10;
        i = i + 1;
    }
    r
}

/// `n / d` rounded to the nearest integer, an exact half to the even neighbour.
fn round_div_u128(n: u128, d: u128) -> (m: u128)
    requires
        d >= 10,
    ensures
        m == round_div(n as nat, d as nat),
        m <= n / 10 + 1,
{
    let q = n / d;
    let r = n % d;
    assert(q <= n / 10) by (nonlinear_arith)
        requires
            q == n / d,
            d >= 10,
    ;
    assert(r < d);
    if r < d - r {
        q
    } else if r > d - r {
        q + 1
    } else if q % 2 == 0 {
        q
    } else {
        q + 1
    }
}

/// The key of `price` at `precision` decimal places.
pub fn quantize_price(price: Price, precision: u32) -> (k: i64)
    requires
        precision <= 18,
    ensures
        k == quantize(price, precision as nat),
{
    if price.scale <= precision {
        let d = precision - price.scale;
        let m = pow10_u128(d) as i128;
        proof {
            lemma_pow10_positive(d as nat);
            lemma_pow10_monotonic(d as nat, 18);
            reveal_with_fuel(pow10, 19);
        }
        let u = price.units;
        if u > i64::MAX as i128 {
            assert(u * m >= u) by (nonlinear_arith)
                requires
                    u > 0,
                    m >= 1,
            ;
            i64::MAX
        } else if u < i64::MIN as i128 {
            assert(u * m <= u) by (nonlinear_arith)
                requires
                    u < 0,
                    m >= 1,
            ;
            i64::MIN
        } else {
            assert(-0x8000_0000_0000_0000_0000_0000_0000_0000 < u * m
                < 0x8000_0000_0000_0000_0000_0000_0000_0000) by (nonlinear_arith)
                requires
                    i64::MIN <= u <= i64::MAX,
                    1 <= m <= 1_000_000_000_000_000_000,
            ;
            let v = u * m;
            if v > i64::MAX as i128 {
                i64::MAX
            } else if v < i64::MIN as i128 {
                i64::MIN
            } else {
                v as i64
            }
        }
    } else {
        let d = price.scale - precision;
        let u = price.units;
        let mag: u128 = if u < 0 {
            ((-(u + 1)) as u128) + 1
        } else {
            u as u128
        };
        assert(mag == abs(u as int));
        if d > 38 {
            proof {
                lemma_pow10_monotonic(39, d as nat);
                reveal_with_fuel(pow10, 40);
                let p = pow10(d as nat);
                let a = mag as nat;
                assert(a / p == 0 && a % p == a) by (nonlinear_arith)
                    requires
                        a < p,
                ;
            }
            0
        } else {
            let div = pow10_u128(d);
            proof {
                lemma_pow10_monotonic(1, d as nat);
                reveal_with_fuel(pow10, 2);
            }
            let m = round_div_u128(mag, div);
            if m > i64::MAX as u128 {
                if u < 0 {
                    if m > 0x8000_0000_0000_0000 {
                        i64::MIN
                    } else {
                        (-(m as i128)) as i64
                    }
                } else {
                    i64::MAX
                }
            } else if u < 0 {
                (-(m as i128)) as i64
            } else {
                m as i64
            }
        }
    }
}

/// The price that `key` stands for at `precision` decimal places.
pub fn dequantize_key(key: i64, precision: u32) -> (p: Price)
    ensures
        p == dequantize(key, precision as nat),
{
    Price { units: key as i128, scale: precision }
}

/// A key that is dequantized and quantized again at the same precision comes back
/// unchanged.
pub proof fn lemma_key_round_trip(key: i64, precision: nat)
    requires
        precision <= u32::MAX,
    ensures
        quantize(dequantize(key, precision), precision) == key,
{
    let pr = dequantize(key, precision);
    assert(pr.scale as nat == precision);
    assert((precision - pr.scale as nat) as nat == 0);
    assert(pow10(0) == 1);
    assert(pr.units * 1 == pr.units);
    assert(scaled(pr, precision) == key as int);
}

/// A price that is an exact multiple of `10^-precision`, and whose key fits an
/// `i64`, comes back as the same number after quantizing and dequantizing.
pub proof fn lemma_price_round_trip(price: Price, precision: nat)
    requires
        precision <= u32::MAX,
        price.scale <= precision || abs(price.units as int) % pow10((price.scale - precision) as nat) == 0,
        i64::MIN <= scaled(price, precision) <= i64::MAX,
    ensures
        same_value(dequantize(quantize(price, precision), precision), price),
{
    let s = price.scale as nat;
    let k = quantize(price, precision);
    assert(k == scaled(price, precision));
    if s <= precision {
        let d = (precision - s) as nat;
        lemma_pow10_add(s, d);
        assert(s + d == precision);
        let u = price.units as int;
        assert(u * pow10(d) * pow10(s) == u * pow10(precision)) by (nonlinear_arith)
            requires
                pow10(precision) == pow10(s) * pow10(d),
        ;
    } else {
        let d = (s - precision) as nat;
        let p = pow10(d);
        lemma_pow10_positive(d);
        lemma_pow10_add(precision, d);
        assert(precision + d == s);
        let u = price.units as int;
        let a = abs(u);
        vstd::arithmetic::div_mod::lemma_fundamental_div_mod(a as int, p as int);
        assert(a == (a / p) * p);
        assert(round_div(a, p) == a / p);
        assert(k * p == u) by (nonlinear_arith)
            requires
                a == (a / p) * p,
                a == abs(u),
                u < 0 ==> k == -(a / p),
                u >= 0 ==> k == a / p,
        ;
        assert(k * pow10(s) == u * pow10(precision)) by (nonlinear_arith)
            requires
                k * p == u,
                pow10(s) == pow10(precision) * p,
        ;
    }
}

} // verus!
