use rust_decimal::Decimal;
use vstd::prelude::*;

verus! {

/// Prices and quantities are held as integer numbers of units of
/// 10^-UNIT_SCALE: a price of 101.25 is `10_125_000_000`.
pub const UNIT_SCALE: u32 = 8;

/// The largest mantissa a `Decimal` holds (96 bits).
pub const MAX_MANTISSA: i128 = 0xFFFF_FFFF_FFFF_FFFF_FFFF_FFFF;

/// The largest scale a `Decimal` holds.
pub const MAX_SCALE: u32 = 28;

#[verifier::external_type_specification]
#[verifier::external_body]
pub struct ExDecimal(Decimal);

/// The mantissa `Decimal::mantissa` gives for `d`: it depends on `d` alone.
pub uninterp spec fn decimal_mantissa_of(d: Decimal) -> i128;

/// The scale `Decimal::scale` gives for `d`: it depends on `d` alone.
pub uninterp spec fn decimal_scale_of(d: Decimal) -> u32;

/// `Decimal::mantissa`: the signed integer `m` of the value `m * 10^-scale`,
/// named `decimal_mantissa_of(d)`. Its magnitude fits in the 96 bits of the
/// three 32-bit words the decimal stores.
#[verifier::external_body]
fn decimal_mantissa(d: &Decimal) -> (m: i128)
    ensures
        m == decimal_mantissa_of(*d),
        -MAX_MANTISSA <= m <= MAX_MANTISSA,
{
    d.mantissa()
}

/// `Decimal::scale`: the power of ten the mantissa is divided by, named
/// `decimal_scale_of(d)`; at most 28.
#[verifier::external_body]
fn decimal_scale(d: &Decimal) -> (s: u32)
    ensures
        s == decimal_scale_of(*d),
        s <= MAX_SCALE,
{
    d.scale()
}

/// The decimal that `Decimal::from_i128_with_scale` builds from `num` and
/// `scale`: it depends on these two values alone.
pub uninterp spec fn decimal_with_scale(num: i128, scale: u32) -> Decimal;

/// `Decimal::from_i128_with_scale`: the decimal `num * 10^-scale`. It panics
/// beyond 96 bits or beyond scale 28, which `requires` rules out. The result
/// is the decimal named `decimal_with_scale(num, scale)`, whose mantissa is
/// `num` and whose scale is `scale`: the decimal stores the sign of `num`,
/// the 96 bits of its magnitude and `scale` unchanged, and `mantissa` and
/// `scale` read them back.
#[verifier::external_body]
fn decimal_from_i128_with_scale(num: i128, scale: u32) -> (d: Decimal)
    requires
        -MAX_MANTISSA <= num <= MAX_MANTISSA,
        scale <= MAX_SCALE,
    ensures
        d == decimal_with_scale(num, scale),
        decimal_mantissa_of(d) == num,
        decimal_scale_of(d) == scale,
{
    Decimal::from_i128_with_scale(num, scale)
}

/// 10 to the power `e`.
pub open spec fn pow10(e: nat) -> nat
    decreases e,
{
    if e == 0 {
        1
    } else {
        10 * pow10((e - 1) as nat)
    }
}

/// `u` units are exactly the value `m * 10^-s`.
pub open spec fn represents(u: int, m: int, s: nat) -> bool {
    u * pow10(s) == m * pow10(UNIT_SCALE as nat)
}

/// `(m, s)` are the parts of some `Decimal`.
pub open spec fn parts_ok(m: int, s: nat) -> bool {
    -MAX_MANTISSA <= m <= MAX_MANTISSA && s <= MAX_SCALE
}

/// `r` is the exact number of units of `m * 10^-s` when that is an integer
/// in `[lo, hi]`, and `None` when there is no such integer.
pub open spec fn units_result(r: Option<int>, m: int, s: nat, lo: int, hi: int) -> bool {
    match r {
        Some(u) => lo <= u <= hi && represents(u, m, s),
        None => forall|u: int| lo <= u <= hi ==> !represents(u, m, s),
    }
}

pub proof fn lemma_pow10_add(a: nat, b: nat)
    ensures
        pow10(a + b) == pow10(a) * pow10(b),
    decreases a,
{
    if a > 0 {
        lemma_pow10_add((a - 1) as nat, b);
        assert(pow10(a + b) == 10 * pow10((a - 1 + b) as nat));
        assert(pow10(a) == 10 * pow10((a - 1) as nat));
        assert(10 * (pow10((a - 1) as nat) * pow10(b)) == (10 * pow10((a - 1) as nat)) * pow10(b))
            by (nonlinear_arith);
    } else {
        assert(a + b == b);
        assert(pow10(a) == 1);
    }
}

pub proof fn lemma_pow10_pos(a: nat)
    ensures
        pow10(a) >= 1,
    decreases a,
{
    if a > 0 {
        lemma_pow10_pos((a - 1) as nat);
    }
}

pub proof fn lemma_pow10_max()
    ensures
        pow10(MAX_SCALE as nat) == 10_000_000_000_000_000_000_000_000_000nat,
        pow10(UNIT_SCALE as nat) == 100_000_000nat,
{
    reveal_with_fuel(pow10, 29);
}

/// 10 to the power `e`, for `e` up to 28.
fn pow10_exec(e: u32) -> (r: u128)
    requires
        e <= MAX_SCALE,
    ensures
        r == pow10(e as nat),
{
    proof {
        lemma_pow10_max();
        lemma_pow10_pos((MAX_SCALE - e) as nat);
        lemma_pow10_add(e as nat, (MAX_SCALE - e) as nat);
        assert(pow10(e as nat) <= pow10(MAX_SCALE as nat)) by (nonlinear_arith)
            requires
                pow10(MAX_SCALE as nat) == pow10(e as nat) * pow10((MAX_SCALE - e) as nat),
                pow10((MAX_SCALE - e) as nat) >= 1,
        ;
    }
    let mut r: u128 = 1;
    let mut i: u32 = 0;
    while i < e
        invariant
            0 <= i <= e,
            e <= MAX_SCALE,
            r == pow10(i as nat),
            pow10(e as nat) <= 10_000_000_000_000_000_000_000_000_000nat,
        decreases e - i,
    {
        proof {
            lemma_pow10_pos((e - i - 1) as nat);
            lemma_pow10_add((i + 1) as nat, (e - i - 1) as nat);
            assert(pow10((i + 1) as nat) <= pow10(e as nat)) by (nonlinear_arith)
                requires
                    pow10(e as nat) == pow10((i + 1) as nat) * pow10((e - i - 1) as nat),
                    pow10((e - i - 1) as nat) >= 1,
            ;
        }
        r = r * 10;
        i = i + 1;
    }
    r
}

/// The exact number of units of `mantissa * 10^-scale`, when it is an integer.
pub fn units_from_parts(mantissa: i128, scale: u32) -> (r: Option<i128>)
    requires
        parts_ok(mantissa as int, scale as nat),
    ensures
        units_result(
            match r {
                Some(u) => Some(u as int),
                None => None,
            },
            mantissa as int,
            scale as nat,
            i128::MIN as int,
            i128::MAX as int,
        ),
{
    let ghost m = mantissa as int;
    let ghost s = scale as nat;
    proof {
        lemma_pow10_max();
        lemma_pow10_pos(s);
    }
    if scale <= UNIT_SCALE {
        let f = pow10_exec(UNIT_SCALE - scale);
        proof {
            lemma_pow10_add((UNIT_SCALE - scale) as nat, s);
            lemma_pow10_pos((UNIT_SCALE - scale) as nat);
            lemma_pow10_add((UNIT_SCALE - scale) as nat, 0);
            assert(f <= 100_000_000) by (nonlinear_arith)
                requires
                    100_000_000 == f * pow10(s),
                    pow10(s) >= 1,
                    f >= 1,
            ;
            assert(-MAX_MANTISSA * 100_000_000 <= m * f <= MAX_MANTISSA * 100_000_000)
                by (nonlinear_arith)
                requires
                    -MAX_MANTISSA <= m <= MAX_MANTISSA,
                    1 <= f <= 100_000_000,
            ;
        }
        let u = mantissa * (f as i128);
        proof {
            assert(u * pow10(s) == m * pow10(UNIT_SCALE as nat)) by (nonlinear_arith)
                requires
                    u == m * f,
                    pow10(UNIT_SCALE as nat) == f * pow10(s),
            ;
        }
        Some(u)
    } else {
        let d = pow10_exec(scale - UNIT_SCALE);
        let ghost di = d as int;
        proof {
            lemma_pow10_add((scale - UNIT_SCALE) as nat, UNIT_SCALE as nat);
            lemma_pow10_pos((scale - UNIT_SCALE) as nat);
            assert(pow10(s) == di * 100_000_000);
        }
        let neg = mantissa < 0;
        let a: u128 = if neg {
            (-mantissa) as u128
        } else {
            mantissa as u128
        };
        if a % d != 0 {
            proof {
                assert forall|u: int| i128::MIN <= u <= i128::MAX implies !represents(u, m, s) by {
                    if represents(u, m, s) {
                        assert(u * di == m) by (nonlinear_arith)
                            requires
                                u * pow10(s) == m * 100_000_000,
                                pow10(s) == di * 100_000_000,
                        ;
                        if neg {
                            assert(a == (-u) * di) by (nonlinear_arith)
                                requires
                                    u * di == m,
                                    a == -m,
                            ;
                            vstd::arithmetic::div_mod::lemma_mod_multiples_basic(-u, di);
                        } else {
                            vstd::arithmetic::div_mod::lemma_mod_multiples_basic(u, di);
                        }
                    }
                }
            }
            None
        } else {
            let q = a / d;
            proof {
                vstd::arithmetic::div_mod::lemma_fundamental_div_mod(a as int, di);
                assert(a == di * q);
                assert(q <= a) by (nonlinear_arith)
                    requires
                        a == di * q,
                        di >= 1,
                        q >= 0,
                ;
            }
            let u: i128 = if neg {
                -(q as i128)
            } else {
                q as i128
            };
            proof {
                assert(u * di == m) by (nonlinear_arith)
                    requires
                        a == di * q,
                        neg ==> u == -q && a == -m,
                        !neg ==> u == q && a == m,
                ;
                assert(u * pow10(s) == m * 100_000_000) by (nonlinear_arith)
                    requires
                        u * di == m,
                        pow10(s) == di * 100_000_000,
                ;
            }
            Some(u)
        }
    }
}

/// The price, in units, of `mantissa * 10^-scale`; `None` when it is not a
/// whole number of units or does not fit.
pub fn price_from_parts(mantissa: i128, scale: u32) -> (r: Option<i64>)
    requires
        parts_ok(mantissa as int, scale as nat),
    ensures
        units_result(
            match r {
                Some(u) => Some(u as int),
                None => None,
            },
            mantissa as int,
            scale as nat,
            i64::MIN as int,
            i64::MAX as int,
        ),
{
    match units_from_parts(mantissa, scale) {
        Some(u) => {
            if i64::MIN as i128 <= u && u <= i64::MAX as i128 {
                Some(u as i64)
            } else {
                proof {
                    lemma_represents_unique(u as int, mantissa as int, scale as nat);
                }
                None
            }
        },
        None => None,
    }
}

/// The quantity, in units, of `mantissa * 10^-scale`; `None` when it is
/// negative, not a whole number of units, or does not fit.
pub fn quantity_from_parts(mantissa: i128, scale: u32) -> (r: Option<u64>)
    requires
        parts_ok(mantissa as int, scale as nat),
    ensures
        units_result(
            match r {
                Some(u) => Some(u as int),
                None => None,
            },
            mantissa as int,
            scale as nat,
            0,
            u64::MAX as int,
        ),
{
    match units_from_parts(mantissa, scale) {
        Some(u) => {
            if 0 <= u && u <= u64::MAX as i128 {
                Some(u as u64)
            } else {
                proof {
                    lemma_represents_unique(u as int, mantissa as int, scale as nat);
                }
                None
            }
        },
        None => None,
    }
}

/// At most one number of units stands for a value.
pub proof fn lemma_represents_unique(u: int, m: int, s: nat)
    requires
        represents(u, m, s),
    ensures
        forall|v: int| represents(v, m, s) ==> v == u,
{
    lemma_pow10_pos(s);
    assert forall|v: int| represents(v, m, s) implies v == u by {
        assert(v * pow10(s) == u * pow10(s));
        assert(v == u) by (nonlinear_arith)
            requires
                v * pow10(s) == u * pow10(s),
                pow10(s) >= 1,
        ;
    }
}

/// The price of a decimal, in units: exact, or `None` when the decimal is
/// not a whole number of units or does not fit.
pub fn price_from_decimal(d: &Decimal) -> (r: Option<i64>)
    ensures
        units_result(
            match r {
                Some(u) => Some(u as int),
                None => None,
            },
            decimal_mantissa_of(*d) as int,
            decimal_scale_of(*d) as nat,
            i64::MIN as int,
            i64::MAX as int,
        ),
{
    let m = decimal_mantissa(d);
    let s = decimal_scale(d);
    price_from_parts(m, s)
}

/// The quantity of a decimal, in units: exact, or `None` when the decimal is
/// negative, not a whole number of units, or does not fit.
pub fn quantity_from_decimal(d: &Decimal) -> (r: Option<u64>)
    ensures
        units_result(
            match r {
                Some(u) => Some(u as int),
                None => None,
            },
            decimal_mantissa_of(*d) as int,
            decimal_scale_of(*d) as nat,
            0,
            u64::MAX as int,
        ),
{
    let m = decimal_mantissa(d);
    let s = decimal_scale(d);
    quantity_from_parts(m, s)
}

/// The decimal for a price in units: `price * 10^-UNIT_SCALE`.
pub fn price_to_decimal(price: i64) -> (r: Decimal)
    ensures
        r == decimal_with_scale(price as i128, UNIT_SCALE),
        decimal_mantissa_of(r) == price,
        decimal_scale_of(r) == UNIT_SCALE,
{
    decimal_from_i128_with_scale(price as i128, UNIT_SCALE)
}

/// The decimal for a quantity in units: `quantity * 10^-UNIT_SCALE`.
pub fn quantity_to_decimal(quantity: u64) -> (r: Decimal)
    ensures
        r == decimal_with_scale(quantity as i128, UNIT_SCALE),
        decimal_mantissa_of(r) == quantity,
        decimal_scale_of(r) == UNIT_SCALE,
{
    decimal_from_i128_with_scale(quantity as i128, UNIT_SCALE)
}

/// The decimal for an aggregated quantity in units, when a decimal can hold it.
pub fn total_to_decimal(total: u128) -> (r: Option<Decimal>)
    ensures
        match r {
            Some(d) => {
                &&& total <= MAX_MANTISSA
                &&& d == decimal_with_scale(total as i128, UNIT_SCALE)
                &&& decimal_mantissa_of(d) == total
                &&& decimal_scale_of(d) == UNIT_SCALE
            },
            None => total > MAX_MANTISSA,
        },
{
    if total <= MAX_MANTISSA as u128 {
        Some(decimal_from_i128_with_scale(total as i128, UNIT_SCALE))
    } else {
        None
    }
}


/// A price written as a decimal and read back is the same price: whatever
/// reading a decimal with the price's mantissa and the unit scale gives is
/// that price.
pub proof fn law_price_decimal_round_trip(price: i64, d: Decimal, r: Option<int>)
    requires
        decimal_mantissa_of(d) == price,
        decimal_scale_of(d) == UNIT_SCALE,
        units_result(r, decimal_mantissa_of(d) as int, decimal_scale_of(d) as nat, i64::MIN as int, i64::MAX as int),
    ensures
        r == Some(price as int),
{
    assert(represents(price as int, price as int, UNIT_SCALE as nat));
    if let Some(u) = r {
        lemma_represents_unique(price as int, price as int, UNIT_SCALE as nat);
    }
}

/// A quantity written as a decimal and read back is the same quantity.
pub proof fn law_quantity_decimal_round_trip(quantity: u64, d: Decimal, r: Option<int>)
    requires
        decimal_mantissa_of(d) == quantity,
        decimal_scale_of(d) == UNIT_SCALE,
        units_result(r, decimal_mantissa_of(d) as int, decimal_scale_of(d) as nat, 0, u64::MAX as int),
    ensures
        r == Some(quantity as int),
{
    assert(represents(quantity as int, quantity as int, UNIT_SCALE as nat));
    if let Some(u) = r {
        lemma_represents_unique(quantity as int, quantity as int, UNIT_SCALE as nat);
    }
}

} // verus!
