//! The quantity algebra: an exact rational magnitude tagged with a unit.
//!
//! A quantity is stored as a reduced fraction with a positive denominator.
//! Reduction makes the representation canonical: two quantities stand for the
//! same rational with the same unit exactly when they are equal field for
//! field. Addition and subtraction combine the magnitudes exactly and carry
//! the left operand's unit forward; unit compatibility is deliberately not
//! enforced (mixing units silently keeps the left unit), which mirrors the
//! documented policy of this library.

use vstd::prelude::*;
use crate::errors::{Error, ErrorView};
use crate::gcd::{gcd, gcd_u128, lemma_exact_div, lemma_gcd_divides, lemma_gcd_reduce_coprime,
    lemma_lowest_terms_unique};
use crate::token::{digit_prefix_len, push_digits, read_unit, scan_number, spec_parse,
    spec_render, unit_str};

verus! {

/// The closed set of unit tags a quantity can carry.
#[derive(Clone, Copy, Debug, PartialEq, Eq, Structural)]
pub enum QuantityUnit {
    Tablespoon,
    Teaspoon,
    Cup,
    Gram,
    Count,
    Pound,
}

/// The mathematical model of a quantity: an integer pair for the rational
/// `num / den`, plus the unit tag.
pub struct QuantityView {
    pub num: int,
    pub den: int,
    pub unit: QuantityUnit,
}

/// Magnitude of an integer, as a natural number.
pub open spec fn abs_i(n: int) -> nat {
    if n >= 0 {
        n as nat
    } else {
        (-n) as nat
    }
}

/// Magnitude of the numerator of `n / d` in lowest terms.
pub open spec fn norm_mag(n: int, d: int) -> nat {
    abs_i(n) / gcd(abs_i(n), d as nat)
}

/// Numerator of `n / d` in lowest terms, keeping the sign of `n`.
pub open spec fn norm_num(n: int, d: int) -> int {
    if n >= 0 {
        norm_mag(n, d) as int
    } else {
        -(norm_mag(n, d) as int)
    }
}

/// Denominator of `n / d` in lowest terms.
pub open spec fn norm_den(n: int, d: int) -> int {
    (d as nat / gcd(abs_i(n), d as nat)) as int
}

/// The canonical quantity standing for the rational `n / d` (with `d >= 1`)
/// under the given unit.
pub open spec fn qv_norm(n: int, d: int, unit: QuantityUnit) -> QuantityView {
    QuantityView { num: norm_num(n, d), den: norm_den(n, d), unit }
}

/// Well-formedness: positive denominator, fraction in lowest terms.
pub open spec fn qv_wf(q: QuantityView) -> bool {
    &&& q.den >= 1
    &&& gcd(abs_i(q.num), q.den as nat) == 1
}

/// The representation fits the 64-bit fields of the executable type.
pub open spec fn qv_fits(q: QuantityView) -> bool {
    &&& -i64::MAX <= q.num <= i64::MAX
    &&& 1 <= q.den <= i64::MAX
}

/// Exact rational addition; the left operand's unit is carried forward.
pub open spec fn qv_add(a: QuantityView, b: QuantityView) -> QuantityView {
    qv_norm(a.num * b.den + b.num * a.den, a.den * b.den, a.unit)
}

/// Exact rational subtraction; the left operand's unit is carried forward.
pub open spec fn qv_sub(a: QuantityView, b: QuantityView) -> QuantityView {
    qv_norm(a.num * b.den - b.num * a.den, a.den * b.den, a.unit)
}

/// A quantity is positive exactly when its numerator is.
pub open spec fn qv_is_positive(q: QuantityView) -> bool {
    q.num > 0
}

/// Normalisation yields a well-formed pair standing for the same rational,
/// with the sign of the numerator and the bounds of both fields preserved.
pub proof fn lemma_norm(n: int, d: int)
    requires
        d >= 1,
    ensures
        1 <= norm_den(n, d) <= d,
        gcd(abs_i(norm_num(n, d)), norm_den(n, d) as nat) == 1,
        norm_num(n, d) * d == n * norm_den(n, d),
        abs_i(norm_num(n, d)) <= abs_i(n),
        n > 0 <==> norm_num(n, d) > 0,
        n < 0 <==> norm_num(n, d) < 0,
{
    let m = abs_i(n);
    let dn = d as nat;
    let g = gcd(m, dn);
    lemma_gcd_divides(m, dn);
    lemma_exact_div(m, g);
    lemma_exact_div(dn, g);
    lemma_gcd_reduce_coprime(m, dn);
    let a = m / g;
    let b = dn / g;
    assert(b >= 1) by (nonlinear_arith)
        requires
            g * b == dn,
            dn >= 1,
            g >= 1,
            b >= 0,
    ;
    assert(abs_i(norm_num(n, d)) == a);
    assert(a * dn == m * b) by (nonlinear_arith)
        requires
            g * a == m,
            g * b == dn,
    ;
    assert(a == 0 <==> m == 0) by (nonlinear_arith)
        requires
            g * a == m,
            g >= 1,
            a >= 0,
    ;
    if n >= 0 {
        assert(norm_num(n, d) * d == n * norm_den(n, d));
    } else {
        assert((-(a as int)) * d == n * (b as int)) by (nonlinear_arith)
            requires
                a * dn == m * b,
                n == -(m as int),
                d == dn,
        ;
    }
}

/// Normalisation is canonical: pairs standing for the same rational
/// normalise to the same pair.
#[verifier::rlimit(50)]
pub proof fn lemma_norm_canonical(n1: int, d1: int, n2: int, d2: int)
    requires
        d1 >= 1,
        d2 >= 1,
        n1 * d2 == n2 * d1,
    ensures
        norm_num(n1, d1) == norm_num(n2, d2),
        norm_den(n1, d1) == norm_den(n2, d2),
{
    let m1 = abs_i(n1);
    let m2 = abs_i(n2);
    assert((n1 > 0 <==> n2 > 0) && (n1 < 0 <==> n2 < 0) && m1 * d2 == m2 * d1)
        by (nonlinear_arith)
        requires
            n1 * d2 == n2 * d1,
            d1 >= 1,
            d2 >= 1,
            m1 == abs_i(n1),
            m2 == abs_i(n2),
    ;
    let g1 = gcd(m1, d1 as nat);
    let g2 = gcd(m2, d2 as nat);
    lemma_gcd_divides(m1, d1 as nat);
    lemma_gcd_divides(m2, d2 as nat);
    lemma_exact_div(m1, g1);
    lemma_exact_div(d1 as nat, g1);
    lemma_exact_div(m2, g2);
    lemma_exact_div(d2 as nat, g2);
    lemma_gcd_reduce_coprime(m1, d1 as nat);
    lemma_gcd_reduce_coprime(m2, d2 as nat);
    let a1 = m1 / g1;
    let b1 = d1 as nat / g1;
    let a2 = m2 / g2;
    let b2 = d2 as nat / g2;
    assert(b1 >= 1 && b2 >= 1) by (nonlinear_arith)
        requires
            g1 * b1 == d1 as nat,
            g2 * b2 == d2 as nat,
            d1 >= 1,
            d2 >= 1,
            g1 >= 1,
            g2 >= 1,
            b1 >= 0,
            b2 >= 0,
    ;
    assert((g1 * a1) * (g2 * b2) == (g2 * a2) * (g1 * b1)) by (nonlinear_arith)
        requires
            d1 >= 1,
            d2 >= 1,
            g1 * a1 == m1,
            g1 * b1 == d1 as nat,
            g2 * a2 == m2,
            g2 * b2 == d2 as nat,
            m1 * d2 == m2 * d1,
    ;
    assert((g1 * a1) * (g2 * b2) == (g1 * g2) * (a1 * b2)) by (nonlinear_arith);
    assert((g2 * a2) * (g1 * b1) == (g1 * g2) * (a2 * b1)) by (nonlinear_arith);
    assert(a1 * b2 == a2 * b1) by (nonlinear_arith)
        requires
            (g1 * g2) * (a1 * b2) == (g1 * g2) * (a2 * b1),
            g1 >= 1,
            g2 >= 1,
    ;
    lemma_lowest_terms_unique(a1, b1, a2, b2);
}

/// A pair already in lowest terms normalises to itself.
pub proof fn lemma_norm_identity(n: int, d: int)
    requires
        d >= 1,
        gcd(abs_i(n), d as nat) == 1,
    ensures
        norm_num(n, d) == n,
        norm_den(n, d) == d,
{
    assert(abs_i(n) / 1 == abs_i(n));
    assert(d as nat / 1 == d as nat);
}

/// Addition of quantities with one unit is commutative.
pub proof fn lemma_qv_add_comm(a: QuantityView, b: QuantityView)
    requires
        a.unit == b.unit,
    ensures
        qv_add(a, b) == qv_add(b, a),
{
    assert(a.num * b.den + b.num * a.den == b.num * a.den + a.num * b.den);
    assert(a.den * b.den == b.den * a.den) by (nonlinear_arith);
}

/// Adding `b` onto the normal form of a raw pair `n / d` gives the normal
/// form of the raw combination. This lets sums of several quantities be
/// reasoned about as one unreduced fraction.
#[verifier::rlimit(50)]
pub proof fn lemma_add_onto_norm(n: int, d: int, b: QuantityView, u: QuantityUnit)
    requires
        d >= 1,
        b.den >= 1,
    ensures
        qv_add(qv_norm(n, d, u), b) == qv_norm(n * b.den + b.num * d, d * b.den, u),
{
    let q = qv_norm(n, d, u);
    lemma_norm(n, d);
    assert(q.den * b.den >= 1 && d * b.den >= 1) by (nonlinear_arith)
        requires
            q.den >= 1,
            d >= 1,
            b.den >= 1,
    ;
    assert((q.num * b.den + b.num * q.den) * (d * b.den) == (n * b.den + b.num * d) * (q.den
        * b.den)) by (nonlinear_arith)
        requires
            q.num * d == n * q.den,
    ;
    lemma_norm_canonical(
        q.num * b.den + b.num * q.den,
        q.den * b.den,
        n * b.den + b.num * d,
        d * b.den,
    );
}

/// Subtracting `b` from the normal form of a raw pair `n / d` gives the
/// normal form of the raw combination.
#[verifier::rlimit(50)]
pub proof fn lemma_sub_onto_norm(n: int, d: int, b: QuantityView, u: QuantityUnit)
    requires
        d >= 1,
        b.den >= 1,
    ensures
        qv_sub(qv_norm(n, d, u), b) == qv_norm(n * b.den - b.num * d, d * b.den, u),
{
    let q = qv_norm(n, d, u);
    lemma_norm(n, d);
    assert(q.den * b.den >= 1 && d * b.den >= 1) by (nonlinear_arith)
        requires
            q.den >= 1,
            d >= 1,
            b.den >= 1,
    ;
    assert((q.num * b.den - b.num * q.den) * (d * b.den) == (n * b.den - b.num * d) * (q.den
        * b.den)) by (nonlinear_arith)
        requires
            d >= 1,
            b.den >= 1,
            q.den >= 1,
            q.num * d == n * q.den,
    ;
    lemma_norm_canonical(
        q.num * b.den - b.num * q.den,
        q.den * b.den,
        n * b.den - b.num * d,
        d * b.den,
    );
}

/// A quantity in lowest terms is the normal form of its own pair.
pub proof fn lemma_qv_norm_self(q: QuantityView)
    requires
        qv_wf(q),
    ensures
        qv_norm(q.num, q.den, q.unit) == q,
{
    lemma_norm_identity(q.num, q.den);
}

/// Two successive additions onto one quantity may swap their order: the sum
/// is the same quantity. The units of the two addends play no part, because
/// both orders keep the unit of `x`.
pub proof fn lemma_qv_add_exchange(x: QuantityView, a: QuantityView, b: QuantityView)
    requires
        qv_wf(x),
        qv_wf(a),
        qv_wf(b),
    ensures
        qv_add(qv_add(x, a), b) == qv_add(qv_add(x, b), a),
{
    lemma_qv_norm_self(x);
    lemma_add_onto_norm(x.num, x.den, a, x.unit);
    lemma_add_onto_norm(x.num, x.den, b, x.unit);
    assert(x.den * a.den >= 1 && x.den * b.den >= 1) by (nonlinear_arith)
        requires
            x.den >= 1,
            a.den >= 1,
            b.den >= 1,
    ;
    lemma_add_onto_norm(x.num * a.den + a.num * x.den, x.den * a.den, b, x.unit);
    lemma_add_onto_norm(x.num * b.den + b.num * x.den, x.den * b.den, a, x.unit);
    assert((x.num * a.den + a.num * x.den) * b.den == x.num * a.den * b.den + a.num * x.den
        * b.den) by (nonlinear_arith);
    assert((x.num * b.den + b.num * x.den) * a.den == x.num * b.den * a.den + b.num * x.den
        * a.den) by (nonlinear_arith);
    assert(b.num * (x.den * a.den) == b.num * x.den * a.den) by (nonlinear_arith);
    assert(a.num * (x.den * b.den) == a.num * x.den * b.den) by (nonlinear_arith);
    assert(x.num * a.den * b.den == x.num * b.den * a.den) by (nonlinear_arith);
    assert((x.den * a.den) * b.den == (x.den * b.den) * a.den) by (nonlinear_arith);
}

/// Subtracting what was added gives back the original quantity, exactly,
/// when both operands share a unit.
pub proof fn lemma_add_sub_inverse(a: QuantityView, b: QuantityView)
    requires
        qv_wf(a),
        qv_wf(b),
        a.unit == b.unit,
    ensures
        qv_sub(qv_add(a, b), b) == a,
{
    lemma_qv_norm_self(a);
    lemma_add_onto_norm(a.num, a.den, b, a.unit);
    assert(a.den * b.den >= 1) by (nonlinear_arith)
        requires
            a.den >= 1,
            b.den >= 1,
    ;
    lemma_sub_onto_norm(a.num * b.den + b.num * a.den, a.den * b.den, b, a.unit);
    let sn = (a.num * b.den + b.num * a.den) * b.den - b.num * (a.den * b.den);
    let sd = (a.den * b.den) * b.den;
    assert(sd >= 1 && sn * a.den == a.num * sd) by (nonlinear_arith)
        requires
            a.den >= 1,
            b.den >= 1,
            sn == (a.num * b.den + b.num * a.den) * b.den - b.num * (a.den * b.den),
            sd == (a.den * b.den) * b.den,
    ;
    lemma_norm_canonical(sn, sd, a.num, a.den);
    lemma_norm_identity(a.num, a.den);
}

/// An exact rational quantity with a unit tag, stored in lowest terms with a
/// positive denominator.
#[derive(Clone, Copy, Debug, PartialEq, Eq)]
pub struct RQuantity {
    num: i64,
    den: i64,
    unit: QuantityUnit,
}

impl View for RQuantity {
    type V = QuantityView;

    closed spec fn view(&self) -> QuantityView {
        QuantityView { num: self.num as int, den: self.den as int, unit: self.unit }
    }
}

impl RQuantity {
    /// The representation invariant every constructed quantity carries.
    pub open spec fn inv(&self) -> bool {
        qv_wf(self@) && qv_fits(self@)
    }

    /// Reduce `raw_n / raw_d` to lowest terms and wrap it with the unit.
    fn from_raw(raw_n: i128, raw_d: i128, unit: QuantityUnit) -> (r: RQuantity)
        requires
            1 <= raw_d,
            i128::MIN < raw_n,
            qv_fits(qv_norm(raw_n as int, raw_d as int, unit)),
        ensures
            r@ == qv_norm(raw_n as int, raw_d as int, unit),
            r.inv(),
    {
        proof {
            lemma_norm(raw_n as int, raw_d as int);
        }
        let neg = raw_n < 0;
        let mag: u128 = if neg {
            (-raw_n) as u128
        } else {
            raw_n as u128
        };
        assert(mag == abs_i(raw_n as int));
        let g = gcd_u128(mag, raw_d as u128);
        let nm: u128 = mag / g;
        let dn: u128 = (raw_d as u128) / g;
        assert(nm == norm_mag(raw_n as int, raw_d as int));
        assert(dn == norm_den(raw_n as int, raw_d as int));
        let num: i64 = if neg {
            -(nm as i64)
        } else {
            nm as i64
        };
        RQuantity { num, den: dn as i64, unit }
    }

    /// Whether the magnitude is strictly greater than zero.
    pub fn is_positive(&self) -> (r: bool)
        ensures
            r == qv_is_positive(self@),
    {
        self.num > 0
    }

    /// The unit tag of this quantity.
    pub fn unit(&self) -> (u: QuantityUnit)
        ensures
            u == self@.unit,
    {
        self.unit
    }

    /// Exact addition. The result keeps `self`'s unit whatever `other`'s
    /// unit is: unit compatibility is deliberately not enforced.
    pub fn add(self, other: &RQuantity) -> (r: RQuantity)
        requires
            self.inv(),
            other.inv(),
            qv_fits(qv_add(self@, other@)),
        ensures
            r@ == qv_add(self@, other@),
            r.inv(),
    {
        let n1 = self.num as i128;
        let d1 = self.den as i128;
        let n2 = other.num as i128;
        let d2 = other.den as i128;
        proof {
            lemma_raw_bounds(n1 as int, d1 as int, n2 as int, d2 as int);
        }
        let raw_n = n1 * d2 + n2 * d1;
        let raw_d = d1 * d2;
        Self::from_raw(raw_n, raw_d, self.unit)
    }

    /// Exact subtraction. As with addition, the result keeps `self`'s unit.
    pub fn sub(self, other: &RQuantity) -> (r: RQuantity)
        requires
            self.inv(),
            other.inv(),
            qv_fits(qv_sub(self@, other@)),
        ensures
            r@ == qv_sub(self@, other@),
            r.inv(),
    {
        let n1 = self.num as i128;
        let d1 = self.den as i128;
        let n2 = other.num as i128;
        let d2 = other.den as i128;
        proof {
            lemma_raw_bounds(n1 as int, d1 as int, n2 as int, d2 as int);
        }
        let raw_n = n1 * d2 - n2 * d1;
        let raw_d = d1 * d2;
        Self::from_raw(raw_n, raw_d, self.unit)
    }
}

impl RQuantity {
    /// Parse a quantity token such as `250g` or `1/2c`. A token that does
    /// not match the grammar, or whose numbers do not fit the
    /// representation, fails with `MalformedQuantity`.
    pub fn new(token: &str) -> (r: Result<RQuantity, Error>)
        ensures
            match r {
                Ok(q) => spec_parse(token@) == Some(q@) && q.inv(),
                Err(e) => spec_parse(token@) is None && e@ == (ErrorView::MalformedQuantity {
                    token: token@,
                }),
            },
    {
        let len = token.unicode_len();
        let (num_end, num_opt) = scan_number(token, 0, len);
        proof {
            assert(token@.subrange(0int, len as int) =~= token@);
        }
        if num_end == 0 {
            return Err(Error::MalformedQuantity { token: token.to_owned() });
        }
        let ghost np = digit_prefix_len(token@);
        let ghost rest = token@.subrange(np, len as int);
        let has_slash = num_end < len && token.get_char(num_end) == '/';
        proof {
            if num_end < len {
                assert(rest[0] == token@[num_end as int]);
            }
        }
        if has_slash {
            let (den_end, den_opt) = scan_number(token, num_end + 1, len);
            proof {
                assert(rest.drop_first() =~= token@.subrange(num_end + 1, len as int));
            }
            if den_end == num_end + 1 {
                return Err(Error::MalformedQuantity { token: token.to_owned() });
            }
            let ghost dp = digit_prefix_len(rest.drop_first());
            proof {
                assert(dp == den_end - (num_end + 1));
                assert(rest.drop_first().subrange(0, dp) =~= token@.subrange(
                    num_end + 1,
                    den_end as int,
                ));
                assert(rest.drop_first().subrange(dp, rest.drop_first().len() as int)
                    =~= token@.subrange(den_end as int, len as int));
            }
            let unit = read_unit(token, den_end, len);
            match (num_opt, den_opt, unit) {
                (Some(nv), Some(dv), Some(u)) => {
                    if dv == 0 {
                        Err(Error::MalformedQuantity { token: token.to_owned() })
                    } else {
                        proof {
                            lemma_norm(nv as int, dv as int);
                        }
                        Ok(Self::from_raw(nv as i128, dv as i128, u))
                    }
                },
                _ => Err(Error::MalformedQuantity { token: token.to_owned() }),
            }
        } else {
            let unit = read_unit(token, num_end, len);
            match (num_opt, unit) {
                (Some(nv), Some(u)) => {
                    proof {
                        lemma_norm(nv as int, 1int);
                    }
                    Ok(Self::from_raw(nv as i128, 1, u))
                },
                _ => Err(Error::MalformedQuantity { token: token.to_owned() }),
            }
        }
    }

    /// Render the quantity as a token: the rational in lowest terms, then
    /// the unit code, for example `3/2t` or `200g`.
    pub fn render(&self) -> (s: String)
        requires
            self.inv(),
        ensures
            s@ == spec_render(self@),
    {
        let mut out = String::new();
        proof {
            reveal_strlit("-");
            reveal_strlit("/");
        }
        if self.num < 0 {
            out.append("-");
            proof {
                assert("-"@ =~= seq!['-']);
            }
        }
        let mag: u64 = if self.num < 0 {
            (-(self.num)) as u64
        } else {
            self.num as u64
        };
        push_digits(mag, &mut out);
        if self.den != 1 {
            out.append("/");
            proof {
                assert("/"@ =~= seq!['/']);
            }
            push_digits(self.den as u64, &mut out);
        }
        out.append(unit_str(self.unit));
        proof {
            assert(out@ =~= spec_render(self@));
        }
        out
    }
}

/// Bounds of the intermediate 128-bit products formed from two in-range
/// quantities: sums and differences of the cross products stay far from the
/// 128-bit limits, and the combined denominator is positive.
proof fn lemma_raw_bounds(n1: int, d1: int, n2: int, d2: int)
    requires
        -i64::MAX <= n1 <= i64::MAX,
        1 <= d1 <= i64::MAX,
        -i64::MAX <= n2 <= i64::MAX,
        1 <= d2 <= i64::MAX,
    ensures
        i128::MIN < n1 * d2 + n2 * d1 < i128::MAX,
        i128::MIN < n1 * d2 - n2 * d1 < i128::MAX,
        1 <= d1 * d2 < i128::MAX,
{
    assert((-i64::MAX * i64::MAX) <= n1 * d2 <= i64::MAX * i64::MAX) by (nonlinear_arith)
        requires
            -i64::MAX <= n1 <= i64::MAX,
            1 <= d2 <= i64::MAX,
    ;
    assert((-i64::MAX * i64::MAX) <= n2 * d1 <= i64::MAX * i64::MAX) by (nonlinear_arith)
        requires
            -i64::MAX <= n2 <= i64::MAX,
            1 <= d1 <= i64::MAX,
    ;
    assert(1 <= d1 * d2 <= i64::MAX * i64::MAX) by (nonlinear_arith)
        requires
            1 <= d1 <= i64::MAX,
            1 <= d2 <= i64::MAX,
    ;
}

} // verus!
