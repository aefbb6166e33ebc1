//! What numbers amount to, and arithmetic that comes close to exact.
//!
//! Laws that say what a computation is for are stated over exact amounts, for
//! every arithmetic whose results are off by no more than rounding.

use crate::arith::{difference, product, quotient, root, sum, Arith};
use crate::math::{dot, normalised, Vec3};
use crate::number::{
    lemma_worth_order, num, one_worth, worth, Real, EPSILON, HALF, MINUS_ONE, ONE, TWO, ZERO,
};
use vstd::arithmetic::power2::{lemma2_to64, lemma_pow2_adds, lemma_pow2_pos, pow2};
use vstd::prelude::*;

verus! {

/// The amount of a finite number.
pub open spec fn amount(a: Real) -> real {
    a.value() as real / one_worth() as real
}

/// The size of an amount without its sign.
pub open spec fn size(x: real) -> real {
    if x < 0 as real {
        0 as real - x
    } else {
        x
    }
}

/// Whether two amounts differ by no more than `slack`.
pub open spec fn within(x: real, y: real, slack: real) -> bool {
    x - y <= slack && y - x <= slack
}

/// How far a result may be off that should be `x`.
pub open spec fn slip(x: real) -> real {
    size(x) / 4194304 as real + 1 as real / 1099511627776 as real
}

/// Whether a number is finite and `x` but for rounding.
pub open spec fn about(r: Real, x: real) -> bool {
    r.finite() && within(amount(r), x, slip(x))
}

/// Whether an amount is small enough for a result to be precise.
pub open spec fn modest(x: real) -> bool {
    size(x) <= 1000000 as real
}

/// The basic operations are off by no more than rounding, where what they
/// should give is modest.
pub open spec fn precise<K: Arith>(k: &K) -> bool {
    &&& forall|a: Real, b: Real|
        a.finite() && b.finite() && modest(amount(a) + amount(b)) ==> about(
            #[trigger] sum(k, a, b),
            amount(a) + amount(b),
        )
    &&& forall|a: Real, b: Real|
        a.finite() && b.finite() && modest(amount(a) - amount(b)) ==> about(
            #[trigger] difference(k, a, b),
            amount(a) - amount(b),
        )
    &&& forall|a: Real, b: Real|
        a.finite() && b.finite() && modest(amount(a) * amount(b)) ==> about(
            #[trigger] product(k, a, b),
            amount(a) * amount(b),
        )
    &&& forall|a: Real, b: Real|
        a.finite() && b.finite() && amount(b) != 0 as real && modest(amount(a) / amount(b))
            ==> about(#[trigger] quotient(k, a, b), amount(a) / amount(b))
    &&& forall|a: Real|
        a.finite() && amount(a) >= 0 as real && modest(amount(a)) ==> {
            let r = #[trigger] root(k, a);
            &&& r.finite()
            &&& amount(r) >= 0 as real
            &&& within(amount(r) * amount(r), amount(a), slip(amount(a)))
        }
}

/// A hundred-thousandth.
#[verifier::inline]
pub open spec fn hair() -> real {
    1 as real / 100000 as real
}

/// A sum of at most sixteen is off by less than a hundred-thousandth.
pub proof fn lemma_sum<K: Arith>(k: &K, a: Real, b: Real)
    requires
        precise(k),
        a.finite(),
        b.finite(),
        size(amount(a) + amount(b)) <= 16 as real,
    ensures
        sum(k, a, b).finite(),
        within(amount(sum(k, a, b)), amount(a) + amount(b), hair()),
{
    assert(about(sum(k, a, b), amount(a) + amount(b)));
}

/// A difference of at most sixteen is off by less than a hundred-thousandth.
pub proof fn lemma_difference<K: Arith>(k: &K, a: Real, b: Real)
    requires
        precise(k),
        a.finite(),
        b.finite(),
        size(amount(a) - amount(b)) <= 16 as real,
    ensures
        difference(k, a, b).finite(),
        within(amount(difference(k, a, b)), amount(a) - amount(b), hair()),
{
    assert(about(difference(k, a, b), amount(a) - amount(b)));
}

/// A product of at most sixteen is off by less than a hundred-thousandth.
pub proof fn lemma_product<K: Arith>(k: &K, a: Real, b: Real)
    requires
        precise(k),
        a.finite(),
        b.finite(),
        size(amount(a) * amount(b)) <= 16 as real,
    ensures
        product(k, a, b).finite(),
        within(amount(product(k, a, b)), amount(a) * amount(b), hair()),
{
    assert(about(product(k, a, b), amount(a) * amount(b)));
}

/// A quotient of at most sixteen is off by less than a hundred-thousandth.
pub proof fn lemma_quotient<K: Arith>(k: &K, a: Real, b: Real)
    requires
        precise(k),
        a.finite(),
        b.finite(),
        amount(b) != 0 as real,
        size(amount(a) / amount(b)) <= 16 as real,
    ensures
        quotient(k, a, b).finite(),
        within(amount(quotient(k, a, b)), amount(a) / amount(b), hair()),
{
    assert(about(quotient(k, a, b), amount(a) / amount(b)));
}

/// The square of a root of at most sixteen is off by less than a
/// hundred-thousandth.
pub proof fn lemma_root<K: Arith>(k: &K, a: Real)
    requires
        precise(k),
        a.finite(),
        0 as real <= amount(a) <= 16 as real,
    ensures
        root(k, a).finite(),
        amount(root(k, a)) >= 0 as real,
        within(amount(root(k, a)) * amount(root(k, a)), amount(a), hair()),
{
}

/// Numbers are ordered like their amounts.
pub proof fn lemma_order(a: Real, b: Real)
    requires
        !a.nan(),
        !b.nan(),
    ensures
        a.below(b) == (amount(a) < amount(b)),
        a.at_most(b) == (amount(a) <= amount(b)),
{
    lemma_pow2_pos(149);
    let (x, y, u) = (a.value() as real, b.value() as real, one_worth() as real);
    assert((x < y) == (x / u < y / u) && (x <= y) == (x / u <= y / u)) by (nonlinear_arith)
        requires
            u > 0 as real,
    ;
}

/// Whole numbers multiply like amounts.
proof fn lemma_product_of_whole(a: int, b: int)
    ensures
        (a * b) as real == (a as real) * (b as real),
{
    assert((a * b) as real == (a as real) * (b as real)) by (nonlinear_arith);
}

/// The amount of a positive number, from the fields of its pattern.
pub proof fn lemma_pattern(r: Real, e: int, m: int, q: int)
    requires
        !r.negative(),
        86 <= e <= 150,
        0 <= m < 0x80_0000,
        r.magnitude() == e * 0x80_0000 + m,
        pow2((150 - e) as nat) == q,
    ensures
        r.finite(),
        amount(r) == ((0x80_0000 + m) as real) / (q as real),
{
    assert(r.magnitude() / 0x80_0000 == e && r.magnitude() % 0x80_0000 == m);
    lemma_pow2_pos((e - 1) as nat);
    lemma_pow2_pos((150 - e) as nat);
    lemma_pow2_adds((e - 1) as nat, (150 - e) as nat);
    let p = pow2((e - 1) as nat) as int;
    let s = 0x80_0000 + m;
    assert((e - 1) as nat + (150 - e) as nat == 149);
    assert(one_worth() == p * q);
    assert(r.value() == s * p);
    lemma_product_of_whole(p, q);
    lemma_product_of_whole(s, p);
    let (x, y, z) = (s as real, p as real, q as real);
    assert((x * y) / (y * z) == x / z) by (nonlinear_arith)
        requires
            y > 0 as real,
            z > 0 as real,
    ;
}

/// Half, one, minus one, two and zero amount to what they say.
pub proof fn lemma_plain_amounts()
    ensures
        amount(num(ZERO)) == 0 as real,
        amount(num(ONE)) == 1 as real,
        amount(num(HALF)) == 1 as real / 2 as real,
        amount(num(TWO)) == 2 as real,
        amount(num(MINUS_ONE)) == 0 as real - 1 as real,
        num(ZERO).finite(),
        num(ONE).finite(),
        num(HALF).finite(),
        num(TWO).finite(),
        num(MINUS_ONE).finite(),
{
    lemma2_to64();
    lemma_pow2_pos(149);
    lemma_pattern(num(ONE), 127, 0, 0x80_0000);
    lemma_pattern(num(HALF), 126, 0, 0x100_0000);
    lemma_pattern(num(TWO), 128, 0, 0x40_0000);
    assert(worth(0) == 0);
    let u = one_worth() as real;
    assert(0 as real / u == 0 as real) by (nonlinear_arith)
        requires
            u > 0 as real,
    ;
    let v = num(ONE).value() as real;
    assert(num(MINUS_ONE).value() == -num(ONE).value());
    assert((0 as real - v) / u == 0 as real - v / u) by (nonlinear_arith)
        requires
            u > 0 as real,
    ;
}

/// An amount moved into `0 ..= 1`.
pub open spec fn unit_part(x: real) -> real {
    if x < 0 as real {
        0 as real
    } else if x > 1 as real {
        1 as real
    } else {
        x
    }
}

/// Moving a number into `0 ..= 1` moves its amount there.
pub proof fn lemma_unit_part(a: Real)
    requires
        a.finite(),
    ensures
        a.in_unit().finite(),
        amount(a.in_unit()) == unit_part(amount(a)),
{
    lemma_plain_amounts();
    lemma_order(a, num(ZERO));
    lemma_order(num(ONE), a);
    lemma_order(num(ONE), num(ZERO));
}

/// The exact dot product of two vectors.
pub open spec fn exact_dot(a: Vec3, b: Vec3) -> real {
    amount(a.x) * amount(b.x) + amount(a.y) * amount(b.y) + amount(a.z) * amount(b.z)
}

/// Whether a vector has finite components of at most two.
pub open spec fn short(a: Vec3) -> bool {
    &&& a.x.finite() && size(amount(a.x)) <= 2 as real
    &&& a.y.finite() && size(amount(a.y)) <= 2 as real
    &&& a.z.finite() && size(amount(a.z)) <= 2 as real
}

/// The product of two amounts of at most two is at most four.
pub proof fn lemma_four(x: real, y: real)
    requires
        size(x) <= 2 as real,
        size(y) <= 2 as real,
    ensures
        size(x * y) <= 4 as real,
{
    assert(size(x * y) <= 4 as real) by (nonlinear_arith)
        requires
            size(x) <= 2 as real,
            size(y) <= 2 as real,
    ;
}

/// A dot product of short vectors is off by no more than a twenty-thousandth.
pub proof fn lemma_dot<K: Arith>(k: &K, a: Vec3, b: Vec3)
    requires
        precise(k),
        short(a),
        short(b),
    ensures
        dot(k, a, b).finite(),
        within(amount(dot(k, a, b)), exact_dot(a, b), 5 as real * hair()),
{
    lemma_four(amount(a.x), amount(b.x));
    lemma_four(amount(a.y), amount(b.y));
    lemma_four(amount(a.z), amount(b.z));
    lemma_product(k, a.x, b.x);
    lemma_product(k, a.y, b.y);
    lemma_product(k, a.z, b.z);
    let (x, y, z) = (product(k, a.x, b.x), product(k, a.y, b.y), product(k, a.z, b.z));
    lemma_sum(k, x, y);
    lemma_sum(k, sum(k, x, y), z);
}

/// A number that is closer than a half to a byte becomes that byte.
pub proof fn lemma_byte(r: Real, n: int)
    requires
        !r.nan(),
        0 <= n <= 255,
        size(amount(r) - (n as real)) < (1 as real / 2 as real),
    ensures
        r.as_byte() == n,
{
    let one = one_worth();
    lemma_pow2_pos(149);
    let (v, u, x) = (r.value() as real, one as real, n as real);
    assert(x * u - (u / 2 as real) < v && v < x * u + u / 2 as real) by (nonlinear_arith)
        requires
            u > 0 as real,
            size(v / u - x) < (1 as real / 2 as real),
    ;
    lemma_product_of_whole(n, one);
    let w = r.value();
    assert((2 * w) as real == 2 as real * v);
    assert(2 * (n * one) - one < 2 * w && 2 * w < 2 * (n * one) + one);
    lemma_worth_order(r.magnitude(), 0);
    assert(worth(0) == 0);
    if r.negative() {
        let m = worth(r.magnitude());
        assert(n == 0) by (nonlinear_arith)
            requires
                one > 0,
                n >= 0,
                2 * (n * one) - one < 2 * w,
                w <= 0,
        ;
        vstd::arithmetic::div_mod::lemma_fundamental_div_mod_converse(
            2 * m + one,
            2 * one,
            0,
            2 * m + one,
        );
    } else {
        let rem = 2 * w + one - n * (2 * one);
        assert(n * (2 * one) == 2 * (n * one)) by (nonlinear_arith);
        vstd::arithmetic::div_mod::lemma_fundamental_div_mod_converse(
            2 * w + one,
            2 * one,
            n,
            rem,
        );
    }
}

/// A number in the range of bytes is no more than a half from its byte.
pub proof fn lemma_byte_near(r: Real)
    requires
        r.finite(),
        0 as real <= amount(r) <= 255 as real,
    ensures
        within(r.as_byte() as real, amount(r), 1 as real / 2 as real),
{
    let one = one_worth();
    lemma_pow2_pos(149);
    let (w, u) = (r.value(), one as real);
    let v = w as real;
    assert(0 as real <= v && v <= 255 as real * u) by (nonlinear_arith)
        requires
            u > 0 as real,
            0 as real <= v / u,
            v / u <= 255 as real,
    ;
    assert((255 * one) as real == 255 as real * u);
    lemma_worth_order(r.magnitude(), 0);
    assert(worth(0) == 0);
    let n = (2 * w + one) / (2 * one);
    vstd::arithmetic::div_mod::lemma_fundamental_div_mod(2 * w + one, 2 * one);
    let rem = (2 * w + one) % (2 * one);
    assert(0 <= n <= 255) by (nonlinear_arith)
        requires
            one > 0,
            0 <= w <= 255 * one,
            2 * w + one == (2 * one) * n + rem,
            0 <= rem < 2 * one,
    ;
    assert(2 * w + one == 2 * (n * one) + rem) by (nonlinear_arith)
        requires
            2 * w + one == (2 * one) * n + rem,
    ;
    vstd::arithmetic::div_mod::lemma_fundamental_div_mod_converse(one, 2 * one, 0, one);
    assert(r.as_byte() == n);
    lemma_product_of_whole(n, one);
    let x = n as real;
    assert((2 * w) as real == 2 as real * v);
    assert(2 as real * (x * u) - u <= 2 as real * v && 2 as real * v <= 2 as real * (x * u) + u);
    assert(within(x, v / u, 1 as real / 2 as real)) by (nonlinear_arith)
        requires
            u > 0 as real,
            2 as real * (x * u) - u <= 2 as real * v,
            2 as real * v <= 2 as real * (x * u) + u,
    ;
}

/// Dividing by what is close to a length is close to dividing by the length.
proof fn lemma_divided(v: real, len: real, exact: real)
    requires
        size(v) <= 2 as real,
        (1 as real / 4 as real) <= exact <= 4 as real,
        len >= 0 as real,
        within(len * len, exact * exact, 6 as real * hair()),
    ensures
        len > (1 as real / 5 as real),
        size(v / len) <= 10 as real,
        within((v / len) * exact, v, 300 as real * hair()),
{
    assert(len > (1 as real / 5 as real)) by (nonlinear_arith)
        requires
            (1 as real / 4 as real) <= exact,
            len >= 0 as real,
            within(len * len, exact * exact, 6 as real * hair()),
    ;
    assert(within(len, exact, 24 as real * hair())) by (nonlinear_arith)
        requires
            (1 as real / 4 as real) <= exact,
            len >= 0 as real,
            within(len * len, exact * exact, 6 as real * hair()),
    ;
    let q = v / len;
    assert(q * len == v) by (nonlinear_arith)
        requires
            q == v / len,
            len > 0 as real,
    ;
    assert(size(q) <= 10 as real) by (nonlinear_arith)
        requires
            q * len == v,
            size(v) <= 2 as real,
            len > (1 as real / 5 as real),
    ;
    assert(within(q * exact, q * len, 240 as real * hair())) by (nonlinear_arith)
        requires
            size(q) <= 10 as real,
            within(len, exact, 24 as real * hair()),
    ;
}

/// Normalising keeps the direction and gives unit length: with `length` the
/// exact length of a vector, each component is the vector's divided by it, but
/// for rounding.
pub proof fn law_normalised<K: Arith>(k: &K, v: Vec3, length: real)
    requires
        precise(k),
        short(v),
        length * length == exact_dot(v, v),
        (1 as real / 4 as real) <= length <= 4 as real,
    ensures
        ({
            let n = normalised(k, v);
            let slack = 1 as real / 250 as real;
            &&& n.x.finite() && n.y.finite() && n.z.finite()
            &&& within(amount(n.x) * length, amount(v.x), slack)
            &&& within(amount(n.y) * length, amount(v.y), slack)
            &&& within(amount(n.z) * length, amount(v.z), slack)
        }),
{
    lemma_dot(k, v, v);
    let d = dot(k, v, v);
    assert((1 as real / 16 as real) <= length * length <= 16 as real) by (nonlinear_arith)
        requires
            (1 as real / 4 as real) <= length <= 4 as real,
    ;
    lemma_four(amount(v.x), amount(v.x));
    lemma_four(amount(v.y), amount(v.y));
    lemma_four(amount(v.z), amount(v.z));
    lemma_root(k, d);
    let len = root(k, d);
    lemma_divided(amount(v.x), amount(len), length);
    lemma_divided(amount(v.y), amount(len), length);
    lemma_divided(amount(v.z), amount(len), length);
    lemma_epsilon();
    lemma_order(len, num(EPSILON));
    lemma_quotient(k, v.x, len);
    lemma_quotient(k, v.y, len);
    lemma_quotient(k, v.z, len);
    lemma_rescaled(amount(quotient(k, v.x, len)), amount(v.x) / amount(len), length);
    lemma_rescaled(amount(quotient(k, v.y, len)), amount(v.y) / amount(len), length);
    lemma_rescaled(amount(quotient(k, v.z, len)), amount(v.z) / amount(len), length);
}

/// A length of at most four times what is a hair off is four hairs off.
proof fn lemma_rescaled(a: real, b: real, length: real)
    requires
        within(a, b, hair()),
        0 as real <= length <= 4 as real,
    ensures
        within(a * length, b * length, 4 as real * hair()),
{
    assert(within(a * length, b * length, 4 as real * hair())) by (nonlinear_arith)
        requires
            within(a, b, hair()),
            0 as real <= length <= 4 as real,
    ;
}

/// A product is bounded by the product of the bounds.
pub proof fn lemma_bounded_product(x: real, y: real, a: real, b: real)
    requires
        size(x) <= a,
        size(y) <= b,
    ensures
        size(x * y) <= a * b,
{
    assert(0 as real <= size(x) * size(y) <= a * b) by (nonlinear_arith)
        requires
            0 as real <= size(x) <= a,
            0 as real <= size(y) <= b,
    ;
    if x < 0 as real {
        assert((0 as real - x) * y == 0 as real - x * y) by (nonlinear_arith);
        assert((0 as real - x) * (0 as real - y) == x * y) by (nonlinear_arith);
    } else {
        assert(x * (0 as real - y) == 0 as real - x * y) by (nonlinear_arith);
    }
}

/// A square is not negative.
pub proof fn lemma_square(x: real)
    ensures
        x * x >= 0 as real,
{
    assert(x * x >= 0 as real) by (nonlinear_arith);
}

/// Twice a product is no more than the sum of the squares.
pub proof fn lemma_twice_product(x: real, u: real)
    ensures
        2 as real * (x * u) <= x * x + u * u,
        0 as real - 2 as real * (x * u) <= x * x + u * u,
{
    lemma_square(x - u);
    lemma_square(x + u);
    assert((x - u) * (x - u) == x * x - 2 as real * (x * u) + u * u) by (nonlinear_arith);
    assert((x + u) * (x + u) == x * x + 2 as real * (x * u) + u * u) by (nonlinear_arith);
}

/// Products of close amounts are close.
pub proof fn lemma_close_product(
    x: real,
    exact_x: real,
    y: real,
    exact_y: real,
    off_x: real,
    off_y: real,
    most_x: real,
    most_y: real,
)
    requires
        within(x, exact_x, off_x),
        within(y, exact_y, off_y),
        size(exact_x) <= most_x,
        size(y) <= most_y,
    ensures
        within(x * y, exact_x * exact_y, off_x * most_y + most_x * off_y),
{
    let (p, q) = (x - exact_x, y - exact_y);
    lemma_bounded_product(p, y, off_x, most_y);
    lemma_bounded_product(exact_x, q, most_x, off_y);
    assert(x * y - exact_x * exact_y == p * y + exact_x * q) by (nonlinear_arith)
        requires
            p == x - exact_x,
            q == y - exact_y,
    ;
}

/// The least length that is normalised is less than a millionth.
pub proof fn lemma_epsilon()
    ensures
        num(EPSILON).finite(),
        amount(num(EPSILON)) > 0 as real,
        amount(num(EPSILON)) < (1 as real / 1000000 as real),
{
    lemma2_to64();
    lemma_pow2_adds(14, 32);
    lemma_pattern(num(EPSILON), 104, 0, 0x4000_0000_0000);
}

} // verus!
