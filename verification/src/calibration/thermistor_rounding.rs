//! How the roundings of a thermistor fit add up, over exact values in units of
//! 1/u.

use crate::machine::{lemma_near_scaled, lemma_size_of_product, near, size};
use vstd::prelude::*;

verus! {

/// One part of 2^52.
pub open spec fn parts() -> int {
    0x10_0000_0000_0000
}

/// What lies within so many parts, times a factor.
proof fn lemma_times(k: int, d: int, bound: int)
    requires
        parts() * size(d) <= bound,
    ensures
        parts() * size(k * d) <= size(k) * bound,
{
    lemma_size_of_product(k, d);
    let (m, n) = (size(k), size(d));
    assert(parts() * (m * n) <= m * bound) by (nonlinear_arith)
        requires
            parts() * n <= bound,
            0 <= m,
    {
        assert(m * (parts() * n) <= m * bound);
        assert(m * (parts() * n) == parts() * (m * n));
    }
}

/// `|l0^2| + |l0 l1| + |l1^2|`.
pub open spec fn squares_size(l0: int, l1: int) -> int {
    size(l0 * l0) + size(l0 * l1) + size(l1 * l1)
}

#[verifier::spinoff_prover]
#[verifier::rlimit(40)]
pub(crate) proof fn lemma_squares(
    u: int,
    l0: int,
    l1: int,
    l00: int,
    l01: int,
    l11: int,
    part: int,
    squares: int,
)
    requires
        u > 0,
        near(l0 * l0, l00 * u),
        near(l0 * l1, l01 * u),
        near(l1 * l1, l11 * u),
        near(l00 + l01, part),
        near(part + l11, squares),
    ensures
        parts() * size(squares * u - (l0 * l0 + l0 * l1 + l1 * l1)) <= 5 * squares_size(l0, l1),
{
    lemma_near_scaled(l00 + l01, part, u);
    lemma_near_scaled(part + l11, squares, u);
    assert(u * (l00 + l01) == l00 * u + l01 * u && u * part == part * u && u * (part + l11) == part
        * u + l11 * u && u * squares == squares * u) by (nonlinear_arith);
    lemma_three_terms(l0 * l0, l0 * l1, l1 * l1, l00 * u, l01 * u, l11 * u, part * u, squares * u);
}

/// A rounded sum of three rounded terms.
#[verifier::spinoff_prover]
#[verifier::rlimit(40)]
proof fn lemma_three_terms(a: int, b: int, c: int, x: int, y: int, z: int, part: int, sum: int)
    requires
        near(a, x),
        near(b, y),
        near(c, z),
        near(x + y, part),
        near(part + z, sum),
    ensures
        parts() * size(sum - (a + b + c)) <= 5 * (size(a) + size(b) + size(c)),
{
    let m = size(a) + size(b);
    lemma_two_terms(a, b, x, y, part, size(a), size(b), m);
    lemma_two_terms(a + b, c, part, z, sum, 3 * m, size(c), m + size(c));
}

/// A rounded sum of two rounded terms.
#[verifier::spinoff_prover]
#[verifier::rlimit(40)]
proof fn lemma_two_terms(a: int, b: int, x: int, y: int, sum: int, da: int, db: int, most: int)
    requires
        parts() * size(a - x) <= da,
        parts() * size(b - y) <= db,
        size(a) + size(b) <= most,
        da + db <= parts() * most,
        near(x + y, sum),
    ensures
        parts() * size(a + b - sum) <= da + db + 2 * most,
{
    let (p, q, r) = (a - x, b - y, x + y - sum);
    assert(size(x + y) <= size(a) + size(b) + size(p) + size(q));
    assert(size(p) + size(q) <= most);
    assert(parts() * size(r) <= 2 * most);
    assert(size(a + b - sum) <= size(p) + size(q) + size(r));
}

/// What the B coefficient makes of the rise to point 1.
#[verifier::spinoff_prover]
#[verifier::rlimit(40)]
pub(crate) proof fn lemma_b(
    u: int,
    c: int,
    q: int,
    weight: int,
    squares: int,
    bend: int,
    g2: int,
    b: int,
)
    requires
        u > 0,
        parts() * size(squares * u - q) <= 5 * weight,
        size(q) <= weight,
        near(c * squares, bend * u),
        near(g2 - bend, b),
    ensures
        parts() * size(b * (u * u) + c * q - g2 * (u * u)) <= size(g2) * (u * u) + 9 * (size(c)
            * weight),
{
    let w = u * u;
    lemma_times(c, squares * u - q, 5 * weight);
    let cw = size(c) * weight;
    assert(size(c) * (5 * weight) == 5 * cw) by (nonlinear_arith)
        requires
            cw == size(c) * weight,
    ;
    assert(c * (squares * u - q) == c * (squares * u) - c * q) by (nonlinear_arith);
    lemma_near_scaled(c * squares, bend * u, u);
    assert(u * (c * squares) == c * (squares * u)) by (nonlinear_arith);
    assert(u * (bend * u) == bend * w) by (nonlinear_arith)
        requires
            w == u * u,
    ;
    lemma_size_of_product(c, q);
    assert(size(c) * size(q) <= cw) by (nonlinear_arith)
        requires
            cw == size(c) * weight,
            size(q) <= weight,
            0 <= size(c),
    ;
    assert(w > 0) by (nonlinear_arith)
        requires
            w == u * u,
            u > 0,
    ;
    lemma_near_scaled(g2 - bend, b, w);
    lemma_size_of_product(g2, w);
    assert(w * (g2 - bend) == g2 * w - bend * w && w * b == b * w) by (nonlinear_arith);
    let (x, y) = (c * (squares * u), c * q);
    assert(parts() * size(x - y) <= 5 * cw && size(y) <= cw);
    assert(parts() * size(x - bend * w) <= 2 * cw);
    assert(size(bend * w) <= 2 * cw);
}

/// What the C coefficient makes of the difference of the two rises.
#[verifier::spinoff_prover]
#[verifier::rlimit(40)]
pub(crate) proof fn lemma_c(
    u: int,
    l0: int,
    l1: int,
    l2: int,
    apart: int,
    part: int,
    sum: int,
    spread: int,
    g2: int,
    g3: int,
    dg: int,
    c: int,
)
    requires
        u > 0,
        near(l2 - l1, apart),
        near(l0 + l1, part),
        near(part + l2, sum),
        near(apart * sum, spread * u),
        near(g3 - g2, dg),
        near(dg * u, c * spread),
    ensures
        parts() * size(c * ((l2 - l1) * (l0 + l1 + l2)) - (g3 - g2) * (u * u)) <= 3 * (size(g3 - g2)
            * (u * u)) + 7 * (size(c) * (size(l2 - l1) * (size(l0) + size(l1) + size(l2)))),
{
    let w = u * u;
    let (d, total, all) = (l2 - l1, l0 + l1 + l2, size(l0) + size(l1) + size(l2));
    let weight = size(d) * all;
    assert(parts() * size(sum - total) <= 3 * all);
    assert(size(sum) <= 2 * all);
    // apart * sum is d * total but for 5 parts of the weight.
    lemma_times(sum, d - apart, size(d));
    lemma_times(d, sum - total, 3 * all);
    assert(size(sum) * size(d) <= 2 * weight) by (nonlinear_arith)
        requires
            size(sum) <= 2 * all,
            weight == size(d) * all,
            0 <= size(d),
    ;
    assert(size(d) * (3 * all) == 3 * weight) by (nonlinear_arith)
        requires
            weight == size(d) * all,
    ;
    assert(d * total - apart * sum == sum * (d - apart) - d * (sum - total)) by (nonlinear_arith);
    lemma_size_of_product(d, total);
    assert(size(d) * size(total) <= weight) by (nonlinear_arith)
        requires
            size(total) <= all,
            weight == size(d) * all,
            0 <= size(d),
    ;
    let (x, y, z) = (d * total, apart * sum, spread * u);
    assert(parts() * size(x - y) <= 5 * weight && size(x) <= weight);
    assert(parts() * size(y - z) <= 2 * weight);
    assert(parts() * size(z - x) <= 7 * weight);
    lemma_times(c, z - x, 7 * weight);
    assert(c * (z - x) == c * z - c * x) by (nonlinear_arith);
    let cw = size(c) * weight;
    assert(size(c) * (7 * weight) == 7 * cw) by (nonlinear_arith)
        requires
            cw == size(c) * weight,
    ;
    lemma_near_scaled(dg * u, c * spread, u);
    assert(u * (c * spread) == c * z && u * (dg * u) == dg * w) by (nonlinear_arith)
        requires
            z == spread * u,
            w == u * u,
    ;
    assert(w > 0) by (nonlinear_arith)
        requires
            w == u * u,
            u > 0,
    ;
    lemma_near_scaled(g3 - g2, dg, w);
    lemma_size_of_product(g3 - g2, w);
    assert(w * (g3 - g2) == (g3 - g2) * w && w * dg == dg * w) by (nonlinear_arith);
    let (g, h) = ((g3 - g2) * w, dg * w);
    assert(parts() * size(h - c * z) <= size(h) && parts() * size(g - h) <= size(g));
    assert(size(h) <= 2 * size(g));
}

/// The sizes of `A`'s point, `B l0` and `C l0^3`, in units of 1/u^4.
pub open spec fn start_size(u: int, b: int, c: int, l0: int, y0: int) -> int {
    size(y0) * (u * u * u) + size(l0) * (size(b) * (u * u)) + size(l0) * (size(c) * size(l0 * l0))
}

/// `A + B l + C l^3 - y`, in units of 1/u^4.
pub open spec fn residue(u: int, a: int, b: int, c: int, l: int, y: int) -> int {
    a * (u * u * u) + b * l * (u * u) + c * (l * l * l) - y * (u * u * u)
}

/// What the A coefficient makes of point 0.
#[verifier::spinoff_prover]
#[verifier::rlimit(40)]
pub(crate) proof fn lemma_a(
    u: int,
    l0: int,
    y0: int,
    b: int,
    c: int,
    l00: int,
    bent: int,
    slope: int,
    part: int,
    a: int,
)
    requires
        u > 0,
        near(l0 * l0, l00 * u),
        near(l00 * c, bent * u),
        near(b + bent, slope),
        near(slope * l0, part * u),
        near(y0 - part, a),
    ensures
        parts() * size(residue(u, a, b, c, l0, y0)) <= 10 * start_size(u, b, c, l0, y0),
{
    let (w, t) = (u * u, u * u * u);
    let (s, cs) = (l0 * l0, size(c) * size(l0 * l0));
    assert(w > 0 && t > 0 && t == u * w) by (nonlinear_arith)
        requires
            w == u * u,
            t == u * u * u,
            u > 0,
    ;
    lemma_times(c, s - l00 * u, size(s));
    assert(c * (s - l00 * u) == c * s - c * (l00 * u)) by (nonlinear_arith);
    lemma_near_scaled(l00 * c, bent * u, u);
    assert(u * (l00 * c) == c * (l00 * u) && u * (bent * u) == bent * w) by (nonlinear_arith)
        requires
            w == u * u,
    ;
    lemma_size_of_product(c, s);
    let (x, y, z) = (c * s, c * (l00 * u), bent * w);
    assert(size(x) == cs && parts() * size(x - y) <= cs && parts() * size(y - z) <= 2 * cs);
    lemma_near_scaled(b + bent, slope, w);
    lemma_size_of_product(b, w);
    assert(w * (b + bent) == b * w + z && w * slope == slope * w) by (nonlinear_arith)
        requires
            z == bent * w,
    ;
    let (bw, m) = (size(b) * w, slope * w);
    assert(parts() * size(m - (b * w + x)) <= bw + 5 * cs);
    assert(size(m) <= 2 * bw + 2 * cs);
    lemma_times(l0, m - (b * w + x), bw + 5 * cs);
    let (k, kb, kc) = (size(l0), size(l0) * bw, size(l0) * cs);
    assert(k * (bw + 5 * cs) == kb + 5 * kc && k * (2 * bw + 2 * cs) == 2 * kb + 2 * kc)
        by (nonlinear_arith)
        requires
            kb == k * bw,
            kc == k * cs,
    ;
    lemma_size_of_product(l0, m);
    assert(k * size(m) <= 2 * kb + 2 * kc) by (nonlinear_arith)
        requires
            size(m) <= 2 * bw + 2 * cs,
            k * (2 * bw + 2 * cs) == 2 * kb + 2 * kc,
            0 <= k,
    ;
    lemma_near_scaled(slope * l0, part * u, w);
    assert(w * (slope * l0) == l0 * m && w * (part * u) == part * t) by (nonlinear_arith)
        requires
            m == slope * w,
            t == u * w,
    ;
    let wanted = l0 * (b * w + x);
    assert(l0 * (m - (b * w + x)) == l0 * m - wanted) by (nonlinear_arith)
        requires
            wanted == l0 * (b * w + x),
    ;
    assert(parts() * size(part * t - wanted) <= 3 * kb + 7 * kc);
    assert(size(part * t) <= 3 * kb + 3 * kc) by {
        assert(size(l0 * m) <= 2 * kb + 2 * kc);
        assert(parts() * size(l0 * m - part * t) <= size(l0 * m));
        assert(0 <= kb && 0 <= kc) by (nonlinear_arith)
            requires
                kb == k * bw,
                kc == k * cs,
                bw == size(b) * w,
                cs == size(c) * size(s),
                0 <= k,
                0 <= size(b),
                0 <= size(c),
                0 <= size(s),
                w > 0,
        ;
    }
    lemma_near_scaled(y0 - part, a, t);
    lemma_size_of_product(y0, t);
    assert(t * (y0 - part) == y0 * t - part * t && t * a == a * t) by (nonlinear_arith);
    assert(wanted == b * l0 * w + c * (l0 * l0 * l0)) by (nonlinear_arith)
        requires
            wanted == l0 * (b * w + x),
            x == c * (l0 * l0),
    ;
}

/// The rise to another point: where the cubic starts near point 0 and its rise
/// is near to what it should be, it passes near the other point.
#[verifier::spinoff_prover]
#[verifier::rlimit(40)]
pub(crate) proof fn lemma_other_point(
    u: int,
    a: int,
    b: int,
    c: int,
    l0: int,
    y0: int,
    l: int,
    y: int,
    g: int,
    start: int,
    bound: int,
)
    requires
        u > 0,
        parts() * size(residue(u, a, b, c, l0, y0)) <= start,
        parts() * size(b * (u * u) + c * (l * l + l0 * l + l0 * l0) - g * (u * u)) <= bound,
        parts() * size(g * (l - l0) - (y - y0) * u) <= 4 * (size(y - y0) * u),
    ensures
        parts() * size(residue(u, a, b, c, l, y)) <= start + size(l - l0) * bound + 4 * (size(
            y - y0,
        ) * (u * u * u)),
{
    let (w, t) = (u * u, u * u * u);
    let (q, off) = (l * l + l0 * l + l0 * l0, l - l0);
    let (eb, e1) = (b * w + c * q - g * w, g * off - (y - y0) * u);
    lemma_times(off, eb, bound);
    assert(w > 0) by (nonlinear_arith)
        requires
            w == u * u,
            u > 0,
    ;
    lemma_times(w, e1, 4 * (size(y - y0) * u));
    let sy = size(y - y0);
    assert(w * (4 * (sy * u)) == 4 * (sy * t)) by (nonlinear_arith)
        requires
            w == u * u,
            t == u * u * u,
    ;
    assert(l * l * l - l0 * l0 * l0 == q * off) by (nonlinear_arith)
        requires
            q == l * l + l0 * l + l0 * l0,
            off == l - l0,
    ;
    assert(c * (l * l * l) - c * (l0 * l0 * l0) == c * (q * off)) by (nonlinear_arith)
        requires
            l * l * l - l0 * l0 * l0 == q * off,
    ;
    assert(b * l * w - b * l0 * w == b * w * off) by (nonlinear_arith)
        requires
            off == l - l0,
    ;
    assert(off * eb == b * w * off + c * (q * off) - g * off * w) by (nonlinear_arith)
        requires
            eb == b * w + c * q - g * w,
    ;
    assert(w * e1 == g * off * w - (y - y0) * t) by (nonlinear_arith)
        requires
            e1 == g * off - (y - y0) * u,
            w == u * u,
            t == u * u * u,
    ;
    assert((y - y0) * t == y * t - y0 * t) by (nonlinear_arith);
}

/// `|A| + |B l| + |C l^3|`, in units of 1/u^4.
pub open spec fn reading_size(u: int, a: int, b: int, c: int, l: int) -> int {
    size(a) * (u * u * u) + size(b * l) * (u * u) + size(c * (l * l * l))
}

/// `A + B l + C l^3`, in units of 1/u^4.
pub open spec fn exact_inverse(u: int, a: int, b: int, c: int, l: int) -> int {
    a * (u * u * u) + b * l * (u * u) + c * (l * l * l)
}

/// `c l l l` in three rounded products.
#[verifier::spinoff_prover]
#[verifier::rlimit(40)]
proof fn lemma_cube_rounded(u: int, c: int, l: int, cl: int, cll: int, clll: int)
    requires
        u > 0,
        near(c * l, cl * u),
        near(cl * l, cll * u),
        near(cll * l, clll * u),
    ensures
        parts() * size(clll * (u * u * u) - c * (l * l * l)) <= 4 * size(c * (l * l * l)),
{
    let (w, t) = (u * u, u * u * u);
    lemma_near_scaled(c * l, cl * u, l * l);
    lemma_near_scaled(cl * l, cll * u, l * u);
    lemma_near_scaled(cll * l, clll * u, w);
    let (x0, x1, x2, x3) = (c * (l * l * l), cl * u * (l * l), cll * l * w, clll * t);
    assert((l * l) * (c * l) == x0 && (l * l) * (cl * u) == x1) by (nonlinear_arith)
        requires
            x0 == c * (l * l * l),
            x1 == cl * u * (l * l),
    ;
    assert((l * u) * (cl * l) == x1 && (l * u) * (cll * u) == x2) by (nonlinear_arith)
        requires
            x1 == cl * u * (l * l),
            x2 == cll * l * w,
            w == u * u,
    ;
    assert(w * (cll * l) == x2 && w * (clll * u) == x3) by (nonlinear_arith)
        requires
            x2 == cll * l * w,
            x3 == clll * t,
            w == u * u,
            t == u * u * u,
    ;
    lemma_three_steps(x0, x1, x2, x3);
}

/// Three roundings, one after the other.
pub(crate) proof fn lemma_three_steps(x0: int, x1: int, x2: int, x3: int)
    requires
        near(x0, x1),
        near(x1, x2),
        near(x2, x3),
    ensures
        parts() * size(x3 - x0) <= 4 * size(x0),
{
    let n = size(x0);
    assert(parts() * size(x1 - x0) <= n);
    assert(parts() * size(x1) <= (parts() + 1) * n);
    assert(parts() * (parts() * size(x2 - x1)) <= (parts() + 1) * n);
    assert(parts() * size(x2) <= (parts() + 3) * n);
    assert(parts() * (parts() * size(x3 - x2)) <= (parts() + 3) * n);
}

/// How the roundings of an inverse temperature add up.
#[verifier::spinoff_prover]
#[verifier::rlimit(40)]
pub(crate) proof fn lemma_reading(
    u: int,
    a: int,
    b: int,
    c: int,
    l: int,
    bl: int,
    line: int,
    cl: int,
    cll: int,
    clll: int,
    inverse: int,
)
    requires
        u > 0,
        near(b * l, bl * u),
        near(a + bl, line),
        near(c * l, cl * u),
        near(cl * l, cll * u),
        near(cll * l, clll * u),
        near(line + clll, inverse),
    ensures
        0x2_0000_0000_0000 * size(inverse * (u * u * u) - exact_inverse(u, a, b, c, l))
            <= reading_size(u, a, b, c, l),
{
    let (w, t) = (u * u, u * u * u);
    lemma_cube_rounded(u, c, l, cl, cll, clll);
    assert(w > 0 && t > 0) by (nonlinear_arith)
        requires
            w == u * u,
            t == u * u * u,
            u > 0,
    ;
    lemma_near_scaled(b * l, bl * u, w);
    assert(w * (b * l) == b * l * w && w * (bl * u) == bl * t) by (nonlinear_arith)
        requires
            w == u * u,
            t == u * u * u,
    ;
    lemma_near_scaled(a + bl, line, t);
    lemma_near_scaled(line + clll, inverse, t);
    assert(t * (a + bl) == a * t + bl * t && t * line == line * t && t * (line + clll) == line * t
        + clll * t && t * inverse == inverse * t) by (nonlinear_arith);
    lemma_size_of_product(a, t);
    lemma_size_of_product(b * l, w);
    let (x, y, z) = (a * t, b * l * w, c * (l * l * l));
    let m = size(x) + size(y);
    lemma_two_terms(x, y, x, bl * t, line * t, 0, size(y), m);
    lemma_two_terms(x + y, z, line * t, clll * t, inverse * t, 3 * m, 4 * size(z), m + size(z));
}

/// How the roundings of a temperature add up: its distance from absolute zero
/// times the inverse temperature is one.
#[verifier::spinoff_prover]
#[verifier::rlimit(40)]
pub(crate) proof fn lemma_kelvin(
    u: int,
    inverse: int,
    exact: int,
    weight: int,
    kelvin: int,
    zero_celsius: int,
    temp: int,
)
    requires
        u > 0,
        0x2_0000_0000_0000 * size(inverse * (u * u * u) - exact) <= weight,
        size(exact) <= weight,
        near(u * u, kelvin * inverse),
        near(kelvin - zero_celsius, temp),
    ensures
        0x1_0000_0000_0000 * size((temp + zero_celsius) * exact - u * u * (u * u * u)) <= u * u * (u
            * u * u) + (2 * size(kelvin) + size(zero_celsius)) * weight,
{
    let (t, v) = (u * u * u, u * u * (u * u * u));
    assert(t > 0 && v > 0) by (nonlinear_arith)
        requires
            t == u * u * u,
            v == u * u * (u * u * u),
            u > 0,
    ;
    lemma_near_scaled(u * u, kelvin * inverse, t);
    assert(t * (u * u) == v && t * (kelvin * inverse) == kelvin * (inverse * t)) by (nonlinear_arith)
        requires
            t == u * u * u,
            v == u * u * (u * u * u),
    ;
    let d = temp + zero_celsius - kelvin;
    let k = size(kelvin) + size(zero_celsius);
    assert(parts() * size(d) <= k);
    lemma_times(exact, d, k);
    assert(size(exact) * k <= weight * k) by (nonlinear_arith)
        requires
            size(exact) <= weight,
            0 <= k,
    ;
    let e = exact - inverse * t;
    lemma_size_of_product(kelvin, e);
    let (sk, se) = (size(kelvin), size(e));
    assert(0x2_0000_0000_0000 * (sk * se) <= sk * weight) by (nonlinear_arith)
        requires
            0x2_0000_0000_0000 * se <= weight,
            0 <= sk,
    {
        assert(sk * (0x2_0000_0000_0000 * se) <= sk * weight);
    }
    assert((temp + zero_celsius) * exact == exact * d + kelvin * e + kelvin * (inverse * t))
        by (nonlinear_arith)
        requires
            d == temp + zero_celsius - kelvin,
            e == exact - inverse * t,
    ;
    assert((2 * size(kelvin) + size(zero_celsius)) * weight == weight * k + sk * weight)
        by (nonlinear_arith)
        requires
            k == size(kelvin) + size(zero_celsius),
            sk == size(kelvin),
    ;
    let (p, q, r) = (exact * d, kelvin * e, kelvin * (inverse * t));
    assert(parts() * size(p) <= weight * k);
    assert(0x2_0000_0000_0000 * size(q) <= sk * weight);
    assert(parts() * size(v - r) <= v);
}

/// How far a temperature that is read back lies from the one that was fitted.
#[verifier::spinoff_prover]
#[verifier::rlimit(40)]
pub(crate) proof fn lemma_read_back(
    u: int,
    inverse: int,
    y: int,
    weight: int,
    kelvin: int,
    there: int,
    zero_celsius: int,
    temp: int,
    wanted: int,
)
    requires
        u > 0,
        0x8000_0000_0000 * size((inverse - y) * (u * u * u)) <= weight,
        near(u * u, kelvin * inverse),
        near(u * u, y * there),
        near(wanted + zero_celsius, there),
        near(kelvin - zero_celsius, temp),
    ensures
        0x8000_0000_0000 * size((temp - wanted) * y * (u * u * u)) <= size(kelvin) * weight + u * u
            * (u * u * u) + (size(kelvin) + size(wanted) + 2 * size(zero_celsius)) * size(y) * (u * u
            * u),
{
    let (t, w, v) = (u * u * u, u * u, u * u * (u * u * u));
    assert(t > 0 && v > 0 && w > 0) by (nonlinear_arith)
        requires
            t == u * u * u,
            w == u * u,
            v == u * u * (u * u * u),
            u > 0,
    ;
    lemma_near_scaled(w, kelvin * inverse, t);
    lemma_near_scaled(w, y * there, t);
    assert(t * w == v) by (nonlinear_arith)
        requires
            t == u * u * u,
            w == u * u,
            v == u * u * (u * u * u),
    ;
    let e = (inverse - y) * t;
    lemma_size_of_product(kelvin, e);
    let (sk, se) = (size(kelvin), size(e));
    assert(0x8000_0000_0000 * (sk * se) <= sk * weight) by (nonlinear_arith)
        requires
            0x8000_0000_0000 * se <= weight,
            0 <= sk,
    {
        assert(sk * (0x8000_0000_0000 * se) <= sk * weight);
    }
    let d = (temp - kelvin + zero_celsius) + (there - wanted - zero_celsius);
    let k = size(kelvin) + size(wanted) + 2 * size(zero_celsius);
    assert(parts() * size(d) <= k);
    let yt = y * t;
    lemma_times(yt, d, k);
    lemma_size_of_product(y, t);
    assert(size(yt) * k == k * size(y) * t) by (nonlinear_arith)
        requires
            size(yt) == size(y) * t,
    ;
    let (p, q) = (t * (kelvin * inverse), t * (y * there));
    assert((temp - wanted) * y * t == yt * d + (p - q) - kelvin * e) by (nonlinear_arith)
        requires
            d == (temp - kelvin + zero_celsius) + (there - wanted - zero_celsius),
            yt == y * t,
            p == t * (kelvin * inverse),
            q == t * (y * there),
            e == (inverse - y) * t,
    ;
    let (x, z) = (yt * d, kelvin * e);
    let bound = k * size(y) * t;
    assert(parts() * size(x) <= bound);
    assert(parts() * size(v - p) <= v && parts() * size(v - q) <= v);
    assert(0x8000_0000_0000 * size(z) <= sk * weight);
}

/// A sum is no larger than the sizes of its parts together.
pub(crate) proof fn lemma_exact_below_its_size(u: int, a: int, b: int, c: int, l: int)
    requires
        u > 0,
    ensures
        size(exact_inverse(u, a, b, c, l)) <= reading_size(u, a, b, c, l),
{
    let (w, t) = (u * u, u * u * u);
    assert(w > 0 && t > 0) by (nonlinear_arith)
        requires
            w == u * u,
            t == u * u * u,
            u > 0,
    ;
    lemma_size_of_product(a, t);
    lemma_size_of_product(b * l, w);
}

} // verus!
