//! Group laws of the twisted-Edwards formulas in extended coordinates.
//!
//! A point (X, Y, T, Z) stands for the affine point (X/Z, Y/Z). Two points
//! are compared by cross-multiplication, which is how their affine
//! coordinates agree wherever both Z are nonzero. The curve equation
//! -x^2 + y^2 = 1 + d*x^2*y^2, multiplied through by Z^2 with T = XY/Z,
//! reads -X^2 + Y^2 = Z^2 + d*T^2.

use crate::sdk::{
    coeff_d_nat, ed_add, ed_double, ed_identity, ed_neg, ed_scalar_mul, fq_add, fq_mul, fq_neg, fq_sub,
    q_nat, PointCoords,
};
use vstd::arithmetic::div_mod::{
    lemma_add_mod_noop, lemma_mod_twice, lemma_mul_mod_noop, lemma_small_mod, lemma_sub_mod_noop,
};
use vstd::prelude::*;

verus! {

/// `a` and `b` are congruent modulo q.
pub open spec fn fq_cong(a: int, b: int) -> bool {
    a % (q_nat() as int) == b % (q_nat() as int)
}

/// The two points name the same affine point: X1*Z2 = X2*Z1 and
/// Y1*Z2 = Y2*Z1 in the field.
pub open spec fn same_affine(p: PointCoords, r: PointCoords) -> bool {
    &&& fq_mul(p.0, r.3) == fq_mul(r.0, p.3)
    &&& fq_mul(p.1, r.3) == fq_mul(r.1, p.3)
}

/// Every coordinate is a canonical field value.
pub open spec fn canonical_point(p: PointCoords) -> bool {
    p.0 < q_nat() && p.1 < q_nat() && p.2 < q_nat() && p.3 < q_nat()
}

/// The point satisfies the curve equation in extended coordinates:
/// Y^2 - X^2 = Z^2 + d*T^2 in the field.
pub open spec fn on_curve(p: PointCoords) -> bool {
    let (x, y, t, z) = (p.0 as int, p.1 as int, p.2 as int, p.3 as int);
    fq_cong(y * y - x * x, z * z + coeff_d_nat() * (t * t))
}

proof fn lemma_cong_add(a: int, b: int, a2: int, b2: int)
    requires
        fq_cong(a, a2),
        fq_cong(b, b2),
    ensures
        fq_cong(a + b, a2 + b2),
{
    let q = q_nat() as int;
    lemma_add_mod_noop(a, b, q);
    lemma_add_mod_noop(a2, b2, q);
}

proof fn lemma_cong_sub(a: int, b: int, a2: int, b2: int)
    requires
        fq_cong(a, a2),
        fq_cong(b, b2),
    ensures
        fq_cong(a - b, a2 - b2),
{
    let q = q_nat() as int;
    lemma_sub_mod_noop(a, b, q);
    lemma_sub_mod_noop(a2, b2, q);
}

proof fn lemma_cong_mul(a: int, b: int, a2: int, b2: int)
    requires
        fq_cong(a, a2),
        fq_cong(b, b2),
    ensures
        fq_cong(a * b, a2 * b2),
{
    let q = q_nat() as int;
    lemma_mul_mod_noop(a, b, q);
    lemma_mul_mod_noop(a2, b2, q);
}

proof fn lemma_cong_trans(a: int, b: int, c: int)
    requires
        fq_cong(a, b),
        fq_cong(b, c),
    ensures
        fq_cong(a, c),
{
}

proof fn lemma_fq_add_cong(a: nat, b: nat)
    ensures
        fq_cong(fq_add(a, b) as int, a as int + b as int),
{
    lemma_mod_twice(a as int + b as int, q_nat() as int);
}

proof fn lemma_fq_sub_cong(a: nat, b: nat)
    requires
        b < q_nat(),
    ensures
        fq_cong(fq_sub(a, b) as int, a as int - b as int),
{
    let q = q_nat() as int;
    lemma_mod_twice(a + q - b, q);
    lemma_sub_mod_noop(a + q, b as int, q);
    lemma_sub_mod_noop(a as int, b as int, q);
    lemma_add_mod_noop(a as int, q, q);
    lemma_small_mod(0, q_nat());
    assert(q % q == 0) by {
        vstd::arithmetic::div_mod::lemma_mod_self_0(q);
    }
    lemma_mod_twice(a as int, q);
}

proof fn lemma_fq_mul_cong(a: nat, b: nat)
    ensures
        fq_cong(fq_mul(a, b) as int, a as int * b as int),
{
    lemma_mod_twice(a as int * b as int, q_nat() as int);
}

proof fn lemma_fq_neg_cong(a: nat)
    requires
        a < q_nat(),
    ensures
        fq_cong(fq_neg(a) as int, -a),
{
    let q = q_nat() as int;
    lemma_mod_twice(q - a, q);
    lemma_sub_mod_noop(q, a as int, q);
    lemma_sub_mod_noop(0, a as int, q);
    vstd::arithmetic::div_mod::lemma_mod_self_0(q);
    lemma_small_mod(0, q_nat());
}

/// Adding the neutral element leaves a point's affine coordinates unchanged.
pub proof fn lemma_add_identity(p: PointCoords)
    requires
        canonical_point(p),
    ensures
        same_affine(ed_add(p, ed_identity()), p),
{
    let (x, y, t, z) = p;
    let o = ed_identity();
    let q = q_nat();
    lemma_small_mod(1, q);
    lemma_small_mod(0, q);
    let (xi, yi, zi) = (x as int, y as int, z as int);
    let a = fq_mul(fq_sub(y, x), fq_sub(o.1, o.0));
    let b = fq_mul(fq_add(y, x), fq_add(o.1, o.0));
    let c = fq_mul(fq_mul(t, o.2), 2 * coeff_d_nat());
    let zz = fq_mul(z, o.3);
    let d = fq_add(zz, zz);
    let e = fq_sub(b, a);
    let f = fq_sub(d, c);
    let g = fq_add(d, c);
    let h = fq_add(b, a);
    let r = ed_add(p, o);
    assert(r == (fq_mul(e, f), fq_mul(g, h), fq_mul(e, h), fq_mul(f, g)));
    // a = y - x, b = y + x, c = 0, d = 2z
    assert(fq_sub(o.1, o.0) == 1);
    assert(fq_add(o.1, o.0) == 1);
    lemma_fq_sub_cong(y, x);
    lemma_fq_mul_cong(fq_sub(y, x), 1);
    assert(fq_cong(a as int, yi - xi));
    lemma_fq_add_cong(y, x);
    lemma_fq_mul_cong(fq_add(y, x), 1);
    assert(fq_cong(b as int, yi + xi));
    assert(fq_mul(t, o.2) == 0);
    assert(c == 0);
    lemma_fq_mul_cong(z, 1);
    lemma_fq_add_cong(zz, zz);
    lemma_cong_add(zz as int, zz as int, zi, zi);
    assert(fq_cong(d as int, 2 * zi));
    // e = 2x, f = g = 2z, h = 2y
    lemma_fq_sub_cong(b, a);
    lemma_cong_sub(b as int, a as int, yi + xi, yi - xi);
    assert(fq_cong(e as int, 2 * xi));
    lemma_fq_sub_cong(d, c);
    lemma_fq_add_cong(d, c);
    assert(fq_cong(f as int, 2 * zi));
    assert(fq_cong(g as int, 2 * zi));
    lemma_fq_add_cong(b, a);
    lemma_cong_add(b as int, a as int, yi + xi, yi - xi);
    assert(fq_cong(h as int, 2 * yi));
    // X3*z = (2x*2z)*z = x*(2z*2z) = x*Z3, and the same for Y
    lemma_fq_mul_cong(e, f);
    lemma_cong_mul(e as int, f as int, 2 * xi, 2 * zi);
    lemma_fq_mul_cong(f, g);
    lemma_cong_mul(f as int, g as int, 2 * zi, 2 * zi);
    lemma_fq_mul_cong(g, h);
    lemma_cong_mul(g as int, h as int, 2 * zi, 2 * yi);
    assert(fq_cong(r.0 as int, (2 * xi) * (2 * zi)));
    assert(fq_cong(r.1 as int, (2 * zi) * (2 * yi)));
    assert(fq_cong(r.3 as int, (2 * zi) * (2 * zi)));
    lemma_cong_mul(r.0 as int, zi, (2 * xi) * (2 * zi), zi);
    lemma_cong_mul(xi, r.3 as int, xi, (2 * zi) * (2 * zi));
    lemma_cong_mul(r.1 as int, zi, (2 * zi) * (2 * yi), zi);
    lemma_cong_mul(yi, r.3 as int, yi, (2 * zi) * (2 * zi));
    assert(((2 * xi) * (2 * zi)) * zi == xi * ((2 * zi) * (2 * zi))) by (nonlinear_arith);
    assert(((2 * zi) * (2 * yi)) * zi == yi * ((2 * zi) * (2 * zi))) by (nonlinear_arith);
}

/// Adding a point on the curve to its negation gives the neutral element.
pub proof fn lemma_add_negation(p: PointCoords)
    requires
        canonical_point(p),
        on_curve(p),
    ensures
        same_affine(ed_add(p, ed_neg(p)), ed_identity()),
{
    let (x, y, t, z) = p;
    let n = ed_neg(p);
    let q = q_nat();
    lemma_small_mod(1, q);
    lemma_small_mod(0, q);
    let (xi, yi, ti, zi) = (x as int, y as int, t as int, z as int);
    let dd = coeff_d_nat() as int;
    let nx = fq_neg(x);
    let nt = fq_neg(t);
    assert(n == (nx, y, nt, z));
    let a = fq_mul(fq_sub(y, x), fq_sub(y, nx));
    let b = fq_mul(fq_add(y, x), fq_add(y, nx));
    let c = fq_mul(fq_mul(t, nt), 2 * coeff_d_nat());
    let zz = fq_mul(z, z);
    let d = fq_add(zz, zz);
    let e = fq_sub(b, a);
    let f = fq_sub(d, c);
    let g = fq_add(d, c);
    let h = fq_add(b, a);
    let r = ed_add(p, n);
    assert(r == (fq_mul(e, f), fq_mul(g, h), fq_mul(e, h), fq_mul(f, g)));
    lemma_fq_neg_cong(x);
    lemma_fq_neg_cong(t);
    // a = (y - x)(y + x), b = (y + x)(y - x)
    lemma_fq_sub_cong(y, x);
    lemma_fq_sub_cong(y, nx);
    lemma_cong_sub(yi, nx as int, yi, -xi);
    lemma_fq_mul_cong(fq_sub(y, x), fq_sub(y, nx));
    lemma_cong_mul(fq_sub(y, x) as int, fq_sub(y, nx) as int, yi - xi, yi - (-xi));
    assert(fq_cong(a as int, (yi - xi) * (yi - (-xi))));
    lemma_fq_add_cong(y, x);
    lemma_fq_add_cong(y, nx);
    lemma_cong_add(yi, nx as int, yi, -xi);
    lemma_fq_mul_cong(fq_add(y, x), fq_add(y, nx));
    lemma_cong_mul(fq_add(y, x) as int, fq_add(y, nx) as int, yi + xi, yi + (-xi));
    assert(fq_cong(b as int, (yi + xi) * (yi + (-xi))));
    let w = yi * yi - xi * xi;
    assert((yi - xi) * (yi - (-xi)) == w) by (nonlinear_arith)
        requires
            w == yi * yi - xi * xi,
    ;
    assert((yi + xi) * (yi + (-xi)) == w) by (nonlinear_arith)
        requires
            w == yi * yi - xi * xi,
    ;
    // c = -2d t^2, d = 2z^2
    lemma_fq_mul_cong(t, nt);
    lemma_cong_mul(ti, nt as int, ti, -ti);
    lemma_fq_mul_cong(fq_mul(t, nt), 2 * coeff_d_nat());
    lemma_cong_mul(fq_mul(t, nt) as int, 2 * dd, ti * (-ti), 2 * dd);
    let k = zi * zi + dd * (ti * ti);
    assert((ti * (-ti)) * (2 * dd) == -(2 * (dd * (ti * ti)))) by (nonlinear_arith);
    assert(fq_cong(c as int, -(2 * (dd * (ti * ti)))));
    lemma_fq_mul_cong(z, z);
    lemma_fq_add_cong(zz, zz);
    lemma_cong_add(zz as int, zz as int, zi * zi, zi * zi);
    assert(fq_cong(d as int, 2 * (zi * zi)));
    // e = 0, f = 2k, h = 2w
    lemma_fq_sub_cong(b, a);
    lemma_cong_sub(b as int, a as int, w, w);
    assert(fq_cong(e as int, 0));
    lemma_fq_sub_cong(d, c);
    lemma_cong_sub(d as int, c as int, 2 * (zi * zi), -(2 * (dd * (ti * ti))));
    assert(fq_cong(f as int, 2 * k));
    lemma_fq_add_cong(b, a);
    lemma_cong_add(b as int, a as int, w, w);
    assert(fq_cong(h as int, 2 * w));
    // on the curve w = k, so h = f
    lemma_cong_add(w, w, k, k);
    assert(fq_cong(h as int, f as int));
    // X3 = e*f = 0 and Y3 = g*h = f*g = Z3
    lemma_fq_mul_cong(e, f);
    lemma_cong_mul(e as int, f as int, 0, f as int);
    assert(fq_cong(r.0 as int, 0));
    lemma_fq_mul_cong(g, h);
    lemma_fq_mul_cong(f, g);
    lemma_cong_mul(g as int, h as int, g as int, f as int);
    assert(fq_cong(r.1 as int, r.3 as int));
    assert(fq_mul(r.0, 1) == r.0 % q);
    assert(fq_mul(0, r.3) == 0);
    assert(fq_mul(r.1, 1) == r.1 % q);
    assert(fq_mul(1, r.3) == r.3 % q);
}

proof fn lemma_double_x_identity(x: int, y: int, fa: int, k: int, z2: int)
    ensures
        (((x + y) * (x + y) - x * x - y * y) * (k - 2 * z2)) * (fa * (2 * k)) == (((y + x) * (y + x) - (y
            - x) * (y - x)) * fa) * ((k - 2 * z2) * k),
{
    let ed = (x + y) * (x + y) - x * x - y * y;
    let ea = (y + x) * (y + x) - (y - x) * (y - x);
    assert(ed == 2 * (x * y)) by (nonlinear_arith)
        requires
            ed == (x + y) * (x + y) - x * x - y * y,
    ;
    assert(ea == 4 * (x * y)) by (nonlinear_arith)
        requires
            ea == (y + x) * (y + x) - (y - x) * (y - x),
    ;
    let m = x * y;
    assert((2 * m * (k - 2 * z2)) * (fa * (2 * k)) == (4 * m * fa) * ((k - 2 * z2) * k)) by (nonlinear_arith);
}

proof fn lemma_double_y_identity(x2: int, y2: int, k: int, z2: int, ha: int)
    requires
        ha == 2 * (x2 + y2),
    ensures
        (k * (-(x2 + y2))) * ((4 * z2 - 2 * k) * (2 * k)) == ((2 * k) * ha) * ((k - 2 * z2) * k),
{
    let s = x2 + y2;
    assert((k * (-s)) * ((4 * z2 - 2 * k) * (2 * k)) == ((2 * k) * (2 * s)) * ((k - 2 * z2) * k)) by (nonlinear_arith);
}

/// Doubling a point on the curve agrees with adding it to itself.
pub proof fn lemma_double_is_add_self(p: PointCoords)
    requires
        canonical_point(p),
        on_curve(p),
    ensures
        same_affine(ed_double(p), ed_add(p, p)),
{
    let (x, y, t, z) = p;
    let q = q_nat();
    let (xi, yi, ti, zi) = (x as int, y as int, t as int, z as int);
    let dd = coeff_d_nat() as int;
    let x2 = xi * xi;
    let y2 = yi * yi;
    let z2 = zi * zi;
    let t2 = ti * ti;
    let w = y2 - x2;
    let k = z2 + dd * t2;
    // the sum p + p
    let a = fq_mul(fq_sub(y, x), fq_sub(y, x));
    let b = fq_mul(fq_add(y, x), fq_add(y, x));
    let c = fq_mul(fq_mul(t, t), 2 * coeff_d_nat());
    let zz = fq_mul(z, z);
    let d = fq_add(zz, zz);
    let e = fq_sub(b, a);
    let f = fq_sub(d, c);
    let g = fq_add(d, c);
    let h = fq_add(b, a);
    let sum = ed_add(p, p);
    assert(sum == (fq_mul(e, f), fq_mul(g, h), fq_mul(e, h), fq_mul(f, g)));
    lemma_fq_sub_cong(y, x);
    lemma_fq_mul_cong(fq_sub(y, x), fq_sub(y, x));
    lemma_cong_mul(fq_sub(y, x) as int, fq_sub(y, x) as int, yi - xi, yi - xi);
    lemma_fq_add_cong(y, x);
    lemma_fq_mul_cong(fq_add(y, x), fq_add(y, x));
    lemma_cong_mul(fq_add(y, x) as int, fq_add(y, x) as int, yi + xi, yi + xi);
    lemma_fq_mul_cong(t, t);
    lemma_fq_mul_cong(fq_mul(t, t), 2 * coeff_d_nat());
    lemma_cong_mul(fq_mul(t, t) as int, 2 * dd, t2, 2 * dd);
    lemma_fq_mul_cong(z, z);
    lemma_fq_add_cong(zz, zz);
    lemma_cong_add(zz as int, zz as int, z2, z2);
    let ea = (yi + xi) * (yi + xi) - (yi - xi) * (yi - xi);
    let ha = (yi + xi) * (yi + xi) + (yi - xi) * (yi - xi);
    let fa = 2 * z2 - t2 * (2 * dd);
    lemma_fq_sub_cong(b, a);
    lemma_cong_sub(b as int, a as int, (yi + xi) * (yi + xi), (yi - xi) * (yi - xi));
    assert(fq_cong(e as int, ea));
    lemma_fq_sub_cong(d, c);
    lemma_cong_sub(d as int, c as int, z2 + z2, t2 * (2 * dd));
    assert(fq_cong(f as int, fa));
    lemma_fq_add_cong(d, c);
    lemma_cong_add(d as int, c as int, z2 + z2, t2 * (2 * dd));
    assert(t2 * (2 * dd) == 2 * (dd * t2)) by (nonlinear_arith);
    assert(fq_cong(g as int, 2 * k));
    lemma_fq_add_cong(b, a);
    lemma_cong_add(b as int, a as int, (yi + xi) * (yi + xi), (yi - xi) * (yi - xi));
    assert(fq_cong(h as int, ha));
    lemma_fq_mul_cong(e, f);
    lemma_cong_mul(e as int, f as int, ea, fa);
    lemma_fq_mul_cong(g, h);
    lemma_cong_mul(g as int, h as int, 2 * k, ha);
    lemma_fq_mul_cong(f, g);
    lemma_cong_mul(f as int, g as int, fa, 2 * k);
    // the double of p
    let aa = fq_mul(x, x);
    let bb = fq_mul(y, y);
    let zzd = fq_mul(z, z);
    let cc = fq_add(zzd, zzd);
    let ss = fq_add(x, y);
    let ee = fq_sub(fq_sub(fq_mul(ss, ss), aa), bb);
    let gg = fq_sub(bb, aa);
    let ff = fq_sub(gg, cc);
    let hh = fq_neg(fq_add(aa, bb));
    let dbl = ed_double(p);
    assert(dbl == (fq_mul(ee, ff), fq_mul(gg, hh), fq_mul(ee, hh), fq_mul(ff, gg)));
    lemma_fq_mul_cong(x, x);
    lemma_fq_mul_cong(y, y);
    lemma_fq_add_cong(zzd, zzd);
    lemma_cong_add(zzd as int, zzd as int, z2, z2);
    lemma_fq_add_cong(x, y);
    lemma_fq_mul_cong(ss, ss);
    lemma_cong_mul(ss as int, ss as int, xi + yi, xi + yi);
    lemma_fq_sub_cong(fq_mul(ss, ss), aa);
    lemma_cong_sub(fq_mul(ss, ss) as int, aa as int, (xi + yi) * (xi + yi), x2);
    lemma_fq_sub_cong(fq_sub(fq_mul(ss, ss), aa), bb);
    lemma_cong_sub(fq_sub(fq_mul(ss, ss), aa) as int, bb as int, (xi + yi) * (xi + yi) - x2, y2);
    let ed = (xi + yi) * (xi + yi) - x2 - y2;
    assert(fq_cong(ee as int, ed));
    lemma_fq_sub_cong(bb, aa);
    lemma_cong_sub(bb as int, aa as int, y2, x2);
    assert(fq_cong(gg as int, w));
    // on the curve w = k
    lemma_cong_trans(gg as int, w, k);
    lemma_fq_sub_cong(gg, cc);
    lemma_cong_sub(gg as int, cc as int, k, z2 + z2);
    assert(fq_cong(ff as int, k - 2 * z2));
    lemma_fq_add_cong(aa, bb);
    lemma_cong_add(aa as int, bb as int, x2, y2);
    lemma_fq_neg_cong(fq_add(aa, bb));
    lemma_cong_sub(0, fq_add(aa, bb) as int, 0, x2 + y2);
    assert(fq_cong(hh as int, -(x2 + y2)));
    lemma_fq_mul_cong(ee, ff);
    lemma_cong_mul(ee as int, ff as int, ed, k - 2 * z2);
    lemma_fq_mul_cong(gg, hh);
    lemma_cong_mul(gg as int, hh as int, k, -(x2 + y2));
    lemma_fq_mul_cong(ff, gg);
    lemma_cong_mul(ff as int, gg as int, k - 2 * z2, k);
    // X: Xd*Za = Xa*Zd
    lemma_cong_mul(dbl.0 as int, sum.3 as int, ed * (k - 2 * z2), fa * (2 * k));
    lemma_cong_mul(sum.0 as int, dbl.3 as int, ea * fa, (k - 2 * z2) * k);
    lemma_double_x_identity(xi, yi, fa, k, z2);
    // Y: Yd*Za = Ya*Zd
    assert(fa == 4 * z2 - 2 * k) by (nonlinear_arith)
        requires
            fa == 2 * z2 - t2 * (2 * dd),
            k == z2 + dd * t2,
    ;
    lemma_cong_mul(dbl.1 as int, sum.3 as int, k * (-(x2 + y2)), fa * (2 * k));
    lemma_cong_mul(sum.1 as int, dbl.3 as int, (2 * k) * ha, (k - 2 * z2) * k);
    assert(ha == 2 * (x2 + y2)) by (nonlinear_arith)
        requires
            ha == (yi + xi) * (yi + xi) + (yi - xi) * (yi - xi),
            x2 == xi * xi,
            y2 == yi * yi,
    ;
    lemma_double_y_identity(x2, y2, k, z2, ha);
}

/// `T*Z = X*Y` in the field: the extended coordinate `T` is `XY/Z`.
pub open spec fn t_consistent(p: PointCoords) -> bool {
    fq_cong(p.2 as int * p.3 as int, p.0 as int * p.1 as int)
}

/// The sum's coordinates over the integers: X3 = 4ef, Y3 = 4gh, T3 = 4eh,
/// Z3 = 4fg with e = X1Y2 + Y1X2, h = Y1Y2 + X1X2, f = Z1Z2 - dT1T2 and
/// g = Z1Z2 + dT1T2.
proof fn lemma_add_coords(p: PointCoords, r: PointCoords)
    requires
        canonical_point(p),
        canonical_point(r),
    ensures
        ({
            let (x1, y1, t1, z1) = (p.0 as int, p.1 as int, p.2 as int, p.3 as int);
            let (x2, y2, t2, z2) = (r.0 as int, r.1 as int, r.2 as int, r.3 as int);
            let dd = coeff_d_nat() as int;
            let e = x1 * y2 + y1 * x2;
            let h = y1 * y2 + x1 * x2;
            let f = z1 * z2 - dd * (t1 * t2);
            let g = z1 * z2 + dd * (t1 * t2);
            let s = ed_add(p, r);
            &&& fq_cong(s.0 as int, 4 * (e * f))
            &&& fq_cong(s.1 as int, 4 * (g * h))
            &&& fq_cong(s.2 as int, 4 * (e * h))
            &&& fq_cong(s.3 as int, 4 * (f * g))
        }),
{
    let (x1, y1, t1, z1) = (p.0 as int, p.1 as int, p.2 as int, p.3 as int);
    let (x2, y2, t2, z2) = (r.0 as int, r.1 as int, r.2 as int, r.3 as int);
    let dd = coeff_d_nat() as int;
    let e = x1 * y2 + y1 * x2;
    let h = y1 * y2 + x1 * x2;
    let f = z1 * z2 - dd * (t1 * t2);
    let g = z1 * z2 + dd * (t1 * t2);
    let a = fq_mul(fq_sub(p.1, p.0), fq_sub(r.1, r.0));
    let b = fq_mul(fq_add(p.1, p.0), fq_add(r.1, r.0));
    let c = fq_mul(fq_mul(p.2, r.2), 2 * coeff_d_nat());
    let zz = fq_mul(p.3, r.3);
    let d = fq_add(zz, zz);
    let ee = fq_sub(b, a);
    let ff = fq_sub(d, c);
    let gg = fq_add(d, c);
    let hh = fq_add(b, a);
    let s = ed_add(p, r);
    assert(s == (fq_mul(ee, ff), fq_mul(gg, hh), fq_mul(ee, hh), fq_mul(ff, gg)));
    lemma_fq_sub_cong(p.1, p.0);
    lemma_fq_sub_cong(r.1, r.0);
    lemma_fq_mul_cong(fq_sub(p.1, p.0), fq_sub(r.1, r.0));
    lemma_cong_mul(fq_sub(p.1, p.0) as int, fq_sub(r.1, r.0) as int, y1 - x1, y2 - x2);
    lemma_fq_add_cong(p.1, p.0);
    lemma_fq_add_cong(r.1, r.0);
    lemma_fq_mul_cong(fq_add(p.1, p.0), fq_add(r.1, r.0));
    lemma_cong_mul(fq_add(p.1, p.0) as int, fq_add(r.1, r.0) as int, y1 + x1, y2 + x2);
    let ai = (y1 - x1) * (y2 - x2);
    let bi = (y1 + x1) * (y2 + x2);
    assert(bi - ai == 2 * e && bi + ai == 2 * h) by (nonlinear_arith)
        requires
            ai == (y1 - x1) * (y2 - x2),
            bi == (y1 + x1) * (y2 + x2),
            e == x1 * y2 + y1 * x2,
            h == y1 * y2 + x1 * x2,
    ;
    lemma_fq_mul_cong(p.2, r.2);
    lemma_fq_mul_cong(fq_mul(p.2, r.2), 2 * coeff_d_nat());
    lemma_cong_mul(fq_mul(p.2, r.2) as int, 2 * dd, t1 * t2, 2 * dd);
    assert((t1 * t2) * (2 * dd) == 2 * (dd * (t1 * t2))) by (nonlinear_arith);
    lemma_fq_mul_cong(p.3, r.3);
    lemma_fq_add_cong(zz, zz);
    lemma_cong_add(zz as int, zz as int, z1 * z2, z1 * z2);
    lemma_fq_sub_cong(b, a);
    lemma_cong_sub(b as int, a as int, bi, ai);
    lemma_fq_add_cong(b, a);
    lemma_cong_add(b as int, a as int, bi, ai);
    lemma_fq_sub_cong(d, c);
    lemma_cong_sub(d as int, c as int, z1 * z2 + z1 * z2, 2 * (dd * (t1 * t2)));
    lemma_fq_add_cong(d, c);
    lemma_cong_add(d as int, c as int, z1 * z2 + z1 * z2, 2 * (dd * (t1 * t2)));
    assert(fq_cong(ee as int, 2 * e));
    assert(fq_cong(hh as int, 2 * h));
    assert(fq_cong(ff as int, 2 * f));
    assert(fq_cong(gg as int, 2 * g));
    lemma_fq_mul_cong(ee, ff);
    lemma_cong_mul(ee as int, ff as int, 2 * e, 2 * f);
    lemma_fq_mul_cong(gg, hh);
    lemma_cong_mul(gg as int, hh as int, 2 * g, 2 * h);
    lemma_fq_mul_cong(ee, hh);
    lemma_cong_mul(ee as int, hh as int, 2 * e, 2 * h);
    lemma_fq_mul_cong(ff, gg);
    lemma_cong_mul(ff as int, gg as int, 2 * f, 2 * g);
    assert((2 * e) * (2 * f) == 4 * (e * f)) by (nonlinear_arith);
    assert((2 * g) * (2 * h) == 4 * (g * h)) by (nonlinear_arith);
    assert((2 * e) * (2 * h) == 4 * (e * h)) by (nonlinear_arith);
    assert((2 * f) * (2 * g) == 4 * (f * g)) by (nonlinear_arith);
}

/// Point addition is commutative: the formulas give the same coordinates
/// for `p + r` and `r + p`.
pub proof fn lemma_add_commutes(p: PointCoords, r: PointCoords)
    ensures
        ed_add(p, r) == ed_add(r, p),
{
    assert(fq_mul(fq_sub(p.1, p.0), fq_sub(r.1, r.0)) == fq_mul(fq_sub(r.1, r.0), fq_sub(p.1, p.0))) by {
        vstd::arithmetic::mul::lemma_mul_is_commutative(fq_sub(p.1, p.0) as int, fq_sub(r.1, r.0) as int);
    }
    assert(fq_mul(fq_add(p.1, p.0), fq_add(r.1, r.0)) == fq_mul(fq_add(r.1, r.0), fq_add(p.1, p.0))) by {
        vstd::arithmetic::mul::lemma_mul_is_commutative(fq_add(p.1, p.0) as int, fq_add(r.1, r.0) as int);
    }
    assert(fq_mul(p.2, r.2) == fq_mul(r.2, p.2)) by {
        vstd::arithmetic::mul::lemma_mul_is_commutative(p.2 as int, r.2 as int);
    }
    assert(fq_mul(p.3, r.3) == fq_mul(r.3, p.3)) by {
        vstd::arithmetic::mul::lemma_mul_is_commutative(p.3 as int, r.3 as int);
    }
}

/// The sum keeps `T*Z = X*Y`, whatever the summands.
pub proof fn lemma_add_keeps_t(p: PointCoords, r: PointCoords)
    requires
        canonical_point(p),
        canonical_point(r),
    ensures
        canonical_point(ed_add(p, r)),
        t_consistent(ed_add(p, r)),
{
    let s = ed_add(p, r);
    lemma_add_coords(p, r);
    let (x1, y1, t1, z1) = (p.0 as int, p.1 as int, p.2 as int, p.3 as int);
    let (x2, y2, t2, z2) = (r.0 as int, r.1 as int, r.2 as int, r.3 as int);
    let dd = coeff_d_nat() as int;
    let e = x1 * y2 + y1 * x2;
    let h = y1 * y2 + x1 * x2;
    let f = z1 * z2 - dd * (t1 * t2);
    let g = z1 * z2 + dd * (t1 * t2);
    lemma_cong_mul(s.2 as int, s.3 as int, 4 * (e * h), 4 * (f * g));
    lemma_cong_mul(s.0 as int, s.1 as int, 4 * (e * f), 4 * (g * h));
    assert((4 * (e * h)) * (4 * (f * g)) == (4 * (e * f)) * (4 * (g * h))) by (nonlinear_arith);
    let q = q_nat() as int;
    vstd::arithmetic::div_mod::lemma_mod_bound(s.0 as int, q);
}

/// The sum is the twisted-Edwards (a = -1) sum of the affine points
/// (x_i, y_i) = (X_i/Z_i, Y_i/Z_i), namely
/// x3 = (x1 y2 + y1 x2) / (1 + d x1 x2 y1 y2) and
/// y3 = (y1 y2 + x1 x2) / (1 - d x1 x2 y1 y2), written cross-multiplied:
/// X3 (Z1²Z2² + d X1Y1X2Y2) = Z3 (X1Y2 + Y1X2) Z1Z2 and
/// Y3 (Z1²Z2² - d X1Y1X2Y2) = Z3 (Y1Y2 + X1X2) Z1Z2 in the field.
pub proof fn lemma_add_is_affine_sum(p: PointCoords, r: PointCoords)
    requires
        canonical_point(p),
        canonical_point(r),
        t_consistent(p),
        t_consistent(r),
    ensures
        ({
            let (x1, y1, z1) = (p.0 as int, p.1 as int, p.3 as int);
            let (x2, y2, z2) = (r.0 as int, r.1 as int, r.3 as int);
            let dd = coeff_d_nat() as int;
            let zz = (z1 * z2) * (z1 * z2);
            let xy = (x1 * y1) * (x2 * y2);
            let s = ed_add(p, r);
            &&& fq_cong(s.0 * (zz + dd * xy), s.3 * ((x1 * y2 + y1 * x2) * (z1 * z2)))
            &&& fq_cong(s.1 * (zz - dd * xy), s.3 * ((y1 * y2 + x1 * x2) * (z1 * z2)))
        }),
{
    let (x1, y1, t1, z1) = (p.0 as int, p.1 as int, p.2 as int, p.3 as int);
    let (x2, y2, t2, z2) = (r.0 as int, r.1 as int, r.2 as int, r.3 as int);
    let dd = coeff_d_nat() as int;
    let e = x1 * y2 + y1 * x2;
    let h = y1 * y2 + x1 * x2;
    let f = z1 * z2 - dd * (t1 * t2);
    let g = z1 * z2 + dd * (t1 * t2);
    let zz = (z1 * z2) * (z1 * z2);
    let xy = (x1 * y1) * (x2 * y2);
    let tz = (t1 * z1) * (t2 * z2);
    let s = ed_add(p, r);
    lemma_add_coords(p, r);
    // T1Z1 T2Z2 = X1Y1 X2Y2
    lemma_cong_mul(t1 * z1, t2 * z2, x1 * y1, x2 * y2);
    lemma_cong_mul(dd, tz, dd, xy);
    lemma_cong_add(zz, dd * tz, zz, dd * xy);
    lemma_cong_sub(zz, dd * tz, zz, dd * xy);
    assert((z1 * z2) * g == zz + dd * tz && (z1 * z2) * f == zz - dd * tz) by (nonlinear_arith)
        requires
            g == z1 * z2 + dd * (t1 * t2),
            f == z1 * z2 - dd * (t1 * t2),
            zz == (z1 * z2) * (z1 * z2),
            tz == (t1 * z1) * (t2 * z2),
    ;
    // X3 (zz + d xy) = 4ef (Z1Z2 g) = 4fg e Z1Z2 = Z3 e Z1Z2
    lemma_cong_mul(s.0 as int, zz + dd * xy, 4 * (e * f), (z1 * z2) * g);
    lemma_cong_mul(s.3 as int, e * (z1 * z2), 4 * (f * g), e * (z1 * z2));
    assert((4 * (e * f)) * ((z1 * z2) * g) == (4 * (f * g)) * (e * (z1 * z2))) by (nonlinear_arith);
    // Y3 (zz - d xy) = 4gh (Z1Z2 f) = 4fg h Z1Z2 = Z3 h Z1Z2
    lemma_cong_mul(s.1 as int, zz - dd * xy, 4 * (g * h), (z1 * z2) * f);
    lemma_cong_mul(s.3 as int, h * (z1 * z2), 4 * (f * g), h * (z1 * z2));
    assert((4 * (g * h)) * ((z1 * z2) * f) == (4 * (f * g)) * (h * (z1 * z2))) by (nonlinear_arith);
    assert(e * (z1 * z2) == (x1 * y2 + y1 * x2) * (z1 * z2));
    assert(h * (z1 * z2) == (y1 * y2 + x1 * x2) * (z1 * z2));
}


proof fn lemma_binom(a: int, b: int, c: int, d: int)
    by (nonlinear_arith)
    ensures
        (a + b) * (c + d) == a * c + a * d + b * c + b * d,
{
}

proof fn lemma_binom_diff(a: int, b: int, c: int, d: int)
    by (nonlinear_arith)
    ensures
        (a - b) * (c - d) == a * c - a * d - b * c + b * d,
{
}

proof fn lemma_binom_mixed(a: int, b: int, c: int, d: int)
    by (nonlinear_arith)
    ensures
        (a + b) * (c - d) == a * c - a * d + b * c - b * d,
{
}

proof fn lemma_sq_diff(a: int, b: int)
    by (nonlinear_arith)
    ensures
        a * a - b * b == (a + b) * (a - b),
{
}

proof fn lemma_mul_add(a: int, b: int, c: int)
    by (nonlinear_arith)
    ensures
        a * (b + c) == a * b + a * c,
        a * (b - c) == a * b - a * c,
{
}

/// The curve equation of a sum, over the integers: with e, f, g, h as in the
/// sum's coordinates, g²h² - e²f² = f²g² + d e²h² modulo q whenever both
/// summands are on the curve and satisfy `T*Z = X*Y`.
proof fn lemma_sum_curve_equation(x1: int, y1: int, t1: int, z1: int, x2: int, y2: int, t2: int, z2: int, d: int)
    requires
        fq_cong(y1 * y1 - x1 * x1, z1 * z1 + d * (t1 * t1)),
        fq_cong(y2 * y2 - x2 * x2, z2 * z2 + d * (t2 * t2)),
        fq_cong(t1 * z1, x1 * y1),
        fq_cong(t2 * z2, x2 * y2),
    ensures
        ({
            let e = x1 * y2 + y1 * x2;
            let h = y1 * y2 + x1 * x2;
            let f = z1 * z2 - d * (t1 * t2);
            let g = z1 * z2 + d * (t1 * t2);
            fq_cong((g * g) * (h * h) - (e * e) * (f * f), (f * f) * (g * g) + d * ((e * e) * (h * h)))
        }),
{
    let (p, q, u, v) = (x1 * x2, y1 * y2, z1 * z2, t1 * t2);
    let e = x1 * y2 + y1 * x2;
    let h = q + p;
    let f = u - d * v;
    let g = u + d * v;
    let a1 = y1 * y1 - x1 * x1;
    let a2 = y2 * y2 - x2 * x2;
    let b1 = z1 * z1 + d * (t1 * t1);
    let b2 = z2 * z2 + d * (t2 * t2);
    let m = z1 * t2 + t1 * z2;
    let (ee, ff, gg, hh) = (e * e, f * f, g * g, h * h);
    let dq = q - p;
    // integer identities
    let (s1, d1, s2, d2) = (y1 + x1, y1 - x1, y2 + x2, y2 - x2);
    lemma_sq_diff(h, e);
    lemma_binom(y1, x1, y2, x2);
    lemma_binom_diff(y1, x1, y2, x2);
    lemma_sq_diff(y1, x1);
    lemma_sq_diff(y2, x2);
    assert((s1 * s2) * (d1 * d2) == (s1 * d1) * (s2 * d2)) by (nonlinear_arith);
    assert(hh - ee == a1 * a2);
    {
        let (al, be, ga, de) = (z1 * z2, t1 * t2, z1 * t2, t1 * z2);
        let (za, ta, zb, tb) = (z1 * z1, t1 * t1, z2 * z2, t2 * t2);
        lemma_binom(za, d * ta, zb, d * tb);
        assert(za * zb == al * al) by (nonlinear_arith)
        requires
            al == z1 * z2,
            be == t1 * t2,
            ga == z1 * t2,
            de == t1 * z2,
            za == z1 * z1,
            ta == t1 * t1,
            zb == z2 * z2,
            tb == t2 * t2,
    ;
        assert(za * (d * tb) == d * (ga * ga)) by (nonlinear_arith)
        requires
            al == z1 * z2,
            be == t1 * t2,
            ga == z1 * t2,
            de == t1 * z2,
            za == z1 * z1,
            ta == t1 * t1,
            zb == z2 * z2,
            tb == t2 * t2,
    ;
        assert((d * ta) * zb == d * (de * de)) by (nonlinear_arith)
        requires
            al == z1 * z2,
            be == t1 * t2,
            ga == z1 * t2,
            de == t1 * z2,
            za == z1 * z1,
            ta == t1 * t1,
            zb == z2 * z2,
            tb == t2 * t2,
    ;
        assert((d * ta) * (d * tb) == (d * be) * (d * be)) by (nonlinear_arith)
        requires
            al == z1 * z2,
            be == t1 * t2,
            ga == z1 * t2,
            de == t1 * z2,
            za == z1 * z1,
            ta == t1 * t1,
            zb == z2 * z2,
            tb == t2 * t2,
    ;
        lemma_binom_diff(al, d * be, al, d * be);
        lemma_binom(ga, de, ga, de);
        assert((z1 * z2) * (d * (t1 * t2)) == d * ((z1 * t2) * (t1 * z2))) by (nonlinear_arith);
        assert((d * (t1 * t2)) * (z1 * z2) == d * ((z1 * t2) * (t1 * z2))) by (nonlinear_arith);
        assert(de * ga == ga * de) by (nonlinear_arith);
        assert(d * (ga * ga + ga * de + de * ga + de * de) == d * (ga * ga) + d * (ga * de) + d * (de * ga) + d * (de * de)) by (nonlinear_arith);
        assert(b1 * b2 == ff + d * (m * m));
    }
    assert(gg - ff == 4 * d * (u * v)) by (nonlinear_arith)
        requires
            gg == g * g,
            ff == f * f,
            g == u + d * v,
            f == u - d * v,
    ;
    lemma_binom_mixed(x1 * y2, y1 * x2, y1 * y2, x1 * x2);
    lemma_mul_add(x1 * y1, y2 * y2, x2 * x2);
    lemma_mul_add(x2 * y2, y1 * y1, x1 * x1);
    assert((x1 * y2) * (y1 * y2) == (x1 * y1) * (y2 * y2)) by (nonlinear_arith);
    assert((x1 * y2) * (x1 * x2) == (x2 * y2) * (x1 * x1)) by (nonlinear_arith);
    assert((y1 * x2) * (y1 * y2) == (x2 * y2) * (y1 * y1)) by (nonlinear_arith);
    assert((y1 * x2) * (x1 * x2) == (x1 * y1) * (x2 * x2)) by (nonlinear_arith);
    assert(e * dq == (x1 * y1) * a2 + (x2 * y2) * a1);
    lemma_mul_add(t1 * z1, z2 * z2, d * (t2 * t2));
    lemma_mul_add(t2 * z2, z1 * z1, d * (t1 * t1));
    lemma_binom(z1 * t2, t1 * z2, z1 * z2, d * (t1 * t2));
    assert((t1 * z1) * (z2 * z2) == (t1 * z2) * (z1 * z2)) by (nonlinear_arith);
    assert((t2 * z2) * (z1 * z1) == (z1 * t2) * (z1 * z2)) by (nonlinear_arith);
    assert((t1 * z1) * (d * (t2 * t2)) == (z1 * t2) * (d * (t1 * t2))) by (nonlinear_arith);
    assert((t2 * z2) * (d * (t1 * t1)) == (t1 * z2) * (d * (t1 * t2))) by (nonlinear_arith);
    assert((t1 * z1) * b2 + (t2 * z2) * b1 == m * g);
    assert(hh == dq * dq + 4 * (p * q)) by (nonlinear_arith)
        requires
            hh == h * h,
            h == q + p,
            dq == q - p,
    ;
    assert(p * q == (x1 * y1) * (x2 * y2) && u * v == (t1 * z1) * (t2 * z2)) by (nonlinear_arith)
        requires
            p == x1 * x2,
            q == y1 * y2,
            u == z1 * z2,
            v == t1 * t2,
    ;
    // congruences from the curve and the T relation
    lemma_cong_mul(a1, a2, b1, b2);
    lemma_cong_mul(t1 * z1, t2 * z2, x1 * y1, x2 * y2);
    lemma_cong_mul(x1 * y1, a2, t1 * z1, b2);
    lemma_cong_mul(x2 * y2, a1, t2 * z2, b1);
    lemma_cong_add((x1 * y1) * a2, (x2 * y2) * a1, (t1 * z1) * b2, (t2 * z2) * b1);
    // e (Q - P) = M g, so (M g)² = e² (Q - P)²
    assert(fq_cong(m * g, e * dq));
    lemma_cong_mul(m * g, m * g, e * dq, e * dq);
    assert((m * g) * (m * g) == gg * (m * m) && (e * dq) * (e * dq) == ee * (dq * dq)) by (nonlinear_arith)
        requires
            gg == g * g,
            ee == e * e,
    ;
    // g²h² - e²f² = g²(h² - e²) + e²(g² - f²)
    let l = gg * hh - ee * ff;
    assert(l == gg * (hh - ee) + ee * (gg - ff)) by (nonlinear_arith)
        requires
            l == gg * hh - ee * ff,
    ;
    lemma_cong_mul(gg, hh - ee, gg, b1 * b2);
    lemma_cong_mul(ee, u * v, ee, p * q);
    assert(gg * (b1 * b2) == gg * ff + d * (gg * (m * m))) by (nonlinear_arith)
        requires
            b1 * b2 == ff + d * (m * m),
    ;
    assert(ee * (gg - ff) == 4 * d * (ee * (u * v))) by (nonlinear_arith)
        requires
            gg - ff == 4 * d * (u * v),
    ;
    // l = g²f² + d g²M² + 4d e²UV = g²f² + d e²(Q - P)² + 4d e²PQ = g²f² + d e²h²
    lemma_cong_mul(d, gg * (m * m), d, ee * (dq * dq));
    lemma_cong_mul(4 * d, ee * (u * v), 4 * d, ee * (p * q));
    lemma_cong_add(d * (gg * (m * m)), (4 * d) * (ee * (u * v)), d * (ee * (dq * dq)), (4 * d) * (ee * (p * q)));
    lemma_cong_add(gg * ff, d * (gg * (m * m)) + (4 * d) * (ee * (u * v)), gg * ff, d * (ee * (dq * dq)) + (4 * d) * (ee * (p * q)));
    assert(d * (ee * (dq * dq)) + (4 * d) * (ee * (p * q)) == d * (ee * hh)) by (nonlinear_arith)
        requires
            hh == dq * dq + 4 * (p * q),
    ;
    assert(4 * d * (ee * (u * v)) == (4 * d) * (ee * (u * v))) by (nonlinear_arith);
    assert(l == gg * ff + d * (gg * (m * m)) + (4 * d) * (ee * (u * v)) + (gg * (hh - ee) - gg * (b1 * b2)));
    lemma_cong_sub(gg * (hh - ee), gg * (b1 * b2), gg * (b1 * b2), gg * (b1 * b2));
    lemma_cong_add(
        gg * ff + d * (gg * (m * m)) + (4 * d) * (ee * (u * v)),
        gg * (hh - ee) - gg * (b1 * b2),
        gg * ff + d * (ee * hh),
        0,
    );
    assert(gg * ff == ff * gg) by (nonlinear_arith);
    assert(ee * hh == (e * e) * (h * h));
}

/// A point in extended coordinates: canonical, on the curve, with `T*Z = X*Y`.
pub open spec fn valid_point(p: PointCoords) -> bool {
    canonical_point(p) && on_curve(p) && t_consistent(p)
}

/// The sum of two valid points is a valid point: canonical, on the curve,
/// and with `T*Z = X*Y`.
pub proof fn lemma_add_closed(p: PointCoords, r: PointCoords)
    requires
        valid_point(p),
        valid_point(r),
    ensures
        valid_point(ed_add(p, r)),
{
    let s = ed_add(p, r);
    lemma_add_keeps_t(p, r);
    lemma_add_coords(p, r);
    let (x1, y1, t1, z1) = (p.0 as int, p.1 as int, p.2 as int, p.3 as int);
    let (x2, y2, t2, z2) = (r.0 as int, r.1 as int, r.2 as int, r.3 as int);
    let dd = coeff_d_nat() as int;
    let e = x1 * y2 + y1 * x2;
    let h = y1 * y2 + x1 * x2;
    let f = z1 * z2 - dd * (t1 * t2);
    let g = z1 * z2 + dd * (t1 * t2);
    lemma_sum_curve_equation(x1, y1, t1, z1, x2, y2, t2, z2, dd);
    let (ee, ff, gg, hh) = (e * e, f * f, g * g, h * h);
    lemma_cong_mul(s.1 as int, s.1 as int, 4 * (g * h), 4 * (g * h));
    lemma_cong_mul(s.0 as int, s.0 as int, 4 * (e * f), 4 * (e * f));
    lemma_cong_mul(s.3 as int, s.3 as int, 4 * (f * g), 4 * (f * g));
    lemma_cong_mul(s.2 as int, s.2 as int, 4 * (e * h), 4 * (e * h));
    lemma_cong_mul(dd, s.2 as int * s.2 as int, dd, (4 * (e * h)) * (4 * (e * h)));
    lemma_cong_sub(s.1 as int * s.1 as int, s.0 as int * s.0 as int, (4 * (g * h)) * (4 * (g * h)), (4 * (e * f)) * (4 * (e * f)));
    lemma_cong_add(s.3 as int * s.3 as int, dd * (s.2 as int * s.2 as int), (4 * (f * g)) * (4 * (f * g)), dd * ((4 * (e * h)) * (4 * (e * h))));
    assert((4 * (g * h)) * (4 * (g * h)) - (4 * (e * f)) * (4 * (e * f)) == 16 * (gg * hh - ee * ff)) by (nonlinear_arith)
        requires
            gg == g * g,
            hh == h * h,
            ee == e * e,
            ff == f * f,
    ;
    assert((4 * (f * g)) * (4 * (f * g)) + dd * ((4 * (e * h)) * (4 * (e * h))) == 16 * (ff * gg + dd * (ee * hh))) by (nonlinear_arith)
        requires
            gg == g * g,
            hh == h * h,
            ee == e * e,
            ff == f * f,
    ;
    lemma_cong_mul(16, gg * hh - ee * ff, 16, ff * gg + dd * (ee * hh));
}

/// The double's coordinates over the integers: X3 = EF, Y3 = GH, T3 = EH,
/// Z3 = FG with E = 2XY, G = Y² - X², F = G - 2Z² and H = -(X² + Y²).
proof fn lemma_double_coords(p: PointCoords)
    requires
        canonical_point(p),
    ensures
        ({
            let (x, y, z) = (p.0 as int, p.1 as int, p.3 as int);
            let e = 2 * (x * y);
            let g = y * y - x * x;
            let f = g - 2 * (z * z);
            let h = -(x * x + y * y);
            let s = ed_double(p);
            &&& fq_cong(s.0 as int, e * f)
            &&& fq_cong(s.1 as int, g * h)
            &&& fq_cong(s.2 as int, e * h)
            &&& fq_cong(s.3 as int, f * g)
        }),
{
    let (x, y, t, z) = p;
    let (xi, yi, zi) = (x as int, y as int, z as int);
    let (x2, y2, z2) = (xi * xi, yi * yi, zi * zi);
    let aa = fq_mul(x, x);
    let bb = fq_mul(y, y);
    let zzd = fq_mul(z, z);
    let cc = fq_add(zzd, zzd);
    let ss = fq_add(x, y);
    let ee = fq_sub(fq_sub(fq_mul(ss, ss), aa), bb);
    let gg = fq_sub(bb, aa);
    let ff = fq_sub(gg, cc);
    let hh = fq_neg(fq_add(aa, bb));
    let dbl = ed_double(p);
    assert(dbl == (fq_mul(ee, ff), fq_mul(gg, hh), fq_mul(ee, hh), fq_mul(ff, gg)));
    lemma_fq_mul_cong(x, x);
    lemma_fq_mul_cong(y, y);
    lemma_fq_mul_cong(z, z);
    lemma_fq_add_cong(zzd, zzd);
    lemma_cong_add(zzd as int, zzd as int, z2, z2);
    lemma_fq_add_cong(x, y);
    lemma_fq_mul_cong(ss, ss);
    lemma_cong_mul(ss as int, ss as int, xi + yi, xi + yi);
    lemma_fq_sub_cong(fq_mul(ss, ss), aa);
    lemma_cong_sub(fq_mul(ss, ss) as int, aa as int, (xi + yi) * (xi + yi), x2);
    lemma_fq_sub_cong(fq_sub(fq_mul(ss, ss), aa), bb);
    lemma_cong_sub(fq_sub(fq_mul(ss, ss), aa) as int, bb as int, (xi + yi) * (xi + yi) - x2, y2);
    assert((xi + yi) * (xi + yi) - x2 - y2 == 2 * (xi * yi)) by (nonlinear_arith)
        requires
            x2 == xi * xi,
            y2 == yi * yi,
    ;
    lemma_fq_sub_cong(bb, aa);
    lemma_cong_sub(bb as int, aa as int, y2, x2);
    lemma_fq_sub_cong(gg, cc);
    lemma_cong_sub(gg as int, cc as int, y2 - x2, z2 + z2);
    lemma_fq_add_cong(aa, bb);
    lemma_cong_add(aa as int, bb as int, x2, y2);
    lemma_fq_neg_cong(fq_add(aa, bb));
    lemma_cong_sub(0, fq_add(aa, bb) as int, 0, x2 + y2);
    let e = 2 * (xi * yi);
    let g = y2 - x2;
    let f = g - 2 * z2;
    let h = -(x2 + y2);
    assert(fq_cong(ee as int, e));
    assert(fq_cong(gg as int, g));
    assert(fq_cong(ff as int, f));
    assert(fq_cong(hh as int, h));
    lemma_fq_mul_cong(ee, ff);
    lemma_cong_mul(ee as int, ff as int, e, f);
    lemma_fq_mul_cong(gg, hh);
    lemma_cong_mul(gg as int, hh as int, g, h);
    lemma_fq_mul_cong(ee, hh);
    lemma_cong_mul(ee as int, hh as int, e, h);
    lemma_fq_mul_cong(ff, gg);
    lemma_cong_mul(ff as int, gg as int, f, g);
}

/// The curve equation of a double, over the integers: with E, F, G, H as
/// in the double's coordinates, (GH)² - (EF)² = (FG)² + d (EH)² modulo q
/// whenever the point is on the curve with `T*Z = X*Y`.
proof fn lemma_double_curve_equation(x: int, y: int, t: int, z: int, d: int)
    requires
        fq_cong(y * y - x * x, z * z + d * (t * t)),
        fq_cong(t * z, x * y),
    ensures
        ({
            let e = 2 * (x * y);
            let g = y * y - x * x;
            let f = g - 2 * (z * z);
            let h = -(x * x + y * y);
            fq_cong((g * h) * (g * h) - (e * f) * (e * f), (f * g) * (f * g) + d * ((e * h) * (e * h)))
        }),
{
    let e = 2 * (x * y);
    let g = y * y - x * x;
    let f = g - 2 * (z * z);
    let sq = x * x + y * y;
    let h = -sq;
    let (gg, ss, ff, ee) = (g * g, sq * sq, f * f, e * e);
    // E² = S² - G²
    lemma_sq_diff(sq, g);
    assert((sq + g) * (sq - g) == e * e) by (nonlinear_arith)
        requires
            sq == x * x + y * y,
            g == y * y - x * x,
            e == 2 * (x * y),
    ;
    assert((g * h) * (g * h) == gg * ss && (e * f) * (e * f) == ee * ff && (f * g) * (f * g) == ff * gg
        && (e * h) * (e * h) == ee * ss) by (nonlinear_arith)
        requires
            h == -sq,
            gg == g * g,
            ss == sq * sq,
            ff == f * f,
            ee == e * e,
    ;
    let l = gg * ss - ee * ff - (ff * gg + d * (ee * ss));
    assert(l == ss * (gg - ff - d * ee)) by (nonlinear_arith)
        requires
            l == gg * ss - ee * ff - (ff * gg + d * (ee * ss)),
            ee == ss - gg,
    ;
    // G² - F² = 4Z²(G - Z²) = 4d (TZ)², and d E² = 4d (XY)² = 4d (TZ)²
    lemma_sq_diff(g, f);
    assert((g + f) * (g - f) == 4 * ((z * z) * (g - z * z))) by (nonlinear_arith)
        requires
            f == g - 2 * (z * z),
    ;
    lemma_cong_sub(g, z * z, z * z + d * (t * t), z * z);
    lemma_cong_mul(4 * (z * z), g - z * z, 4 * (z * z), d * (t * t));
    assert((4 * (z * z)) * (d * (t * t)) == 4 * d * ((t * z) * (t * z))) by (nonlinear_arith);
    assert(4 * ((z * z) * (g - z * z)) == (4 * (z * z)) * (g - z * z)) by (nonlinear_arith);
    lemma_cong_mul(t * z, t * z, x * y, x * y);
    lemma_cong_mul(4 * d, (t * z) * (t * z), 4 * d, (x * y) * (x * y));
    assert(d * ee == 4 * d * ((x * y) * (x * y))) by (nonlinear_arith)
        requires
            ee == e * e,
            e == 2 * (x * y),
    ;
    assert(4 * d * ((t * z) * (t * z)) == (4 * d) * ((t * z) * (t * z))) by (nonlinear_arith);
    assert(4 * d * ((x * y) * (x * y)) == (4 * d) * ((x * y) * (x * y))) by (nonlinear_arith);
    lemma_cong_sub(gg - ff, d * ee, d * ee, d * ee);
    assert(fq_cong(gg - ff - d * ee, 0));
    lemma_cong_mul(ss, gg - ff - d * ee, ss, 0);
    assert(fq_cong(l, 0));
    lemma_cong_add(l, ff * gg + d * (ee * ss), 0, ff * gg + d * (ee * ss));
}

/// The double of a valid point is a valid point: canonical, on the curve,
/// and with `T*Z = X*Y`.
pub proof fn lemma_double_closed(p: PointCoords)
    requires
        valid_point(p),
    ensures
        valid_point(ed_double(p)),
{
    let s = ed_double(p);
    lemma_double_coords(p);
    let (x, y, t, z) = (p.0 as int, p.1 as int, p.2 as int, p.3 as int);
    let dd = coeff_d_nat() as int;
    let e = 2 * (x * y);
    let g = y * y - x * x;
    let f = g - 2 * (z * z);
    let h = -(x * x + y * y);
    lemma_double_curve_equation(x, y, t, z, dd);
    lemma_cong_mul(s.1 as int, s.1 as int, g * h, g * h);
    lemma_cong_mul(s.0 as int, s.0 as int, e * f, e * f);
    lemma_cong_mul(s.3 as int, s.3 as int, f * g, f * g);
    lemma_cong_mul(s.2 as int, s.2 as int, e * h, e * h);
    lemma_cong_mul(dd, s.2 as int * s.2 as int, dd, (e * h) * (e * h));
    lemma_cong_sub(s.1 as int * s.1 as int, s.0 as int * s.0 as int, (g * h) * (g * h), (e * f) * (e * f));
    lemma_cong_add(s.3 as int * s.3 as int, dd * (s.2 as int * s.2 as int), (f * g) * (f * g), dd * ((e * h) * (e * h)));
    // T3 Z3 = (EH)(FG) = (EF)(GH) = X3 Y3
    lemma_cong_mul(s.2 as int, s.3 as int, e * h, f * g);
    lemma_cong_mul(s.0 as int, s.1 as int, e * f, g * h);
    assert((e * h) * (f * g) == (e * f) * (g * h)) by (nonlinear_arith);
    let q = q_nat() as int;
    vstd::arithmetic::div_mod::lemma_mod_bound(s.0 as int, q);
}

/// Every scalar multiple of a valid point is a valid point.
pub proof fn lemma_scalar_mul_closed(p: PointCoords, n: nat)
    requires
        valid_point(p),
    ensures
        valid_point(ed_scalar_mul(p, n)),
    decreases n,
{
    if n == 0 {
        lemma_small_mod(0, q_nat());
        lemma_small_mod(1, q_nat());
    } else if n > 1 {
        lemma_scalar_mul_closed(p, n / 2);
        lemma_double_closed(ed_scalar_mul(p, n / 2));
        if n % 2 == 1 {
            lemma_add_closed(ed_double(ed_scalar_mul(p, n / 2)), p);
        }
    }
}

/// Scalar multiplication is repeated addition of its own point: `0·p` is
/// the neutral element, `1·p` is `p`, `(2n)·p` is the affine point
/// `n·p + n·p`, and `(2n+1)·p` is `(2n)·p + p`, for every valid point `p`
/// and every `n ≥ 1`.
pub proof fn lemma_scalar_mul_is_repeated_addition(p: PointCoords, n: nat)
    requires
        valid_point(p),
    ensures
        ed_scalar_mul(p, 0) == ed_identity(),
        ed_scalar_mul(p, 1) == p,
        n >= 1 ==> same_affine(ed_scalar_mul(p, 2 * n), ed_add(ed_scalar_mul(p, n), ed_scalar_mul(p, n))),
        n >= 1 ==> ed_scalar_mul(p, 2 * n + 1) == ed_add(ed_scalar_mul(p, 2 * n), p),
{
    if n >= 1 {
        assert((2 * n) / 2 == n && (2 * n) % 2 == 0);
        assert((2 * n + 1) / 2 == n && (2 * n + 1) % 2 == 1);
        assert(ed_scalar_mul(p, 2 * n) == ed_double(ed_scalar_mul(p, n)));
        assert(ed_scalar_mul(p, 2 * n + 1) == ed_add(ed_double(ed_scalar_mul(p, n)), p));
        lemma_scalar_mul_closed(p, n);
        lemma_double_is_add_self(ed_scalar_mul(p, n));
    }
}

} // verus!
