use vstd::prelude::*;

use crate::error::EccError;
use crate::fieldelement::{inverse_of, FieldElement};
use crate::text::{decimal, push_decimal};
use vstd::arithmetic::div_mod::*;
use vstd::string::StringExecFns;

verus! {

/// `u + v` in the integers modulo `m`.
pub open spec fn fadd(u: int, v: int, m: int) -> int {
    (u + v) % m
}

/// `u - v` in the integers modulo `m`.
pub open spec fn fsub(u: int, v: int, m: int) -> int {
    (u - v) % m
}

/// `u * v` in the integers modulo `m`.
pub open spec fn fmul(u: int, v: int, m: int) -> int {
    (u * v) % m
}

/// `u / v` in the integers modulo `m`, as `FieldElement::div` computes it.
pub open spec fn fdiv(u: int, v: int, m: int) -> int {
    (u * inverse_of(v, m)) % m
}

/// Whether `(x, y)` satisfies `y^2 = x^3 + a*x + b` modulo `m`.
pub open spec fn on_curve(x: int, y: int, a: int, b: int, m: int) -> bool {
    fmul(y, y, m) == fadd(fadd(fmul(fmul(x, x, m), x, m), fmul(a, x, m), m), b, m)
}

/// A point of the curve `y^2 = x^3 + a*x + b` over the integers modulo
/// `prime`, or the point at infinity (both coordinates absent). Coordinates
/// and coefficients are kept as residues in `0 .. prime`.
#[derive(Debug, Clone, Copy, PartialEq, Eq, Structural)]
pub struct Point {
    x: Option<i64>,
    y: Option<i64>,
    a: i64,
    b: i64,
    prime: i64,
}

/// The value of a point as contracts see it.
#[allow(dead_code)]
pub struct PointView {
    pub x: Option<i64>,
    pub y: Option<i64>,
    pub a: i64,
    pub b: i64,
    pub prime: i64,
}

impl PointView {
    /// Both coordinates are absent.
    pub open spec fn is_infinity(self) -> bool {
        self.x is None && self.y is None
    }

    /// The modulus exceeds one, every value is a residue, and the
    /// coordinates are both present or both absent.
    pub open spec fn valid(self) -> bool {
        &&& 1 < self.prime
        &&& 0 <= self.a < self.prime
        &&& 0 <= self.b < self.prime
        &&& match (self.x, self.y) {
            (None, None) => true,
            (Some(x), Some(y)) => 0 <= x < self.prime && 0 <= y < self.prime,
            _ => false,
        }
    }

    /// An affine point satisfies the curve equation; the identity always does.
    pub open spec fn on_its_curve(self) -> bool {
        match (self.x, self.y) {
            (Some(x), Some(y)) => on_curve(
                x as int,
                y as int,
                self.a as int,
                self.b as int,
                self.prime as int,
            ),
            _ => true,
        }
    }
}

/// The view of a result that holds a point.
pub open spec fn point_result(r: Result<Point, EccError>) -> Result<PointView, EccError> {
    match r {
        Ok(p) => Ok(p@),
        Err(e) => Err(e),
    }
}

/// The text of a point: `Point(infinity)`, or `Point(<x>, <y>)_<a>_<b>`
/// in decimal.
pub open spec fn text_of(p: PointView) -> Seq<char> {
    match (p.x, p.y) {
        (Some(x), Some(y)) => "Point("@ + decimal(x as nat) + ", "@ + decimal(y as nat) + ")_"@
            + decimal(p.a as nat) + "_"@ + decimal(p.b as nat),
        _ => "Point(infinity)"@,
    }
}

/// The point at infinity of the curve `(a, b)` modulo `m`.
pub open spec fn identity_of(a: i64, b: i64, m: i64) -> PointView {
    PointView { x: None, y: None, a, b, prime: m }
}

/// What `Point::new` returns: every value is reduced modulo `m`, and an affine
/// point must satisfy the curve equation.
pub open spec fn create_spec(x: Option<i64>, y: Option<i64>, a: i64, b: i64, m: i64) -> Result<
    PointView,
    EccError,
> {
    if m <= 1 {
        Err(EccError::InvalidField)
    } else {
        let ra = (a % m) as i64;
        let rb = (b % m) as i64;
        match (x, y) {
            (None, None) => Ok(identity_of(ra, rb, m)),
            (Some(xv), Some(yv)) => {
                let rx = (xv % m) as i64;
                let ry = (yv % m) as i64;
                if on_curve(rx as int, ry as int, ra as int, rb as int, m as int) {
                    Ok(PointView { x: Some(rx), y: Some(ry), a: ra, b: rb, prime: m })
                } else {
                    Err(EccError::PointNotOnCurve)
                }
            },
            _ => Err(EccError::InvalidCoordinates),
        }
    }
}

/// The negation `(x, -y)`; the identity is its own negation.
pub open spec fn neg_spec(p: PointView) -> PointView {
    match (p.x, p.y) {
        (Some(x), Some(y)) => PointView {
            x: Some(x),
            y: Some(fsub(0, y as int, p.prime as int) as i64),
            ..p
        },
        _ => p,
    }
}

/// The third point of the line of slope `s` through `(x1, y1)` and a point of
/// abscissa `x2`, reflected in the x axis: `x3 = s^2 - x1 - x2` and
/// `y3 = s * (x1 - x3) - y1`, modulo `m`.
pub open spec fn line_spec(s: int, x1: int, x2: int, y1: int, a: i64, b: i64, m: i64) -> PointView {
    let x3 = fsub(fsub(fmul(s, s, m as int), x1, m as int), x2, m as int);
    let y3 = fsub(fmul(s, fsub(x1, x3, m as int), m as int), y1, m as int);
    PointView { x: Some(x3 as i64), y: Some(y3 as i64), a, b, prime: m }
}

/// The chord-and-tangent sum of two points, in the field.
pub open spec fn add_spec(p: PointView, q: PointView) -> Result<PointView, EccError> {
    if p.a != q.a || p.b != q.b || p.prime != q.prime {
        Err(EccError::CurveMismatch)
    } else if p.is_infinity() {
        Ok(q)
    } else if q.is_infinity() {
        Ok(p)
    } else {
        let m = p.prime as int;
        let x1 = p.x.unwrap() as int;
        let y1 = p.y.unwrap() as int;
        let x2 = q.x.unwrap() as int;
        let y2 = q.y.unwrap() as int;
        if x1 == x2 && fadd(y1, y2, m) == 0 {
            Ok(identity_of(p.a, p.b, p.prime))
        } else if x1 != x2 {
            let s = fdiv(fsub(y2, y1, m), fsub(x2, x1, m), m);
            Ok(line_spec(s, x1, x2, y1, p.a, p.b, p.prime))
        } else if fadd(y1, y1, m) == 0 {
            Ok(identity_of(p.a, p.b, p.prime))
        } else {
            let sq = fmul(x1, x1, m);
            let num = fadd(fadd(fadd(sq, sq, m), sq, m), p.a as int, m);
            let s = fdiv(num, fadd(y1, y1, m), m);
            Ok(line_spec(s, x1, x1, y1, p.a, p.b, p.prime))
        }
    }
}

/// Double-and-add from the accumulator `acc` and the running double `cur`
/// over the bits of `n`, lowest first: each set bit adds `cur` to `acc`, and
/// `cur` is doubled after every bit.
pub open spec fn ladder(acc: PointView, cur: PointView, n: nat) -> Result<PointView, EccError>
    decreases n,
{
    if n == 0 {
        Ok(acc)
    } else {
        let step = if n % 2 == 1 {
            add_spec(acc, cur)
        } else {
            Ok(acc)
        };
        match step {
            Err(e) => Err(e),
            Ok(next) => match add_spec(cur, cur) {
                Err(e) => Err(e),
                Ok(doubled) => ladder(next, doubled, n / 2),
            },
        }
    }
}

/// The multiple `k * p`: double-and-add over `|k|`, on the negation of `p`
/// when `k` is negative, starting from the identity of the curve.
pub open spec fn scalar_spec(p: PointView, k: int) -> Result<PointView, EccError> {
    let id = identity_of(p.a, p.b, p.prime);
    if k < 0 {
        ladder(id, neg_spec(p), (-k) as nat)
    } else {
        ladder(id, p, k as nat)
    }
}

impl View for Point {
    type V = PointView;

    closed spec fn view(&self) -> PointView {
        PointView { x: self.x, y: self.y, a: self.a, b: self.b, prime: self.prime }
    }
}

impl Point {
    #[verifier::type_invariant]
    spec fn inv(self) -> bool {
        self@.valid()
    }

    /// Creates a point of the curve `y^2 = x^3 + a*x + b` modulo `prime`: the
    /// point at infinity when both coordinates are absent, otherwise the
    /// affine point `(x, y)`, which must satisfy the curve equation. Every
    /// value is reduced into `0 .. prime`.
    pub fn new(x: Option<i64>, y: Option<i64>, a: i64, b: i64, prime: i64) -> (r: Result<
        Point,
        EccError,
    >)
        ensures
            point_result(r) == create_spec(x, y, a, b, prime),
            r matches Ok(p) ==> p@.valid() && p@.on_its_curve(),
    {
        if prime <= 1 {
            return Err(EccError::InvalidField);
        }
        let ra = reduce(a, prime);
        let rb = reduce(b, prime);
        match (x, y) {
            (None, None) => Ok(Point { x: None, y: None, a: ra, b: rb, prime }),
            (Some(xv), Some(yv)) => {
                let rx = reduce(xv, prime);
                let ry = reduce(yv, prime);
                let fx = elem(rx, prime);
                let fy = elem(ry, prime);
                let lhs = fmul_e(fy, fy);
                let rhs = fadd_e(
                    fadd_e(fmul_e(fmul_e(fx, fx), fx), fmul_e(elem(ra, prime), fx)),
                    elem(rb, prime),
                );
                if lhs.num() == rhs.num() {
                    Ok(Point { x: Some(rx), y: Some(ry), a: ra, b: rb, prime })
                } else {
                    Err(EccError::PointNotOnCurve)
                }
            },
            _ => Err(EccError::InvalidCoordinates),
        }
    }

    /// Whether this is the point at infinity, the identity of the group.
    pub fn is_infinity(&self) -> (r: bool)
        ensures
            r == self@.is_infinity(),
    {
        self.x.is_none() && self.y.is_none()
    }

    /// The negation `(x, -y)` of an affine point; the identity is its own
    /// negation.
    pub fn neg(self) -> (r: Point)
        ensures
            r@ == neg_spec(self@),
    {
        proof { use_type_invariant(&self); }
        match (self.x, self.y) {
            (Some(x), Some(y)) => {
                let ny = fsub_e(elem(0, self.prime), elem(y, self.prime));
                Point { x: Some(x), y: Some(ny.num()), a: self.a, b: self.b, prime: self.prime }
            },
            _ => self,
        }
    }

    /// The sum `self + other` by the chord-and-tangent law, with every slope
    /// and coordinate computed by `FieldElement` arithmetic. It fails only when
    /// the two points belong to different curves or fields.
    pub fn add(self, other: Point) -> (r: Result<Point, EccError>)
        ensures
            point_result(r) == add_spec(self@, other@),
            r is Err <==> self@.a != other@.a || self@.b != other@.b || self@.prime
                != other@.prime,
    {
        proof {
            use_type_invariant(&self);
            use_type_invariant(&other);
        }
        if self.a != other.a || self.b != other.b || self.prime != other.prime {
            return Err(EccError::CurveMismatch);
        }
        if self.is_infinity() {
            return Ok(other);
        }
        if other.is_infinity() {
            return Ok(self);
        }
        let m = self.prime;
        let x1 = self.x.unwrap();
        let y1 = self.y.unwrap();
        let x2 = other.x.unwrap();
        let y2 = other.y.unwrap();
        let fx1 = elem(x1, m);
        let fy1 = elem(y1, m);
        let fx2 = elem(x2, m);
        let fy2 = elem(y2, m);
        let ysum = fadd_e(fy1, fy2);
        if x1 == x2 && ysum.num() == 0 {
            return Ok(Point { x: None, y: None, a: self.a, b: self.b, prime: m });
        }
        let s = if x1 != x2 {
            let dx = fsub_e(fx2, fx1);
            proof {
                lemma_small_difference_nonzero(x2 as int - x1 as int, m as int);
            }
            fdiv_e(fsub_e(fy2, fy1), dx)
        } else {
            let twice = fadd_e(fy1, fy1);
            if twice.num() == 0 {
                return Ok(Point { x: None, y: None, a: self.a, b: self.b, prime: m });
            }
            let sq = fmul_e(fx1, fx1);
            let num = fadd_e(fadd_e(fadd_e(sq, sq), sq), elem(self.a, m));
            fdiv_e(num, twice)
        };
        let x3 = fsub_e(fsub_e(fmul_e(s, s), fx1), fx2);
        let y3 = fsub_e(fmul_e(s, fsub_e(fx1, x3)), fy1);
        Ok(Point { x: Some(x3.num()), y: Some(y3.num()), a: self.a, b: self.b, prime: m })
    }

    /// The scalar multiple `k * self`, by double-and-add; a negative `k`
    /// multiplies the negation of `self` by `-k`. It always succeeds.
    pub fn mul(self, k: i64) -> (r: Result<Point, EccError>)
        ensures
            point_result(r) == scalar_spec(self@, k as int),
            r is Ok,
    {
        proof { use_type_invariant(&self); }
        let base = if k < 0 {
            self.neg()
        } else {
            self
        };
        let mut n: u64 = if k < 0 {
            (-(k as i128)) as u64
        } else {
            k as u64
        };
        let mut result = Point { x: None, y: None, a: self.a, b: self.b, prime: self.prime };
        let mut current = base;
        proof {
            lemma_ladder_ok(result@, current@, n as nat);
        }
        while n > 0
            invariant
                ladder(result@, current@, n as nat) == scalar_spec(self@, k as int),
                result@.a == current@.a && result@.b == current@.b && result@.prime
                    == current@.prime,
            decreases n,
        {
            if n % 2 == 1 {
                match result.add(current) {
                    Ok(next) => {
                        result = next;
                    },
                    Err(e) => {
                        return Err(e);
                    },
                }
            }
            match current.add(current) {
                Ok(doubled) => {
                    current = doubled;
                },
                Err(e) => {
                    return Err(e);
                },
            }
            n = n / 2;
        }
        Ok(result)
    }

    /// The text of the point, as `text_of` gives it.
    pub fn to_text(&self) -> (r: String)
        ensures
            r@ == text_of(self@),
    {
        proof { use_type_invariant(self); }
        let mut s = String::new();
        match (self.x, self.y) {
            (Some(x), Some(y)) => {
                s.append("Point(");
                push_decimal(&mut s, x as u64);
                s.append(", ");
                push_decimal(&mut s, y as u64);
                s.append(")_");
                push_decimal(&mut s, self.a as u64);
                s.append("_");
                push_decimal(&mut s, self.b as u64);
                assert(s@ =~= text_of(self@));
            },
            _ => {
                s.append("Point(infinity)");
                assert(s@ =~= text_of(self@));
            },
        }
        s
    }

    /// The x coordinate, `None` at infinity.
    pub fn x(&self) -> (r: Option<i64>)
        ensures
            r == self@.x,
    {
        self.x
    }

    /// The y coordinate, `None` at infinity.
    pub fn y(&self) -> (r: Option<i64>)
        ensures
            r == self@.y,
    {
        self.y
    }

    /// The coefficient `a` of the curve.
    pub fn a(&self) -> (r: i64)
        ensures
            r == self@.a,
    {
        self.a
    }

    /// The coefficient `b` of the curve.
    pub fn b(&self) -> (r: i64)
        ensures
            r == self@.b,
    {
        self.b
    }

    /// The modulus of the field.
    pub fn prime(&self) -> (r: i64)
        ensures
            r == self@.prime,
    {
        self.prime
    }
}

/// The residue `v` of the field of order `m`.
fn elem(v: i64, m: i64) -> (r: FieldElement)
    requires
        1 < m,
        0 <= v < m,
    ensures
        r.residue() == v,
        r.modulus() == m,
{
    FieldElement::new(v, m).unwrap()
}

/// Field addition of two elements of one field.
fn fadd_e(u: FieldElement, v: FieldElement) -> (r: FieldElement)
    requires
        u.modulus() == v.modulus(),
    ensures
        r.residue() == fadd(u.residue(), v.residue(), u.modulus()),
        r.modulus() == u.modulus(),
{
    u.add(v).unwrap()
}

/// Field subtraction of two elements of one field.
fn fsub_e(u: FieldElement, v: FieldElement) -> (r: FieldElement)
    requires
        u.modulus() == v.modulus(),
    ensures
        r.residue() == fsub(u.residue(), v.residue(), u.modulus()),
        r.modulus() == u.modulus(),
{
    u.sub(v).unwrap()
}

/// Field multiplication of two elements of one field.
fn fmul_e(u: FieldElement, v: FieldElement) -> (r: FieldElement)
    requires
        u.modulus() == v.modulus(),
    ensures
        r.residue() == fmul(u.residue(), v.residue(), u.modulus()),
        r.modulus() == u.modulus(),
{
    u.mul(v).unwrap()
}

/// Field division by a nonzero element of the same field.
fn fdiv_e(u: FieldElement, v: FieldElement) -> (r: FieldElement)
    requires
        u.modulus() == v.modulus(),
        v.residue() != 0,
    ensures
        r.residue() == fdiv(u.residue(), v.residue(), u.modulus()),
        r.modulus() == u.modulus(),
{
    u.div(v).unwrap()
}

/// `v` reduced into `0 .. m`.
fn reduce(v: i64, m: i64) -> (r: i64)
    requires
        1 < m,
    ensures
        r == (v as int) % (m as int),
        0 <= r < m,
{
    let mm = m as i128;
    if v >= 0 {
        ((v as i128) % mm) as i64
    } else {
        let w = -(v as i128);
        let t = w % mm;
        proof {
            let (wi, mi, ti) = (w as int, m as int, t as int);
            lemma_fundamental_div_mod(wi, mi);
            let q = wi / mi;
            if ti == 0 {
                assert(v == (-q) * mi) by (nonlinear_arith)
                    requires wi == mi * q + ti, ti == 0, v == -wi;
                lemma_mod_multiples_basic(-q, mi);
            } else {
                assert(v == mi * (-q - 1) + (mi - ti)) by (nonlinear_arith)
                    requires wi == mi * q + ti, v == -wi;
                lemma_mod_multiples_vanish(-q - 1, mi - ti, mi);
                lemma_small_mod((mi - ti) as nat, mi as nat);
            }
        }
        if t == 0 {
            0
        } else {
            (mm - t) as i64
        }
    }
}

/// A nonzero difference of two residues is nonzero modulo `m`.
proof fn lemma_small_difference_nonzero(d: int, m: int)
    requires
        1 < m,
        -m < d < m,
        d != 0,
    ensures
        d % m != 0,
{
    lemma_fundamental_div_mod(d, m);
    let q = d / m;
    if d % m == 0 {
        assert(false) by (nonlinear_arith)
            requires d == m * q + 0, -m < d < m, d != 0, m > 1;
    }
}

/// Addition of two points of one curve always succeeds, on that curve.
proof fn lemma_add_same_curve(p: PointView, q: PointView)
    requires
        p.a == q.a && p.b == q.b && p.prime == q.prime,
    ensures
        add_spec(p, q) is Ok,
        add_spec(p, q).unwrap().a == p.a,
        add_spec(p, q).unwrap().b == p.b,
        add_spec(p, q).unwrap().prime == p.prime,
{
}

/// Double-and-add over points of one curve always succeeds.
proof fn lemma_ladder_ok(acc: PointView, cur: PointView, n: nat)
    requires
        acc.a == cur.a && acc.b == cur.b && acc.prime == cur.prime,
    ensures
        ladder(acc, cur, n) is Ok,
    decreases n,
{
    if n > 0 {
        lemma_add_same_curve(acc, cur);
        lemma_add_same_curve(cur, cur);
        let next = if n % 2 == 1 {
            add_spec(acc, cur).unwrap()
        } else {
            acc
        };
        lemma_ladder_ok(next, add_spec(cur, cur).unwrap(), n / 2);
    }
}

/// The point at infinity is neutral on both sides: `p + O == p` and
/// `O + p == p` for every point `p`, where `O` is the identity of its curve.
pub proof fn lemma_identity_is_neutral(p: PointView)
    ensures
        add_spec(p, identity_of(p.a, p.b, p.prime)) == Ok::<PointView, EccError>(p),
        add_spec(identity_of(p.a, p.b, p.prime), p) == Ok::<PointView, EccError>(p),
{
}

/// Every valid point plus its negation is the identity of its curve.
pub proof fn lemma_add_negation(p: PointView)
    requires
        p.valid(),
    ensures
        add_spec(p, neg_spec(p)) == Ok::<PointView, EccError>(identity_of(p.a, p.b, p.prime)),
{
    if !p.is_infinity() {
        let y = p.y.unwrap() as int;
        let m = p.prime as int;
        lemma_add_mod_noop_right(y, 0 - y, m);
        lemma_small_mod(0, m as nat);
        lemma_mod_bound(0 - y, m);
    }
}

/// Multiplying by a negative `k` is multiplying the negation by `-k`.
pub proof fn lemma_scalar_negative(p: PointView, k: int)
    requires
        k < 0,
    ensures
        scalar_spec(p, k) == scalar_spec(neg_spec(p), -k),
{
}

/// Scalar multiplication by zero gives the identity, by one gives the point
/// itself, and by two gives the point added to itself.
pub proof fn lemma_scalar_small_multiples(p: PointView)
    ensures
        scalar_spec(p, 0) == Ok::<PointView, EccError>(identity_of(p.a, p.b, p.prime)),
        scalar_spec(p, 1) == Ok::<PointView, EccError>(p),
        scalar_spec(p, 2) == add_spec(p, p),
{
    let id = identity_of(p.a, p.b, p.prime);
    lemma_add_same_curve(p, p);
    let d = add_spec(p, p).unwrap();
    lemma_add_same_curve(d, d);
    assert(add_spec(id, p) == Ok::<PointView, EccError>(p));
    assert(ladder(p, d, 0) == Ok::<PointView, EccError>(p));
    assert(ladder(id, p, 1) == Ok::<PointView, EccError>(p));
    assert(add_spec(id, d) == Ok::<PointView, EccError>(d));
    let dd = add_spec(d, d).unwrap();
    assert(ladder(d, dd, 0) == Ok::<PointView, EccError>(d));
    assert(ladder(id, d, 1) == Ok::<PointView, EccError>(d));
    assert(ladder(id, p, 2) == add_spec(p, p));
}

} // verus!
