use crypto::error::EccError;
use crypto::point::Point;

const P: i64 = 223;
const M61: i64 = 2305843009213693951;

fn pt(x: i64, y: i64, a: i64, b: i64) -> Point {
    Point::new(Some(x), Some(y), a, b, P).unwrap()
}

fn inf(a: i64, b: i64) -> Point {
    Point::new(None, None, a, b, P).unwrap()
}

#[test]
fn test_point_creation() {
    // Point on the curve y^2 = x^3 + 5x + 7
    let p1 = Point::new(Some(-1), Some(1), 5, 7, P);
    assert!(p1.is_ok());

    // Point not on the curve
    let p2 = Point::new(Some(2), Some(4), 5, 7, P);
    assert!(p2.is_err());

    // Point at infinity
    let p3 = Point::new(None, None, 5, 7, P);
    assert!(p3.is_ok());
}

#[test]
fn test_point_addition() {
    // Points on the curve y^2 = x^3 + 5x + 7
    let p1 = Point::new(Some(-1), Some(-1), 5, 7, P).unwrap();
    let p2 = Point::new(Some(2), Some(5), 5, 7, P).unwrap();

    // Chord: (-1, -1) + (2, 5) == (3, -7)
    let p3 = p1.clone().add(p2.clone()).unwrap();
    assert_eq!(p3.x(), Some(3));
    assert_eq!(p3.y(), Some(P - 7));

    // Addition with the point at infinity
    let inf = Point::new(None, None, 5, 7, P).unwrap();
    let p4 = p1.clone().add(inf.clone()).unwrap();
    assert_eq!(p4, p1);

    // Doubling a point
    let p5 = p1.clone().add(p1.clone()).unwrap();
    assert!(p5.x().is_some() && p5.y().is_some());
}

#[test]
fn test_scalar_multiplication() {
    let p = Point::new(Some(-1), Some(1), 5, 7, P).unwrap();

    // Multiplication by 0
    let p0 = p.clone().mul(0).unwrap();
    assert!(p0.is_infinity());

    // Multiplication by 1
    let p1 = p.clone().mul(1).unwrap();
    assert_eq!(p1, p);

    // Multiplication by 2 (same as doubling)
    let p2 = p.clone().mul(2).unwrap();
    let p2_alt = p.clone().add(p.clone()).unwrap();
    assert_eq!(p2, p2_alt);
}

#[test]
fn point_creation_errors() {
    assert_eq!(Point::new(Some(2), Some(4), 5, 7, P), Err(EccError::PointNotOnCurve));
    assert_eq!(Point::new(Some(1), None, 5, 7, P), Err(EccError::InvalidCoordinates));
    assert_eq!(Point::new(None, Some(1), 5, 7, P), Err(EccError::InvalidCoordinates));
    assert_eq!(Point::new(None, None, 5, 7, 1), Err(EccError::InvalidField));
    assert_eq!(Point::new(Some(-1), Some(1), 5, 7, -3), Err(EccError::InvalidField));
}

#[test]
fn values_are_reduced_into_the_field() {
    let p = pt(-1, 1 + P, 5 - P, 7 + 2 * P);
    assert_eq!(p.x(), Some(P - 1));
    assert_eq!(p.y(), Some(1));
    assert_eq!(p.a(), 5);
    assert_eq!(p.b(), 7);
    assert_eq!(p.prime(), P);
    assert_eq!(p, pt(P - 1, 1, 5, 7));
    // Extreme inputs are reduced without overflow.
    assert_eq!(
        Point::new(Some(i64::MIN), Some(i64::MAX), i64::MIN, i64::MAX, M61),
        Err(EccError::PointNotOnCurve)
    );
    let o = Point::new(None, None, i64::MIN, i64::MAX, M61).unwrap();
    assert_eq!(o.a(), 2305843009213693947);
    assert_eq!(o.b(), 3);
}

#[test]
fn accessors_report_the_coordinates() {
    let o = inf(5, 7);
    assert!(o.is_infinity());
    assert_eq!(o.x(), None);
    assert_eq!(o.y(), None);
    assert!(!pt(2, 5, 5, 7).is_infinity());
}

#[test]
fn chord_with_fractional_slope() {
    // (-1, 1) + (2, 5): the slope 4/3 is a field element.
    assert_eq!(pt(-1, 1, 5, 7).add(pt(2, 5, 5, 7)), Ok(pt(199, 104, 5, 7)));
}

#[test]
fn identity_is_neutral() {
    let p = pt(-1, 1, 5, 7);
    let o = inf(5, 7);
    assert_eq!(p.add(o), Ok(p));
    assert_eq!(o.add(p), Ok(p));
    assert_eq!(o.add(o), Ok(o));
}

#[test]
fn point_plus_negation_is_identity() {
    for p in [pt(-1, 1, 5, 7), pt(18, 146, 5, 7), pt(2, 5, 5, 7), pt(-1, 0, 0, 1)] {
        let n = p.neg();
        assert_eq!(n.x(), p.x());
        assert_eq!(n.y(), p.y().map(|y| (P - y) % P));
        assert_eq!(p.add(n), Ok(inf(p.a(), p.b())));
    }
    assert_eq!(inf(5, 7).neg(), inf(5, 7));
}

#[test]
fn doubling() {
    assert_eq!(pt(-1, 1, 5, 7).add(pt(-1, 1, 5, 7)), Ok(pt(18, 146, 5, 7)));
    assert_eq!(pt(2, 5, 5, 7).add(pt(2, 5, 5, 7)), Ok(pt(126, 141, 5, 7)));
    // A point with y == 0 is its own negation.
    let t = pt(-1, 0, 0, 1);
    assert!(t.add(t).unwrap().is_infinity());
}

#[test]
fn wide_modulus_does_not_overflow() {
    let g = Point::new(Some(1), Some(1), 3, -3, M61).unwrap();
    let d = g.add(g).unwrap();
    assert_eq!(d.x(), Some(7));
    assert_eq!(d.y(), Some(2305843009213693932));
    let k = g.mul(123456789).unwrap();
    assert_eq!(k.x(), Some(1300346455030970450));
    assert_eq!(k.y(), Some(1155415937552540362));
}

#[test]
fn mixing_curves_fails() {
    let p = pt(-1, 1, 5, 7);
    assert_eq!(p.add(pt(0, 1, -2, 1)), Err(EccError::CurveMismatch));
    assert_eq!(p.add(inf(5, 8)), Err(EccError::CurveMismatch));
    let other_field = Point::new(Some(-1), Some(1), 5, 7, 227).unwrap();
    assert_eq!(p.add(other_field), Err(EccError::CurveMismatch));
}

fn small_curve() -> Vec<Point> {
    let mut pts = vec![Point::new(None, None, 0, 7, 17).unwrap()];
    for x in 0..17 {
        for y in 0..17 {
            if let Ok(p) = Point::new(Some(x), Some(y), 0, 7, 17) {
                pts.push(p);
            }
        }
    }
    pts
}

#[test]
fn addition_commutes_on_samples() {
    let pts = small_curve();
    assert_eq!(pts.len(), 18);
    for p in &pts {
        for q in &pts {
            assert_eq!(p.add(*q), q.add(*p));
        }
    }
}

#[test]
fn addition_associates_on_samples() {
    let pts = small_curve();
    for p in &pts {
        for q in &pts {
            for r in &pts {
                let left = p.add(*q).unwrap().add(*r).unwrap();
                let right = p.add(q.add(*r).unwrap()).unwrap();
                assert_eq!(left, right);
            }
        }
    }
}

#[test]
fn multiples_follow_the_order() {
    let g = Point::new(Some(1), Some(5), 0, 7, 17).unwrap();
    assert!(g.mul(9).unwrap().is_infinity());
    assert_eq!(g.mul(10), Ok(g));
    assert_eq!(g.mul(-1), Ok(g.neg()));
    assert_eq!(g.mul(-8), Ok(g));
    let mut acc = Point::new(None, None, 0, 7, 17).unwrap();
    for k in 0..20 {
        assert_eq!(g.mul(k), Ok(acc));
        acc = acc.add(g).unwrap();
    }
    assert_eq!(g.mul(i64::MIN), g.neg().mul(i64::MIN).map(|p| p.neg()));
}

#[test]
fn negative_multiples_use_the_negation() {
    let p = pt(-1, 1, 5, 7);
    assert_eq!(p.mul(-1), Ok(pt(-1, -1, 5, 7)));
    assert_eq!(p.mul(-2), Ok(pt(18, 77, 5, 7)));
    assert_eq!(p.mul(-3), Ok(pt(221, 99, 5, 7)));
    assert_eq!(p.mul(-2), p.neg().mul(2));
    assert_eq!(p.mul(3), Ok(pt(221, 124, 5, 7)));
    assert_eq!(p.mul(4), Ok(pt(191, 200, 5, 7)));
}

#[test]
fn point_text() {
    let p = Point::new(Some(-1), Some(-1), 5, 7, P).unwrap().add(pt(2, 5, 5, 7)).unwrap();
    assert_eq!(p.to_text(), "Point(3, 216)_5_7");
    assert_eq!(pt(-1, 0, 0, 1).to_text(), "Point(222, 0)_0_1");
    assert_eq!(inf(5, 7).to_text(), "Point(infinity)");
}
