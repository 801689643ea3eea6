use fractals::fixed::{isqrt, fp_mul, ONE};
use fractals::matrix::{Growth, Matrix2};
use fractals::vector::Vector2;

#[test]
fn fixed_point_products_truncate_toward_zero() {
    assert_eq!(fp_mul(3 * ONE, 2 * ONE), 6 * ONE);
    assert_eq!(fp_mul(-3 * ONE, 2 * ONE), -6 * ONE);
    // one half times one half is a quarter, exactly representable
    assert_eq!(fp_mul(ONE / 2, ONE / 2), ONE / 4);
    // a negative inexact product rounds toward zero
    assert_eq!(fp_mul(-3, 3), 0);
}

#[test]
fn isqrt_brackets_its_argument() {
    assert_eq!(isqrt(0), 0);
    assert_eq!(isqrt(1), 1);
    assert_eq!(isqrt(24), 4);
    assert_eq!(isqrt(25), 5);
    assert_eq!(isqrt(26), 5);
    assert_eq!(isqrt(1 << 40), 1 << 20);
}

#[test]
fn vector_componentwise_algebra() {
    let a = Vector2::new(ONE, 0);
    let b = Vector2::new(0, ONE);
    let s = a.add(&b);
    assert_eq!((s.x, s.y), (ONE, ONE));
    let d = a.sub(&b);
    assert_eq!((d.x, d.y), (ONE, -ONE));
    let n = a.neg();
    assert_eq!((n.x, n.y), (-ONE, 0));
    let twice = a.scale(2 * ONE);
    assert_eq!((twice.x, twice.y), (2 * ONE, 0));
    let third = Vector2::new(9 * ONE, 3 * ONE).div_by(3);
    assert_eq!((third.x, third.y), (3 * ONE, ONE));
}

#[test]
fn vector_norm_of_a_pythagorean_pair() {
    let v = Vector2::new(3 * ONE, 4 * ONE);
    assert_eq!(v.norm(), 5 * ONE);
    let w = Vector2::new(0, 0);
    assert_eq!(w.norm(), 0);
}

#[test]
fn matrix_identity_and_quarter_turn() {
    let id = Matrix2::identity();
    assert_eq!((id.c11, id.c12, id.c21, id.c22), (ONE, 0, 0, ONE));
    assert_eq!(id.determinate(), ONE);
    // the quarter turn has cosine 0 and sine 1
    let rot = Matrix2::rotation(0, ONE);
    assert_eq!((rot.c11, rot.c12, rot.c21, rot.c22), (0, -ONE, ONE, 0));
    assert_eq!(rot.determinate(), ONE);
    let v = Vector2::new(ONE, 0);
    let turned = rot.mul_vec(&v);
    assert_eq!((turned.x, turned.y), (0, ONE));
}

#[test]
fn matrix_inverse_exists_exactly_off_singularity() {
    let id = Matrix2::identity();
    let inv = id.inverse().unwrap();
    assert_eq!((inv.c11, inv.c12, inv.c21, inv.c22), (ONE, 0, 0, ONE));
    // the quarter turn inverts to the opposite turn
    let rot = Matrix2::rotation(0, ONE);
    let rinv = rot.inverse().unwrap();
    assert_eq!((rinv.c11, rinv.c12, rinv.c21, rinv.c22), (0, ONE, -ONE, 0));
    // a rank-one map has no inverse
    let singular = Matrix2 { c11: ONE, c12: ONE, c21: ONE, c22: ONE };
    assert!(singular.inverse().is_none());
    // composing the turn with its inverse gives the identity back
    let composed = rot.mul_mat(&rinv);
    assert_eq!((composed.c11, composed.c12, composed.c21, composed.c22), (ONE, 0, 0, ONE));
}

#[test]
fn growth_map_rejects_stretches() {
    assert!(Growth::new(ONE, 0).is_some());
    assert!(Growth::new(ONE, 1).is_none());
    assert!(Growth::new(2 * ONE, 0).is_none());
    let half = Growth::new(ONE / 2, 0).unwrap();
    let v = Vector2::new(4 * ONE, -2 * ONE);
    let shrunk = half.apply(&v);
    assert_eq!((shrunk.x, shrunk.y), (2 * ONE, -ONE));
}

#[test]
fn growth_composition_turns_twice() {
    let quarter = Growth::new(0, ONE).unwrap();
    let halfturn = quarter.compose(&quarter);
    assert_eq!((halfturn.c, halfturn.s), (-ONE, 0));
    let back = quarter.compose(&quarter.reverse());
    assert_eq!((back.c, back.s), (ONE, 0));
    // turning there and back restores any vector exactly
    let v = Vector2::new(7 * ONE + 13, -2 * ONE + 5);
    let restored = back.apply(&v);
    assert_eq!((restored.x, restored.y), (v.x, v.y));
}
