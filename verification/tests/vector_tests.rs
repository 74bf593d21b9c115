use pixel_engine::vector2::{Vec2d, Vi2d, Vu2d};

fn v(x: i32, y: i32) -> Vi2d {
    Vec2d { x, y }
}

#[test]
fn vector_mag2() {
    assert_eq!(v(3, 4).mag2(), 25);
    assert_eq!(v(-3, 0).mag2(), 9);
}

#[test]
fn vector_dot_and_cross() {
    assert_eq!(v(1, 2).dot(&v(3, 4)), 11);
    assert_eq!(v(1, 2).cross(&v(3, 4)), -2);
    assert_eq!(v(5, -7).cross(&v(5, -7)), 0);
    assert_eq!(v(5, -7).dot(&v(5, -7)), v(5, -7).mag2());
}

#[test]
fn vector_perp_is_a_normal() {
    let a = v(1, 2);
    let p = a.perp();
    assert_eq!(p, v(-2, 1));
    assert_eq!(a.dot(&p), 0);
    assert_eq!(a.cross(&p), a.mag2());
    let b = v(-6, 11);
    assert_eq!(b.dot(&b.perp()), 0);
}

#[test]
fn vector_conversions() {
    assert_eq!(Vi2d::from((3, -4)), v(3, -4));
    assert_eq!(Vu2d::from([7u32, 8]), Vec2d { x: 7u32, y: 8u32 });
    let small: Vec2d<u8> = Vec2d { x: 200, y: 3 };
    let wide: Vu2d = small.cast::<u32>();
    assert_eq!(wide, Vec2d { x: 200u32, y: 3u32 });
    let signed: Vec2d<i64> = Vec2d { x: -1i32, y: 2i32 }.cast::<i64>();
    assert_eq!(signed, Vec2d { x: -1i64, y: 2i64 });
}

#[test]
fn vector_operators() {
    assert_eq!(v(1, 2) + v(3, 4), v(4, 6));
    assert_eq!(v(1, 2) - v(3, 4), v(-2, -2));
    assert_eq!(v(2, 3) * v(4, -5), v(8, -15));
    assert_eq!(v(9, -8) / v(2, 3), v(4, -2));
    assert_eq!(v(2, 3) * 3, v(6, 9));
    assert_eq!(v(7, -7) / 2, v(3, -3));
    let size: Vu2d = Vec2d { x: 5u32, y: 4u32 };
    assert_eq!(size - Vec2d { x: 1u32, y: 1u32 }, Vec2d { x: 4u32, y: 3u32 });
}
