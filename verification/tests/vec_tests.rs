use resource_sync::vec::{Vec2, Vec3};

#[test]
fn dumb() {
    let mut x = Vec2::new(0, 0);
    x = x - 2;
    let y = Vec2::new(16, 17);
    let z = x + y;
    assert_eq!(z, Vec2::new(14, 15));
}

#[test]
fn vec2() {
    let a = Vec2::new(1, 2);
    let b = Vec2::new(-3, 1);
    let c = a + b;
    assert!(c == Vec2::new(-2, 3));
}

#[test]
fn vec2_arithmetic() {
    let a = Vec2::new(1, 2);
    let b = Vec2::new(-3, 1);
    assert_eq!(a + b, Vec2::new(-2, 3));
    assert_eq!(a - b, Vec2::new(4, 1));
    assert_eq!(a + 10, Vec2::new(11, 12));
    assert_eq!(a.sqr_length(), 5);
}

#[test]
fn vec3_arithmetic() {
    let a = Vec3::new(1, 2, 3);
    let b = Vec3::new(4, 5, 6);
    assert_eq!(a + b, Vec3::new(5, 7, 9));
    assert_eq!(b - a, Vec3::new(3, 3, 3));
    assert_eq!(a.sqr_length(), 14);
}
