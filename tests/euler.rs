use tsilna::euler::Euler;

#[test]
fn test_euler_from_radians() {
    let e = Euler::<f32>::from_radians(1.0, 0.5, -1.0);
    assert_eq!(e.roll, 1.0);
    assert_eq!(e.pitch, 0.5);
    assert_eq!(e.yaw, -1.0);
}
