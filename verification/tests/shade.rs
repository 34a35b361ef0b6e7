use mandelbrot::shade::intensity;

#[test]
fn bounded_point_is_black() {
    assert_eq!(intensity(None), 0);
}

#[test]
fn quick_escape_is_bright() {
    assert_eq!(intensity(Some(0)), 255);
    assert_eq!(intensity(Some(1)), 254);
    assert_eq!(intensity(Some(100)), 155);
    assert_eq!(intensity(Some(254)), 1);
}

#[test]
fn escape_within_the_budget_is_never_black() {
    for time in 0..255u32 {
        let level = intensity(Some(time));
        assert_eq!(level as u32, 255 - time);
        assert!(level >= 1);
    }
}

#[test]
fn escape_time_beyond_a_byte_wraps() {
    assert_eq!(intensity(Some(255)), 0);
    assert_eq!(intensity(Some(256)), 255);
    assert_eq!(intensity(Some(257)), 254);
    assert_eq!(intensity(Some(u32::MAX)), 0);
}
