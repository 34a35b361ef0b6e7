use mandelbrot::escape::escapes;
use num::Complex;

fn mandelbrot(c: Complex<f64>, limit: u32) -> Option<u32> {
    escapes(Complex { re: 0.0, im: 0.0 }, limit, |z| z * z + c, |z| z.norm_sqr() > 4.0)
}

#[test]
fn escape_time_counts_steps_from_zero() {
    let double = |z: u64| 2 * z;
    let large = |z: &u64| *z > 4;
    assert_eq!(escapes(1u64, 255, double, large), Some(2));
    assert_eq!(escapes(2u64, 255, double, large), Some(1));
    assert_eq!(escapes(3u64, 255, double, large), Some(0));
    assert_eq!(escapes(4u64, 255, double, large), Some(0));
}

#[test]
fn escape_time_stays_below_the_limit() {
    let next = |z: u32| z + 1;
    let large = |z: &u32| *z >= 10;
    assert_eq!(escapes(0u32, 255, next, large), Some(9));
    assert_eq!(escapes(0u32, 10, next, large), Some(9));
    assert_eq!(escapes(0u32, 9, next, large), None);
    assert_eq!(escapes(0u32, 1, next, large), None);
    assert_eq!(escapes(9u32, 1, next, large), Some(0));
}

#[test]
fn no_step_is_taken_with_limit_zero() {
    let steps = std::cell::Cell::new(0u32);
    let next = |z: u32| {
        steps.set(steps.get() + 1);
        z + 1
    };
    assert_eq!(escapes(100u32, 0, next, |_| true), None);
    assert_eq!(steps.get(), 0);
}

#[test]
fn start_itself_is_not_judged() {
    let judged = std::cell::RefCell::new(Vec::new());
    let time = escapes(
        100u32,
        5,
        |z| if z == 100 { 0 } else { z + 1 },
        |z| {
            judged.borrow_mut().push(*z);
            *z >= 2
        },
    );
    assert_eq!(time, Some(2));
    assert_eq!(judged.into_inner(), vec![0, 1, 2]);
}

#[test]
fn iteration_stops_at_the_first_escape() {
    let steps = std::cell::Cell::new(0u32);
    let time = escapes(
        0u32,
        255,
        |z| {
            steps.set(steps.get() + 1);
            z + 1
        },
        |z| *z % 4 == 0,
    );
    assert_eq!(time, Some(3));
    assert_eq!(steps.get(), 4);
}

#[test]
fn resting_orbit_never_escapes() {
    for limit in [1u32, 2, 255, 10_000] {
        assert_eq!(escapes(7u8, limit, |z| z, |z| *z > 7), None);
    }
}

#[test]
fn origin_never_escapes() {
    let origin = Complex { re: 0.0, im: 0.0 };
    for limit in [1u32, 2, 255, 1000] {
        assert_eq!(mandelbrot(origin, limit), None);
    }
}

#[test]
fn point_beyond_radius_two_escapes_at_once() {
    for c in [
        Complex { re: 2.5, im: 0.0 },
        Complex { re: -2.1, im: 0.0 },
        Complex { re: 0.0, im: 2.0001 },
        Complex { re: 1.5, im: -1.5 },
        Complex { re: -100.0, im: 100.0 },
    ] {
        assert!(c.norm_sqr() > 4.0);
        for limit in [1u32, 255] {
            assert_eq!(mandelbrot(c, limit), Some(0));
        }
    }
}

#[test]
fn points_of_the_set_stay_bounded() {
    assert_eq!(mandelbrot(Complex { re: -1.0, im: 0.0 }, 255), None);
    assert_eq!(mandelbrot(Complex { re: 0.0, im: 1.0 }, 255), None);
    assert_eq!(mandelbrot(Complex { re: -2.0, im: 0.0 }, 255), None);
    assert_eq!(mandelbrot(Complex { re: 0.25, im: 0.0 }, 255), None);
}

#[test]
fn points_near_the_set_escape_late() {
    assert_eq!(mandelbrot(Complex { re: 1.0, im: 0.0 }, 255), Some(2));
    assert_eq!(mandelbrot(Complex { re: 0.5, im: 0.0 }, 255), Some(4));
    assert_eq!(mandelbrot(Complex { re: 1.0, im: 1.0 }, 255), Some(1));
    assert_eq!(mandelbrot(Complex { re: 1.0, im: 0.0 }, 2), None);
    assert_eq!(mandelbrot(Complex { re: 1.0, im: 0.0 }, 3), Some(2));
}
