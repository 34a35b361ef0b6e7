use mandelbrot::bands::{partition, plan, Plan};
use mandelbrot::render::render;

fn escape(column: usize, row: usize, limit: u32) -> Option<u32> {
    let time = (7 * column + 13 * row + column * row) as u32 % 300;
    if time < limit {
        Some(time)
    } else {
        None
    }
}

fn in_one_piece(bounds: (usize, usize)) -> Vec<u8> {
    let mut pixels = vec![0u8; bounds.0 * bounds.1];
    render(&mut pixels, bounds, escape);
    pixels
}

fn band_by_band(bounds: (usize, usize), threads: usize) -> Vec<u8> {
    let mut pixels = vec![0u8; bounds.0 * bounds.1];
    for band in partition(bounds, threads) {
        let top = band.top();
        let chunk = &mut pixels[band.offset()..band.offset() + band.len()];
        render(chunk, band.bounds(), |column, row, limit| escape(column, top + row, limit));
    }
    pixels
}

#[test]
fn banded_render_equals_sequential_render() {
    let bounds = (17, 23);
    let whole = in_one_piece(bounds);
    for threads in 2..30 {
        assert_eq!(band_by_band(bounds, threads), whole);
    }
}

#[test]
fn banded_render_of_small_images_equals_sequential_render() {
    for width in 1..5 {
        for height in 0..9 {
            let whole = in_one_piece((width, height));
            for threads in 2..11 {
                assert_eq!(band_by_band((width, height), threads), whole);
            }
        }
    }
}

#[test]
fn planned_render_equals_sequential_render() {
    let bounds = (6, 10);
    let whole = in_one_piece(bounds);
    assert_eq!(&whole[..8], &[255, 248, 241, 234, 227, 220, 242, 234]);
    for threads in 0..6 {
        let mut pixels = vec![0u8; 60];
        match plan(bounds, threads) {
            Plan::Sequential => {
                assert!(threads <= 1);
                render(&mut pixels, bounds, escape);
            }
            Plan::Parallel(bands) => {
                assert!(threads > 1);
                let mut rest: &mut [u8] = &mut pixels;
                for band in bands {
                    let (chunk, tail) = rest.split_at_mut(band.len());
                    rest = tail;
                    let top = band.upper_left().1;
                    render(chunk, band.bounds(), |column, row, limit| {
                        escape(column, top + row, limit)
                    });
                }
                assert!(rest.is_empty());
            }
        }
        assert_eq!(pixels, whole);
    }
}
