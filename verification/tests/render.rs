use mandelbrot::render::{render, ESCAPE_LIMIT};

#[test]
fn escape_limit_is_255() {
    assert_eq!(ESCAPE_LIMIT, 255);
}

#[test]
fn render_fills_row_after_row() {
    let mut pixels = vec![9u8; 6];
    render(&mut pixels, (3, 2), |column, row, _| Some((10 * row + column) as u32));
    assert_eq!(pixels, vec![255, 254, 253, 245, 244, 243]);
}

#[test]
fn render_paints_bounded_points_black() {
    let mut pixels = vec![7u8; 8];
    render(&mut pixels, (4, 2), |column, row, _| {
        if (column + row) % 2 == 0 {
            None
        } else {
            Some(0)
        }
    });
    assert_eq!(pixels, vec![0, 255, 0, 255, 255, 0, 255, 0]);
}

#[test]
fn render_asks_with_the_escape_limit() {
    let mut pixels = vec![0u8; 4];
    render(&mut pixels, (2, 2), |_, _, limit| Some(limit - 1));
    assert_eq!(pixels, vec![1, 1, 1, 1]);
}

#[test]
fn render_asks_once_for_every_pixel() {
    let asked = std::cell::RefCell::new(Vec::new());
    let mut pixels = vec![0u8; 6];
    render(&mut pixels, (2, 3), |column, row, limit| {
        asked.borrow_mut().push((column, row, limit));
        None
    });
    let mut asked = asked.into_inner();
    asked.sort();
    assert_eq!(
        asked,
        vec![(0, 0, 255), (0, 1, 255), (0, 2, 255), (1, 0, 255), (1, 1, 255), (1, 2, 255)]
    );
    assert_eq!(pixels, vec![0; 6]);
}

#[test]
fn render_of_an_empty_band_writes_nothing() {
    let mut none: Vec<u8> = Vec::new();
    render(&mut none, (0, 0), |_, _, _| Some(0));
    assert!(none.is_empty());
    render(&mut none, (5, 0), |_, _, _| Some(0));
    assert!(none.is_empty());
    render(&mut none, (0, 5), |_, _, _| Some(0));
    assert!(none.is_empty());
}

#[test]
fn render_of_a_single_row_and_a_single_column() {
    let mut row = vec![0u8; 4];
    render(&mut row, (4, 1), |column, _, _| Some(column as u32));
    assert_eq!(row, vec![255, 254, 253, 252]);
    let mut column = vec![0u8; 4];
    render(&mut column, (1, 4), |_, row, _| Some(row as u32));
    assert_eq!(column, vec![255, 254, 253, 252]);
}

#[test]
fn render_writes_only_its_own_slice() {
    let mut pixels = vec![42u8; 12];
    render(&mut pixels[4..8], (2, 2), |_, _, _| None);
    assert_eq!(pixels, vec![42, 42, 42, 42, 0, 0, 0, 0, 42, 42, 42, 42]);
}
