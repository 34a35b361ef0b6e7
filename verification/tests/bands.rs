use mandelbrot::bands::{band_rows, partition, plan, Band, Plan};

fn shape(bands: &[Band]) -> Vec<(usize, usize)> {
    bands.iter().map(|band| (band.top(), band.height())).collect()
}

#[test]
fn band_rows_is_one_more_than_the_quotient() {
    assert_eq!(band_rows(10, 4), 3);
    assert_eq!(band_rows(8, 4), 3);
    assert_eq!(band_rows(1000, 8), 126);
    assert_eq!(band_rows(7, 2), 4);
    assert_eq!(band_rows(3, 8), 1);
    assert_eq!(band_rows(0, 2), 1);
    assert_eq!(band_rows(usize::MAX, 2), usize::MAX / 2 + 1);
}

#[test]
fn partition_cuts_full_bands_and_a_shorter_last_one() {
    assert_eq!(shape(&partition((5, 10), 4)), vec![(0, 3), (3, 3), (6, 3), (9, 1)]);
    assert_eq!(shape(&partition((5, 7), 2)), vec![(0, 4), (4, 3)]);
    assert_eq!(shape(&partition((640, 480), 8)), vec![
        (0, 61),
        (61, 61),
        (122, 61),
        (183, 61),
        (244, 61),
        (305, 61),
        (366, 61),
        (427, 53),
    ]);
}

#[test]
fn partition_may_need_fewer_bands_than_workers() {
    assert_eq!(shape(&partition((5, 8), 4)), vec![(0, 3), (3, 3), (6, 2)]);
    assert_eq!(shape(&partition((5, 9), 4)), vec![(0, 3), (3, 3), (6, 3)]);
    assert_eq!(shape(&partition((1, 2), 8)), vec![(0, 1), (1, 1)]);
    assert_eq!(shape(&partition((3, 1), 2)), vec![(0, 1)]);
}

#[test]
fn partition_of_an_image_without_rows_is_empty() {
    assert!(partition((5, 0), 2).is_empty());
    assert!(partition((1, 0), 100).is_empty());
}

#[test]
fn band_knows_its_place_in_the_buffer() {
    let bands = partition((5, 10), 4);
    let last = bands[3];
    assert_eq!(last.top(), 9);
    assert_eq!(last.height(), 1);
    assert_eq!(last.bounds(), (5, 1));
    assert_eq!(last.offset(), 45);
    assert_eq!(last.len(), 5);
    let second = bands[1];
    assert_eq!(second.bounds(), (5, 3));
    assert_eq!(second.offset(), 15);
    assert_eq!(second.len(), 15);
}

#[test]
fn band_corners_are_pixels_of_the_whole_image() {
    let bands = partition((5, 10), 4);
    assert_eq!(bands[0].upper_left(), (0, 0));
    assert_eq!(bands[0].lower_right(), (5, 3));
    assert_eq!(bands[1].upper_left(), (0, 3));
    assert_eq!(bands[1].lower_right(), (5, 6));
    assert_eq!(bands[3].upper_left(), (0, 9));
    assert_eq!(bands[3].lower_right(), (5, 10));
}

#[test]
fn bands_cover_the_buffer_without_gap_or_overlap() {
    for width in 1..6usize {
        for height in 0..24usize {
            for threads in 2..12usize {
                let bands = partition((width, height), threads);
                assert!(bands.len() <= threads);
                let mut owner = vec![0u32; width * height];
                let mut next = 0;
                for band in &bands {
                    assert_eq!(band.offset(), next);
                    assert_eq!(band.offset(), band.top() * width);
                    assert_eq!(band.len(), band.height() * width);
                    assert!(band.len() > 0);
                    for pixel in band.offset()..band.offset() + band.len() {
                        owner[pixel] += 1;
                    }
                    next = band.offset() + band.len();
                }
                assert_eq!(next, width * height);
                assert!(owner.iter().all(|&count| count == 1));
            }
        }
    }
}

#[test]
fn bands_are_the_chunks_of_the_buffer() {
    for (width, height, threads) in [(5usize, 10usize, 4usize), (3, 8, 4), (7, 1, 3), (2, 31, 5)] {
        let mut pixels = vec![0u8; width * height];
        let rows = band_rows(height, threads);
        let chunks: Vec<usize> = pixels.chunks_mut(rows * width).map(|chunk| chunk.len()).collect();
        let bands = partition((width, height), threads);
        assert_eq!(bands.iter().map(|band| band.len()).collect::<Vec<_>>(), chunks);
        for (i, band) in bands.iter().enumerate() {
            assert_eq!(band.top(), rows * i);
            assert_eq!(band.height(), chunks[i] / width);
        }
    }
}

#[test]
fn one_worker_or_none_renders_in_one_piece() {
    assert_eq!(plan((5, 10), 0), Plan::Sequential);
    assert_eq!(plan((5, 10), 1), Plan::Sequential);
    assert_eq!(plan((0, 10), 1), Plan::Sequential);
    assert_eq!(plan((0, 0), 0), Plan::Sequential);
}

#[test]
fn several_workers_render_band_by_band() {
    match plan((5, 10), 4) {
        Plan::Parallel(bands) => {
            assert_eq!(bands, partition((5, 10), 4));
            assert_eq!(shape(&bands), vec![(0, 3), (3, 3), (6, 3), (9, 1)]);
        }
        Plan::Sequential => panic!("four workers must share the image"),
    }
    match plan((5, 0), 2) {
        Plan::Parallel(bands) => assert!(bands.is_empty()),
        Plan::Sequential => panic!("two workers must share the image"),
    }
}
