use raytracer::schedule::{band, partition_rows, plan_for, plan_rows, render_pixels};
use std::cell::RefCell;

#[test]
fn rows_left_over_go_to_the_last_band() {
    assert_eq!(partition_rows(10, 3), vec![(0, 3), (3, 6), (6, 10)]);
    assert_eq!(partition_rows(288, 7), vec![
        (0, 41),
        (41, 82),
        (82, 123),
        (123, 164),
        (164, 205),
        (205, 246),
        (246, 288),
    ]);
}

#[test]
fn even_division_gives_equal_bands() {
    assert_eq!(partition_rows(12, 4), vec![(0, 3), (3, 6), (6, 9), (9, 12)]);
    assert_eq!(partition_rows(288, 8)[7], (252, 288));
}

#[test]
fn one_worker_takes_every_row() {
    assert_eq!(partition_rows(288, 1), vec![(0, 288)]);
    assert_eq!(partition_rows(0, 1), vec![(0, 0)]);
}

#[test]
fn more_workers_than_rows_leaves_all_rows_to_the_last() {
    assert_eq!(partition_rows(2, 4), vec![(0, 0), (0, 0), (0, 0), (0, 2)]);
    assert_eq!(partition_rows(0, 3), vec![(0, 0), (0, 0), (0, 0)]);
}

#[test]
fn band_is_one_entry_of_the_partition() {
    for (height, workers) in [(10usize, 3usize), (288, 7), (5, 5), (1, 8), (1000, 16)] {
        let bands = partition_rows(height, workers);
        assert_eq!(bands.len(), workers);
        for i in 0..workers {
            assert_eq!(band(height, workers, i), bands[i]);
        }
    }
}

#[test]
fn every_row_is_in_exactly_one_band() {
    for height in 0..60usize {
        for workers in 1..20usize {
            let bands = partition_rows(height, workers);
            let mut owners = vec![0u32; height];
            for &(start, end) in &bands {
                assert!(start <= end && end <= height);
                for row in start..end {
                    owners[row] += 1;
                }
            }
            assert!(owners.iter().all(|&n| n == 1), "height {height}, workers {workers}");
            assert_eq!(bands[0].0, 0);
            assert_eq!(bands[workers - 1].1, height);
            for i in 1..workers {
                assert_eq!(bands[i - 1].1, bands[i].0);
            }
        }
    }
}

#[test]
fn huge_images_do_not_overflow() {
    let bands = partition_rows(usize::MAX, 3);
    assert_eq!(bands[0], (0, usize::MAX / 3));
    assert_eq!(bands[2], (usize::MAX / 3 * 2, usize::MAX));
    assert_eq!(band(usize::MAX, usize::MAX, usize::MAX - 1), (usize::MAX - 1, usize::MAX));
}

#[test]
fn plan_for_no_worker_is_none() {
    assert_eq!(plan_for(288, 0), None);
    assert_eq!(plan_for(0, 0), None);
    assert_eq!(plan_for(10, 3), Some(vec![(0, 3), (3, 6), (6, 10)]));
}

#[test]
fn plan_rows_partitions_for_this_machine() {
    let bands = plan_rows(288).expect("a machine that runs this has a processor");
    assert!(!bands.is_empty());
    assert_eq!(bands, partition_rows(288, bands.len()));
    assert_eq!(bands.len(), num_cpus::get());
}

#[test]
fn render_pixels_walks_rows_then_columns() {
    let pixels =
        render_pixels((2, 5), (10, 12), 1, [0u8; 3], |x, y, _| [x as u8, y as u8, 7], |sum| sum);
    assert_eq!(pixels, vec![
        (2, 10, [2, 10, 7]),
        (3, 10, [3, 10, 7]),
        (4, 10, [4, 10, 7]),
        (2, 11, [2, 11, 7]),
        (3, 11, [3, 11, 7]),
        (4, 11, [4, 11, 7]),
    ]);
}

#[test]
fn render_pixels_gathers_every_sample_of_a_pixel() {
    let pixels = render_pixels(
        (0, 3),
        (0, 2),
        5,
        0u32,
        |x, y, sum| sum + (x as u32 + 1) + 10 * (y as u32),
        |sum| [sum as u8, 0, 0],
    );
    assert_eq!(pixels, vec![
        (0, 0, [5, 0, 0]),
        (1, 0, [10, 0, 0]),
        (2, 0, [15, 0, 0]),
        (0, 1, [55, 0, 0]),
        (1, 1, [60, 0, 0]),
        (2, 1, [65, 0, 0]),
    ]);
}

#[test]
fn render_pixels_hands_each_sum_to_the_next_sample() {
    let pixels = render_pixels(
        (0, 1),
        (0, 1),
        4,
        1.0f32,
        |_, _, sum| sum * 0.5,
        |sum| [(sum * 256.0) as u8, 0, 0],
    );
    assert_eq!(pixels, vec![(0, 0, [16, 0, 0])]);
}

#[test]
fn render_pixels_samples_and_finishes_each_pixel_in_turn() {
    let sampled = RefCell::new(Vec::new());
    let finished = RefCell::new(0usize);
    let pixels = render_pixels(
        (0, 16),
        (3, 9),
        3,
        0u8,
        |x, y, sum| {
            sampled.borrow_mut().push((x, y));
            sum + 1
        },
        |sum| {
            *finished.borrow_mut() += 1;
            assert_eq!(sampled.borrow().len(), 3 * *finished.borrow());
            [sum, sum, sum]
        },
    );
    assert_eq!(pixels.len(), 16 * 6);
    assert_eq!(*finished.borrow(), 16 * 6);
    assert!(pixels.iter().all(|p| p.2 == [3, 3, 3]));
    let sampled = sampled.borrow();
    assert_eq!(sampled.len(), 3 * 16 * 6);
    for (k, pixel) in pixels.iter().enumerate() {
        assert!(pixel.0 < 16 && (3..9).contains(&pixel.1));
        for j in 0..3 {
            assert_eq!(sampled[3 * k + j], (pixel.0, pixel.1));
        }
    }
    let mut coords: Vec<(usize, usize)> = pixels.iter().map(|p| (p.0, p.1)).collect();
    coords.sort();
    coords.dedup();
    assert_eq!(coords.len(), 16 * 6);
}

#[test]
fn render_pixels_without_samples_finishes_the_empty_sum() {
    let calls = RefCell::new(0u32);
    let pixels = render_pixels(
        (0, 2),
        (0, 2),
        0,
        9u8,
        |_, _, sum| {
            *calls.borrow_mut() += 1;
            sum
        },
        |sum| [sum, 0, 0],
    );
    assert_eq!(*calls.borrow(), 0);
    assert_eq!(pixels, vec![(0, 0, [9, 0, 0]), (1, 0, [9, 0, 0]), (0, 1, [9, 0, 0]), (1, 1, [9, 0, 0])]);
}

#[test]
fn render_pixels_of_an_empty_block_is_empty() {
    let calls = RefCell::new(0u32);
    let sample = |_: usize, _: usize, sum: u8| {
        *calls.borrow_mut() += 1;
        sum
    };
    let finish = |_: u8| {
        *calls.borrow_mut() += 1;
        [1u8, 2, 3]
    };
    assert!(render_pixels((0, 0), (0, 10), 4, 0u8, &sample, &finish).is_empty());
    assert!(render_pixels((0, 10), (4, 4), 4, 0u8, &sample, &finish).is_empty());
    assert!(render_pixels((5, 2), (0, 10), 4, 0u8, &sample, &finish).is_empty());
    assert!(render_pixels((0, 10), (9, 3), 4, 0u8, &sample, &finish).is_empty());
    assert_eq!(*calls.borrow(), 0);
}

#[test]
fn bands_rendered_apart_cover_the_image_once() {
    let (width, height) = (9usize, 11usize);
    let mut count = vec![0u32; width * height];
    for (start, end) in partition_rows(height, 4) {
        let block = render_pixels((0, width), (start, end), 2, 0u8, |_, _, sum| sum, |_| [0, 0, 0]);
        for (x, y, _) in block {
            count[y * width + x] += 1;
        }
    }
    assert!(count.iter().all(|&n| n == 1));
}
