use renders::pixelbuffer::PixelIterator;
use renders::schedule::{percent_done, worker_claims, worker_pixels};

#[test]
fn single_worker_claims_every_row() {
    for row in 0..50 {
        assert!(worker_claims(row, 0, 1));
    }
}

#[test]
fn worker_claims_rows_whose_sum_with_it_is_a_multiple() {
    assert!(worker_claims(0, 0, 4));
    assert!(worker_claims(3, 1, 4));
    assert!(worker_claims(2, 2, 4));
    assert!(worker_claims(1, 3, 4));
    assert!(worker_claims(5, 3, 4));
    assert!(!worker_claims(3, 2, 4));
    assert!(!worker_claims(0, 1, 4));
    assert!(!worker_claims(4, 2, 4));
}

#[test]
fn worker_claims_near_the_largest_numbers() {
    assert!(worker_claims(usize::MAX, 1, 2));
    assert!(!worker_claims(usize::MAX, 0, 2));
    assert!(worker_claims(usize::MAX, usize::MAX, usize::MAX));
    assert!(!worker_claims(usize::MAX, usize::MAX - 1, usize::MAX));
    assert!(worker_claims(1, usize::MAX - 1, usize::MAX));
}

#[test]
fn without_workers_only_zero_is_a_multiple() {
    assert!(worker_claims(0, 0, 0));
    assert!(!worker_claims(1, 0, 0));
    assert!(!worker_claims(0, 1, 0));
}

#[test]
fn worker_pixels_keeps_row_major_order() {
    let claimed = worker_pixels(PixelIterator::new(2, 5), 1, 3);
    assert_eq!(claimed, vec![(0, 2), (1, 2)]);
    let claimed = worker_pixels(PixelIterator::new(2, 5), 0, 3);
    assert_eq!(claimed, vec![(0, 0), (1, 0), (0, 3), (1, 3)]);
    let claimed = worker_pixels(PixelIterator::new(2, 5), 2, 3);
    assert_eq!(claimed, vec![(0, 1), (1, 1), (0, 4), (1, 4)]);
}

#[test]
fn worker_pixels_goes_on_from_where_the_iterator_stands() {
    let mut pixels = PixelIterator::new(2, 2);
    assert_eq!(pixels.next(), Some((0, 0)));
    assert_eq!(worker_pixels(pixels, 0, 1), vec![(1, 0), (0, 1), (1, 1)]);
}

#[test]
fn shares_cover_every_pixel_exactly_once() {
    for workers in 1..=9usize {
        let (width, height) = (4usize, 7usize);
        let mut count = vec![0u32; width * height];
        for worker in 0..workers {
            for (x, y) in worker_pixels(PixelIterator::new(width, height), worker, workers) {
                assert!(x < width && y < height);
                count[y * width + x] += 1;
            }
        }
        assert!(count.iter().all(|&n| n == 1));
    }
}

#[test]
fn more_workers_than_rows_leaves_some_idle() {
    let mut busy = 0;
    for worker in 0..8 {
        if !worker_pixels(PixelIterator::new(3, 2), worker, 8).is_empty() {
            busy += 1;
        }
    }
    assert_eq!(busy, 2);
}

#[test]
fn percent_rounds_down() {
    assert_eq!(percent_done(0, 100), 0);
    assert_eq!(percent_done(29, 100), 29);
    assert_eq!(percent_done(1, 3), 33);
    assert_eq!(percent_done(2, 3), 66);
    assert_eq!(percent_done(199, 200), 99);
    assert_eq!(percent_done(200, 200), 100);
}

#[test]
fn percent_of_no_work_is_zero() {
    assert_eq!(percent_done(0, 0), 0);
    assert_eq!(percent_done(5, 0), 0);
}

#[test]
fn percent_stops_at_the_largest_result() {
    assert_eq!(percent_done(300, 100), 300);
    assert_eq!(percent_done(usize::MAX, 1), u32::MAX);
    assert_eq!(percent_done(usize::MAX, usize::MAX), 100);
}
