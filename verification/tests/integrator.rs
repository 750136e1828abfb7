use renders::colors::Rgb;
use renders::integrator::{Event, Path};
use renders::pixelbuffer::PixelBuffer;
use renders::schedule::worker_pixels;

#[test]
fn a_path_without_budget_is_dark() {
    assert_eq!(Path::start(0), Path::Dark);
    assert_eq!(Path::start(0).advance(Event::Missed), Path::Dark);
    assert_eq!(Path::start(0).advance(Event::Scattered), Path::Dark);
}

#[test]
fn a_path_with_budget_is_cast() {
    assert_eq!(Path::start(1), Path::Tracing { left: 0 });
    assert_eq!(Path::start(10), Path::Tracing { left: 9 });
    assert_eq!(Path::start(u32::MAX), Path::Tracing { left: u32::MAX - 1 });
}

#[test]
fn a_miss_ends_in_the_background() {
    assert_eq!(Path::start(1).advance(Event::Missed), Path::Escaped);
    assert_eq!(Path::start(50).advance(Event::Missed), Path::Escaped);
}

#[test]
fn an_absorbed_ray_ends_dark() {
    assert_eq!(Path::start(1).advance(Event::Absorbed), Path::Dark);
    assert_eq!(Path::start(50).advance(Event::Absorbed), Path::Dark);
}

#[test]
fn a_scattered_ray_spends_one_of_the_budget() {
    assert_eq!(Path::start(3).advance(Event::Scattered), Path::Tracing { left: 1 });
    assert_eq!(Path::start(2).advance(Event::Scattered), Path::Tracing { left: 0 });
    assert_eq!(Path::start(1).advance(Event::Scattered), Path::Dark);
}

#[test]
fn a_path_ends_within_its_budget() {
    for depth in 0..20u32 {
        let mut path = Path::start(depth);
        let mut casts = 0;
        while let Path::Tracing { .. } = path {
            path = path.advance(Event::Scattered);
            casts += 1;
        }
        assert_eq!(casts, depth);
        assert_eq!(path, Path::Dark);
    }
}

#[test]
fn a_path_that_is_over_stays_as_it_is() {
    for event in [Event::Missed, Event::Absorbed, Event::Scattered] {
        assert_eq!(Path::Dark.advance(event), Path::Dark);
        assert_eq!(Path::Escaped.advance(event), Path::Escaped);
    }
}

#[test]
fn a_miss_after_two_bounces_still_escapes() {
    let path = Path::start(5)
        .advance(Event::Scattered)
        .advance(Event::Scattered)
        .advance(Event::Missed);
    assert_eq!(path, Path::Escaped);
}

#[test]
fn without_a_bounce_budget_the_image_is_black() {
    let (width, height) = (20usize, 11usize);
    let mut buffer = PixelBuffer::new(width, height);
    let mut pixels = buffer.iter();
    while let Some((x, y)) = pixels.next() {
        buffer.set_pixel(x, y, Rgb::new(200, 100, 50));
    }
    for worker in 0..3 {
        for (x, y) in worker_pixels(buffer.iter(), worker, 3) {
            let color = match Path::start(0) {
                Path::Dark => Rgb::black(),
                Path::Escaped | Path::Tracing { .. } => Rgb::new(255, 255, 255),
            };
            buffer.set_pixel(x, y, color);
        }
    }
    for y in 0..height {
        for x in 0..width {
            assert_eq!(buffer.get_pixel(x, y), Rgb::new(0, 0, 0));
        }
    }
    let mut expected = b"P3\n20 11\n255\n".to_vec();
    for _ in 0..width * height {
        expected.extend_from_slice(b"0 0 0\n");
    }
    assert_eq!(buffer.to_ppm(), expected);
}
