use raytracer::driver::{assemble, render, render_band};
use raytracer::pixel::Rgb;
use raytracer::tiling::{bands, Band};

fn coordinates(x: usize, y: usize) -> Rgb {
    Rgb { r: x as u8, g: y as u8, b: (10 * y + x) as u8 }
}

#[test]
fn a_band_is_rendered_row_by_row_from_left_to_right() {
    let local = render_band(2, Band { start: 1, end: 3 }, &coordinates);
    assert_eq!(local, vec![0, 1, 10, 1, 1, 11, 0, 2, 20, 1, 2, 21]);
}

#[test]
fn an_empty_band_has_an_empty_buffer() {
    assert_eq!(render_band(5, Band { start: 3, end: 3 }, &coordinates), Vec::<u8>::new());
    assert_eq!(render_band(0, Band { start: 0, end: 4 }, &coordinates), Vec::<u8>::new());
}

#[test]
fn the_pixel_function_is_called_once_for_each_pixel_of_the_band() {
    let calls = std::cell::RefCell::new(Vec::new());
    let record = |x: usize, y: usize| {
        calls.borrow_mut().push((x, y));
        Rgb { r: 0, g: 0, b: 0 }
    };
    let local = render_band(3, Band { start: 4, end: 6 }, &record);
    assert_eq!(local.len(), 2 * 3 * 3);
    assert_eq!(*calls.borrow(), vec![(0, 4), (1, 4), (2, 4), (0, 5), (1, 5), (2, 5)]);
}

#[test]
fn bands_are_put_together_from_the_top_down() {
    // Two columns, five rows, two workers: rows 0..2 and rows 2..5.
    let top: Vec<u8> = (1..=12).collect();
    let bottom: Vec<u8> = (101..=118).collect();
    let buffer = assemble(2, 5, &vec![Some(top.clone()), Some(bottom.clone())]);
    let mut expected = top;
    expected.extend(bottom);
    assert_eq!(buffer, expected);
}

#[test]
fn the_band_of_a_failed_worker_stays_black() {
    let width = 2;
    let height = 7;
    let tiles = bands(height, 3);
    let mut outputs: Vec<Option<Vec<u8>>> =
        tiles.iter().map(|b| Some(render_band(width, *b, &|_, _| Rgb { r: 9, g: 8, b: 7 }))).collect();
    outputs[1] = None;
    let buffer = assemble(width, height, &outputs);
    assert_eq!(buffer.len(), width * height * 3);
    for y in 0..height {
        for x in 0..width {
            let at = (y * width + x) * 3;
            let expected = if tiles[1].start <= y && y < tiles[1].end { [0, 0, 0] } else { [9, 8, 7] };
            assert_eq!(buffer[at..at + 3], expected);
        }
    }
}

#[test]
fn when_every_worker_fails_the_image_is_black() {
    let buffer = assemble(3, 4, &vec![None, None, None]);
    assert_eq!(buffer, vec![0u8; 3 * 4 * 3]);
}

#[test]
fn every_pixel_shows_what_the_pixel_function_gave_for_it() {
    let width = 5;
    let height = 9;
    let buffer = render(width, height, 4, &coordinates);
    assert_eq!(buffer.len(), width * height * 3);
    for y in 0..height {
        for x in 0..width {
            let at = (y * width + x) * 3;
            let Rgb { r, g, b } = coordinates(x, y);
            assert_eq!(buffer[at..at + 3], [r, g, b]);
        }
    }
}

#[test]
fn the_image_does_not_depend_on_the_number_of_workers() {
    let one = render(6, 11, 1, &coordinates);
    for workers in 2..15 {
        assert_eq!(render(6, 11, workers, &coordinates), one);
    }
}

#[test]
fn bands_rendered_apart_give_the_image_rendered_at_once() {
    let width = 4;
    let height = 10;
    let outputs: Vec<Option<Vec<u8>>> =
        bands(height, 3).iter().map(|b| Some(render_band(width, *b, &coordinates))).collect();
    let whole = render_band(width, Band { start: 0, end: height }, &coordinates);
    assert_eq!(assemble(width, height, &outputs), whole);
    assert_eq!(render(width, height, 3, &coordinates), whole);
}

#[test]
fn an_image_without_pixels_has_an_empty_buffer() {
    assert_eq!(render(0, 5, 2, &coordinates), Vec::<u8>::new());
    assert_eq!(render(5, 0, 2, &coordinates), Vec::<u8>::new());
    assert_eq!(assemble(0, 0, &vec![None]), Vec::<u8>::new());
}

#[test]
fn pixels_of_a_small_image_keep_their_places() {
    // A 4 by 4 image: a bright square of four pixels in the middle, its top
    // row brighter than its bottom row, on a grey ground.
    let shade = |x: usize, y: usize| {
        let inside = (1..3).contains(&x) && (1..3).contains(&y);
        let level = if inside { 250 - 100 * (y as u8 - 1) } else { 76 };
        Rgb { r: level, g: level, b: level }
    };
    let buffer = render(4, 4, 2, &shade);
    let rows: Vec<Vec<u8>> = buffer.chunks(12).map(|row| row.iter().step_by(3).copied().collect()).collect();
    assert_eq!(
        rows,
        vec![vec![76, 76, 76, 76], vec![76, 250, 250, 76], vec![76, 150, 150, 76], vec![76, 76, 76, 76]]
    );
}
