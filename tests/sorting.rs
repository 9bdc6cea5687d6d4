use pixelsort::buffer::PixelBuffer;
use pixelsort::pixel::{Criterion, Pixel};
use pixelsort::sort::{basic_sort, checker_sort, checker_sort_grid};

const RED: Pixel = Pixel { r: 255, g: 0, b: 0 };
const GREEN: Pixel = Pixel { r: 0, g: 255, b: 0 };
const BLUE: Pixel = Pixel { r: 0, g: 0, b: 255 };
const BLACK: Pixel = Pixel { r: 0, g: 0, b: 0 };

fn grey(v: u8) -> Pixel {
    Pixel::new(v, v, v)
}

fn buffer(w: u32, h: u32, pixels: Vec<Pixel>) -> PixelBuffer {
    PixelBuffer::from_pixels(w, h, pixels).unwrap()
}

fn quadrants() -> PixelBuffer {
    let mut v = Vec::new();
    for y in 0..4 {
        for x in 0..4 {
            v.push(match (x < 2, y < 2) {
                (true, true) => RED,
                (false, true) => GREEN,
                (true, false) => BLUE,
                (false, false) => BLACK,
            });
        }
    }
    buffer(4, 4, v)
}

fn sorted_multiset(v: &[Pixel]) -> Vec<(u8, u8, u8)> {
    let mut m: Vec<(u8, u8, u8)> = v.iter().map(|p| (p.r, p.g, p.b)).collect();
    m.sort();
    m
}

#[test]
fn from_pixels_checks_the_length() {
    assert!(PixelBuffer::from_pixels(2, 2, vec![BLACK; 4]).is_some());
    assert!(PixelBuffer::from_pixels(2, 2, vec![BLACK; 3]).is_none());
    assert!(PixelBuffer::from_pixels(0, 5, vec![]).is_some());
}

#[test]
fn get_pixel_is_row_major() {
    let b = quadrants();
    assert_eq!(b.get_pixel(3, 0), GREEN);
    assert_eq!(b.get_pixel(0, 3), BLUE);
    assert_eq!(b.get_pixel(3, 3), BLACK);
}

#[test]
fn byte_size_is_three_per_pixel() {
    assert_eq!(quadrants().byte_size(), 48);
    let b = PixelBuffer { width: u32::MAX, height: u32::MAX, pixels: vec![] };
    assert_eq!(b.byte_size(), 3 * (u32::MAX as u128) * (u32::MAX as u128));
}

#[test]
fn basic_sort_quadrants_by_average() {
    let out = basic_sort(&quadrants(), Criterion::Average);
    assert_eq!(out.width, 4);
    assert_eq!(out.height, 4);
    let expected = vec![
        BLACK, BLACK, BLACK, BLACK, RED, RED, GREEN, GREEN, RED, RED, GREEN, GREEN, BLUE, BLUE,
        BLUE, BLUE,
    ];
    assert_eq!(out.pixels, expected);
}

#[test]
fn basic_sort_is_a_sorted_permutation() {
    let pixels: Vec<Pixel> = (0..30u32)
        .map(|i| Pixel::new(((i * 37) % 256) as u8, ((i * 11) % 256) as u8, (i * 5) as u8))
        .collect();
    let buf = buffer(6, 5, pixels.clone());
    for c in Criterion::all() {
        let out = basic_sort(&buf, c);
        assert_eq!(sorted_multiset(&out.pixels), sorted_multiset(&pixels));
        for i in 1..out.pixels.len() {
            assert!(c.key(&out.pixels[i - 1]) <= c.key(&out.pixels[i]));
        }
    }
}

#[test]
fn basic_sort_is_stable() {
    // equal red channel, told apart by green: their input order must stay
    let pixels = vec![
        Pixel::new(9, 1, 0),
        Pixel::new(3, 1, 0),
        Pixel::new(9, 2, 0),
        Pixel::new(3, 2, 0),
        Pixel::new(9, 3, 0),
        Pixel::new(3, 3, 0),
    ];
    let out = basic_sort(&buffer(3, 2, pixels), Criterion::Red);
    let expected = vec![
        Pixel::new(3, 1, 0),
        Pixel::new(3, 2, 0),
        Pixel::new(3, 3, 0),
        Pixel::new(9, 1, 0),
        Pixel::new(9, 2, 0),
        Pixel::new(9, 3, 0),
    ];
    assert_eq!(out.pixels, expected);
}

#[test]
fn basic_sort_of_empty_image() {
    let out = basic_sort(&buffer(0, 0, vec![]), Criterion::Hue);
    assert_eq!(out.width, 0);
    assert!(out.pixels.is_empty());
}

#[test]
fn checker_sort_two_by_two_grid_keeps_quadrants() {
    // each quadrant holds its own grey levels in descending order
    let mut v = Vec::new();
    for y in 0..4u8 {
        for x in 0..4u8 {
            let quadrant = (y / 2) * 2 + x / 2;
            let within = (y % 2) * 2 + x % 2;
            v.push(grey(quadrant * 10 + (3 - within)));
        }
    }
    let out = checker_sort_grid(&buffer(4, 4, v), Criterion::Red, 2, 2);
    let expected: Vec<u8> = vec![0, 1, 10, 11, 2, 3, 12, 13, 20, 21, 30, 31, 22, 23, 32, 33];
    let got: Vec<u8> = out.pixels.iter().map(|p| p.r).collect();
    assert_eq!(got, expected);
}

#[test]
fn checker_sort_leaves_the_remainder_alone() {
    // 5 × 3 with a 2 × 2 grid: tiles are 2 × 1; column 4 and row 2 are uncovered
    let v: Vec<Pixel> = (0..15u8).map(|i| grey(100 - i)).collect();
    let out = checker_sort_grid(&buffer(5, 3, v.clone()), Criterion::Average, 2, 2);
    let got: Vec<u8> = out.pixels.iter().map(|p| p.r).collect();
    let expected: Vec<u8> = vec![
        99, 100, 97, 98, 96, //
        94, 95, 92, 93, 91, //
        90, 89, 88, 87, 86,
    ];
    assert_eq!(got, expected);
}

#[test]
fn checker_sort_on_small_image_changes_nothing() {
    // narrower than the default grid: every tile is empty
    let v: Vec<Pixel> = (0..12u8).map(|i| grey(50 - i)).collect();
    let out = checker_sort(&buffer(4, 3, v.clone()), Criterion::Red);
    assert_eq!(out.pixels, v);
}

#[test]
fn checker_sort_default_grid() {
    // 200 × 100 gives 2 × 1 tiles of two pixels each
    let v: Vec<Pixel> = (0..20000u32).map(|i| grey((255 - (i % 256)) as u8)).collect();
    let out = checker_sort(&buffer(200, 100, v.clone()), Criterion::Blue);
    for pair in out.pixels.chunks(2) {
        assert!(pair[0].b <= pair[1].b);
    }
    assert_eq!(sorted_multiset(&out.pixels), sorted_multiset(&v));
}
