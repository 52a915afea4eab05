use identicon::canvas::{encode, encoded, Canvas};
use identicon::colors::{foreground, Color, BACKGROUND, DARK_COLORS};
use identicon::utils::md5;
use identicon::{draw_rect, gen, pixels, render, IMAGE_SIZE, MARGIN, PIXEL_SIZE, SPRITE_SIZE};

fn expected_pixel(grid: &[bool; 25], fg: Color, x: u32, y: u32) -> Color {
    if x < 24 || y < 24 || x >= 264 || y >= 264 {
        return BACKGROUND;
    }
    let col = ((x - 24) / 48) as usize;
    let row = ((y - 24) / 48) as usize;
    if grid[row * 5 + col] {
        fg
    } else {
        BACKGROUND
    }
}

#[test]
fn sizes() {
    assert_eq!(SPRITE_SIZE, 5);
    assert_eq!(IMAGE_SIZE, 290);
    assert_eq!(PIXEL_SIZE, IMAGE_SIZE / (SPRITE_SIZE + 1));
    assert_eq!(PIXEL_SIZE, 48);
    assert_eq!(MARGIN, PIXEL_SIZE / 2);
    assert_eq!(MARGIN, 24);
}

#[test]
fn filled_canvas_has_one_colour() {
    let canvas = Canvas::filled(4, 3, (1, 2, 3));
    for y in 0..3 {
        for x in 0..4 {
            assert_eq!(canvas.pixel(x, y), Some((1, 2, 3)));
        }
    }
}

#[test]
fn pixel_outside_the_canvas() {
    let canvas = Canvas::filled(4, 3, (1, 2, 3));
    assert_eq!(canvas.pixel(4, 0), None);
    assert_eq!(canvas.pixel(0, 3), None);
    assert_eq!(canvas.pixel(u32::MAX, u32::MAX), None);
    assert_eq!(Canvas::filled(0, 0, (0, 0, 0)).pixel(0, 0), None);
}

#[test]
fn draw_rect_fills_the_half_open_rectangle() {
    let mut canvas = Canvas::filled(10, 8, (0, 0, 0));
    draw_rect(&mut canvas, 2, 3, 5, 7, (9, 8, 7));
    for y in 0..8 {
        for x in 0..10 {
            let inside = (2..5).contains(&x) && (3..7).contains(&y);
            let expected = if inside { (9, 8, 7) } else { (0, 0, 0) };
            assert_eq!(canvas.pixel(x, y), Some(expected), "at ({x}, {y})");
        }
    }
}

#[test]
fn draw_rect_of_an_empty_rectangle_changes_nothing() {
    let mut canvas = Canvas::filled(3, 3, (5, 5, 5));
    draw_rect(&mut canvas, 2, 0, 2, 3, (1, 1, 1));
    draw_rect(&mut canvas, 0, 2, 3, 1, (1, 1, 1));
    draw_rect(&mut canvas, 100, 100, 50, 200, (1, 1, 1));
    for y in 0..3 {
        for x in 0..3 {
            assert_eq!(canvas.pixel(x, y), Some((5, 5, 5)));
        }
    }
}

#[test]
fn draw_rect_up_to_the_edges() {
    let mut canvas = Canvas::filled(3, 2, (5, 5, 5));
    draw_rect(&mut canvas, 0, 0, 3, 2, (1, 1, 1));
    for y in 0..2 {
        for x in 0..3 {
            assert_eq!(canvas.pixel(x, y), Some((1, 1, 1)));
        }
    }
}

#[test]
fn render_of_an_empty_pattern_is_all_background() {
    let canvas = render(&[false; 25], (1, 2, 3));
    for y in 0..290 {
        for x in 0..290 {
            assert_eq!(canvas.pixel(x, y), Some(BACKGROUND));
        }
    }
    assert_eq!(canvas.pixel(290, 0), None);
    assert_eq!(canvas.pixel(0, 290), None);
}

#[test]
fn render_of_a_full_pattern_leaves_the_border() {
    let canvas = render(&[true; 25], (1, 2, 3));
    assert_eq!(canvas.pixel(23, 24), Some(BACKGROUND));
    assert_eq!(canvas.pixel(24, 23), Some(BACKGROUND));
    assert_eq!(canvas.pixel(24, 24), Some((1, 2, 3)));
    assert_eq!(canvas.pixel(263, 263), Some((1, 2, 3)));
    assert_eq!(canvas.pixel(264, 263), Some(BACKGROUND));
    assert_eq!(canvas.pixel(263, 264), Some(BACKGROUND));
    assert_eq!(canvas.pixel(289, 289), Some(BACKGROUND));
}

#[test]
fn render_of_one_cell() {
    let mut grid = [false; 25];
    grid[1 * 5 + 3] = true;
    let canvas = render(&grid, (7, 7, 7));
    // Row 1, column 3: x in [168, 216), y in [72, 120).
    for y in 0..290 {
        for x in 0..290 {
            let inside = (168..216).contains(&x) && (72..120).contains(&y);
            let expected = if inside { (7, 7, 7) } else { BACKGROUND };
            assert_eq!(canvas.pixel(x, y), Some(expected), "at ({x}, {y})");
        }
    }
}

#[test]
fn identicon_of_alice() {
    let canvas = gen(b"alice");
    let hash = md5(b"alice");
    let grid = pixels(hash);
    let fg = foreground(&hash);
    assert_eq!(fg, DARK_COLORS[15]);
    for y in 0..290 {
        for x in 0..290 {
            assert_eq!(canvas.pixel(x, y), Some(expected_pixel(&grid, fg, x, y)), "at ({x}, {y})");
        }
    }
    // Row 0 is painted throughout, row 1 not at all.
    assert_eq!(canvas.pixel(24, 24), Some((38, 50, 56)));
    assert_eq!(canvas.pixel(263, 71), Some((38, 50, 56)));
    assert_eq!(canvas.pixel(24, 72), Some(BACKGROUND));
    assert_eq!(canvas.pixel(0, 0), Some(BACKGROUND));
}

#[test]
fn identicons_of_many_identifiers() {
    for name in ["", "bob", "carol", "dave", "a/b", "\u{e9}t\u{e9}"] {
        let canvas = gen(name.as_bytes());
        let hash = md5(name.as_bytes());
        let grid = pixels(hash);
        let fg = foreground(&hash);
        for y in (0..290).step_by(7) {
            for x in (0..290).step_by(5) {
                assert_eq!(canvas.pixel(x, y), Some(expected_pixel(&grid, fg, x, y)));
            }
        }
    }
}

#[test]
fn identicon_is_mirrored_within_the_pattern() {
    let canvas = gen(b"carol");
    for y in 24..264 {
        for x in 24..264 {
            assert_eq!(canvas.pixel(x, y), canvas.pixel(287 - x, y));
        }
    }
}

#[test]
fn encoding_is_a_png_file() {
    let bytes = encode(&gen(b"alice")).unwrap();
    assert_eq!(&bytes[..8], &[0x89, b'P', b'N', b'G', 0x0D, 0x0A, 0x1A, 0x0A]);
}

#[test]
fn encoding_is_lossless() {
    let canvas = gen(b"alice");
    let bytes = encode(&canvas).unwrap();
    let decoded = image::load_from_memory(&bytes).unwrap().to_rgb8();
    assert_eq!(decoded.dimensions(), (290, 290));
    for y in 0..290 {
        for x in 0..290 {
            let p = decoded.get_pixel(x, y).0;
            assert_eq!(canvas.pixel(x, y), Some((p[0], p[1], p[2])));
        }
    }
}

#[test]
fn encoding_is_repeatable() {
    let first = encode(&gen(b"alice")).unwrap();
    let second = encode(&gen(b"alice")).unwrap();
    assert_eq!(first, second);
    let same_pixels = encode(&render(&pixels(md5(b"alice")), foreground(&md5(b"alice")))).unwrap();
    assert_eq!(first, same_pixels);
}

#[test]
fn encoding_differs_between_pictures() {
    assert_ne!(encode(&gen(b"alice")).unwrap(), encode(&gen(b"bob")).unwrap());
}

#[test]
fn encoding_an_empty_canvas_fails() {
    let out = encode(&Canvas::filled(0, 0, (0, 0, 0)));
    assert!(out.is_err());
    assert!(!out.unwrap_err().message.is_empty());
}

#[test]
fn encoded_keeps_the_bytes() {
    assert_eq!(encoded(Ok(vec![1, 2, 3])), Ok(vec![1, 2, 3]));
    assert_eq!(encoded(Ok(Vec::new())), Ok(Vec::new()));
}

#[test]
fn encoded_reports_the_words_of_the_encoder() {
    let error = image::ImageError::IoError(std::io::Error::new(
        std::io::ErrorKind::Other,
        "no space left",
    ));
    let out = encoded(Err(error));
    let message = out.unwrap_err().message;
    assert!(message.contains("no space left"), "got {message:?}");
}

#[test]
fn encode_answers_what_encoded_says() {
    let bytes = encode(&gen(b"bob")).unwrap();
    assert_eq!(encoded(Ok(bytes.clone())), Ok(bytes));
}
