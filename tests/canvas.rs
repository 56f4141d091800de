use ray_core::canvas::{Canvas, CanvasError};
use ray_core::ppm::{encode_ppm, Rgb8, MAX_LINE_LENGTH};

fn black() -> Rgb8 {
    Rgb8::new(0, 0, 0)
}

#[test]
fn canvas_test_new() {
    let c = Canvas::new(10, 20, (0.0f32, 0.0f32, 0.0f32));
    assert_eq!(c.width(), 10);
    assert_eq!(c.height(), 20);
    assert_eq!(c.pixels().len(), 200);
    assert_eq!(c.pixels()[0], (0.0, 0.0, 0.0));
}

#[test]
fn test_write_pixel() {
    let mut c = Canvas::new(10, 20, (0.0f32, 0.0f32, 0.0f32));
    let red = (1.0f32, 0.0f32, 0.0f32);
    assert_eq!(c.write_pixel(2, 3, red), Ok(()));
    assert_eq!(c.pixel_at(2, 3), Ok(red));
}

#[test]
fn test_to_ppm_header() {
    let c = Canvas::new(5, 3, black());
    let ppm = c.to_ppm();
    let lines: Vec<&str> = ppm.split('\r').collect();
    assert_eq!(lines[0], "P3");
    assert_eq!(lines[1], "5 3");
    assert_eq!(lines[2], "255");
}

#[test]
fn test_to_ppm() {
    let mut c = Canvas::new(5, 3, black());
    let c1 = Rgb8::new(255, 0, 0);
    let c2 = Rgb8::new(0, 128, 0);
    let c3 = Rgb8::new(0, 0, 255);
    c.write_pixel(0, 0, c1).unwrap();
    c.write_pixel(2, 1, c2).unwrap();
    c.write_pixel(4, 2, c3).unwrap();
    let ppm = c.to_ppm();
    let lines: Vec<&str> = ppm.split('\r').collect();
    assert_eq!(lines[3], "255 0 0 0 0 0 0 0 0 0 0 0 0 0 0");
    assert_eq!(lines[4], "0 0 0 0 0 0 0 128 0 0 0 0 0 0 0");
    assert_eq!(lines[5], "0 0 0 0 0 0 0 0 0 0 0 0 0 0 255");
}

#[test]
fn test_to_ppm_splitting() {
    let mut c = Canvas::new(10, 2, black());
    let color = Rgb8::new(255, 204, 153);
    for y in 0..c.height() {
        for x in 0..c.width() {
            c.write_pixel(x, y, color).unwrap();
        }
    }
    let ppm = c.to_ppm();
    let lines: Vec<&str> = ppm.split('\r').collect();
    assert_eq!(
        lines[3],
        "255 204 153 255 204 153 255 204 153 255 204 153 255 204 153 255 204"
    );
    assert_eq!(
        lines[4],
        "153 255 204 153 255 204 153 255 204 153 255 204 153"
    );
    assert_eq!(
        lines[5],
        "255 204 153 255 204 153 255 204 153 255 204 153 255 204 153 255 204"
    );
    assert_eq!(
        lines[6],
        "153 255 204 153 255 204 153 255 204 153 255 204 153"
    );
}

#[test]
fn test_to_ppm_ends_with_newline() {
    let c = Canvas::new(5, 3, black());
    let ppm = c.to_ppm();
    assert_eq!(ppm.chars().last().unwrap(), '\r');
}

#[test]
fn whole_text_of_small_canvas() {
    let mut c = Canvas::new(2, 1, black());
    c.write_pixel(1, 0, Rgb8::new(7, 42, 255)).unwrap();
    assert_eq!(c.to_ppm(), "P3\r2 1\r255\r0 0 0 7 42 255\r");
}

#[test]
fn empty_canvas_has_header_only() {
    let c = Canvas::new(0, 0, black());
    assert_eq!(c.to_ppm(), "P3\r0 0\r255\r");
}

#[test]
fn zero_width_rows_are_empty_lines() {
    let c = Canvas::new(0, 2, black());
    assert_eq!(c.to_ppm(), "P3\r0 2\r255\r\r\r");
}

#[test]
fn pixel_access_out_of_range() {
    let mut c = Canvas::new(5, 3, black());
    assert_eq!(c.pixel_at(5, 0), Err(CanvasError::IndexOutOfRange));
    assert_eq!(c.pixel_at(0, 3), Err(CanvasError::IndexOutOfRange));
    assert_eq!(c.write_pixel(5, 0, Rgb8::new(1, 1, 1)), Err(CanvasError::IndexOutOfRange));
    // (5, 0) would land on (0, 1) if the index wrapped
    assert_eq!(c.pixel_at(0, 1), Ok(black()));
}

#[test]
fn canvas_starts_with_fill_everywhere() {
    let fill = Rgb8::new(1, 2, 3);
    let c = Canvas::new(4, 3, fill);
    for y in 0..3 {
        for x in 0..4 {
            assert_eq!(c.pixel_at(x, y), Ok(fill));
        }
    }
}

#[test]
fn no_line_reaches_the_limit() {
    let mut c = Canvas::new(57, 4, Rgb8::new(255, 255, 255));
    c.write_pixel(3, 2, Rgb8::new(9, 99, 100)).unwrap();
    let ppm = c.to_ppm();
    for line in ppm.split('\r') {
        assert!(line.len() < MAX_LINE_LENGTH);
        assert!(!line.ends_with(' '));
    }
}

#[test]
fn pixel_lines_read_back_as_channels() {
    let width = 23;
    let height = 3;
    let mut pixels = Vec::new();
    for i in 0..width * height {
        let v = (i * 37 % 256) as u8;
        pixels.push(Rgb8::new(v, 255 - v, v / 2));
    }
    let text = encode_ppm(width, height, &pixels);
    let lines: Vec<&str> = text.split('\r').collect();
    let mut values: Vec<u8> = Vec::new();
    for line in &lines[3..lines.len() - 1] {
        for word in line.split_whitespace() {
            values.push(word.parse::<u8>().unwrap());
        }
    }
    let mut expected: Vec<u8> = Vec::new();
    for p in &pixels {
        expected.push(p.red);
        expected.push(p.green);
        expected.push(p.blue);
    }
    assert_eq!(values, expected);
}

#[test]
fn wrap_happens_exactly_at_the_limit() {
    // 17 three-digit numbers take 67 characters; an 18th would reach 71
    let c = Canvas::new(6, 1, Rgb8::new(100, 100, 100));
    let ppm = c.to_ppm();
    let lines: Vec<&str> = ppm.split('\r').collect();
    assert_eq!(lines[3].len(), 67);
    assert_eq!(lines[4], "100");
}
