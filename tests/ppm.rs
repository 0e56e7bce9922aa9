use ray_tracer::canvas::Canvas;
use ray_tracer::ppm::{canvas_to_ppm, Rgb8, MAX_LINE_LEN};

const BLACK: Rgb8 = Rgb8 { r: 0, g: 0, b: 0 };

fn rgb(r: u8, g: u8, b: u8) -> Rgb8 {
    Rgb8 { r, g, b }
}

#[test]
fn test_ppm_header() {
    let c = Canvas::new(5, 3, BLACK);
    let ppm = canvas_to_ppm(&c);
    assert!(ppm.starts_with("P3\n5 3\n255\n"));
}

#[test]
fn test_ppm_px_data() {
    let mut c = Canvas::new(5, 3, BLACK);
    c.write_px(0, 0, rgb(255, 0, 0));
    c.write_px(2, 1, rgb(0, 127, 0));
    c.write_px(4, 2, rgb(0, 0, 255));
    let ppm = canvas_to_ppm(&c);
    let ppm = ppm.lines().collect::<Vec<_>>();

    assert_eq!(ppm[3], "255 0 0 0 0 0 0 0 0 0 0 0 0 0 0");
    assert_eq!(ppm[4], "0 0 0 0 0 0 0 127 0 0 0 0 0 0 0");
    assert_eq!(ppm[5], "0 0 0 0 0 0 0 0 0 0 0 0 0 0 255");
}

#[test]
fn test_ppm_px_data_split() {
    let mut c = Canvas::new(10, 2, BLACK);
    for y in 0..2 {
        for x in 0..10 {
            c.write_px(x, y, rgb(255, 204, 153));
        }
    }
    let ppm = canvas_to_ppm(&c);
    let ppm = ppm.lines().collect::<Vec<_>>();

    assert_eq!(
        ppm[3],
        "255 204 153 255 204 153 255 204 153 255 204 153 255 204 153 255 204"
    );
    assert_eq!(ppm[4], "153 255 204 153 255 204 153 255 204 153 255 204 153");
    assert_eq!(
        ppm[5],
        "255 204 153 255 204 153 255 204 153 255 204 153 255 204 153 255 204"
    );
    assert_eq!(ppm[6], "153 255 204 153 255 204 153 255 204 153 255 204 153");
}

#[test]
fn test_ppm_end_newline() {
    let ppm = canvas_to_ppm(&Canvas::new(5, 3, BLACK));
    assert!(ppm.ends_with("\n"));
}

#[test]
fn five_by_three_encoding_has_header_newline_and_short_lines() {
    let ppm = canvas_to_ppm(&Canvas::new(5, 3, BLACK));
    assert!(ppm.starts_with("P3\n5 3\n255\n"));
    assert!(ppm.ends_with('\n'));
    assert!(ppm.lines().all(|l| l.len() <= 70));
    assert_eq!(ppm.lines().count(), 6);
}

#[test]
fn empty_canvas_is_header_only() {
    assert_eq!(canvas_to_ppm(&Canvas::new(0, 0, BLACK)), "P3\n0 0\n255\n");
    assert_eq!(canvas_to_ppm(&Canvas::new(4, 0, BLACK)), "P3\n4 0\n255\n");
    assert_eq!(canvas_to_ppm(&Canvas::new(0, 2, BLACK)), "P3\n0 2\n255\n");
}

#[test]
fn single_pixel_row() {
    let mut c = Canvas::new(1, 1, BLACK);
    c.write_px(0, 0, rgb(7, 89, 100));
    assert_eq!(canvas_to_ppm(&c), "P3\n1 1\n255\n7 89 100\n");
}

#[test]
fn a_line_of_exactly_seventy_characters_is_kept_whole() {
    // Seventeen values of three digits and one of two, with their seventeen
    // separating spaces, make 70 characters.
    let mut c = Canvas::new(7, 1, rgb(100, 100, 100));
    c.write_px(5, 0, rgb(100, 10, 100));
    let ppm = canvas_to_ppm(&c);
    let lines = ppm.lines().collect::<Vec<_>>();
    assert_eq!(lines[3].len(), MAX_LINE_LEN);
    assert!(lines[3].ends_with(" 10 100"));
    assert_eq!(lines[4], "100 100 100");
    assert_eq!(lines.len(), 5);

    // Eighteen values of three digits would make 71.
    let c = Canvas::new(7, 1, rgb(100, 100, 100));
    let ppm = canvas_to_ppm(&c);
    let lines = ppm.lines().collect::<Vec<_>>();
    assert_eq!(lines[3].len(), 67);
    assert_eq!(lines[4], "100 100 100 100");
}

#[test]
fn large_sizes_are_written_in_full() {
    let ppm = canvas_to_ppm(&Canvas::new(12345, 0, BLACK));
    assert_eq!(ppm, "P3\n12345 0\n255\n");
}
