use raytracer::canvas::{color_to_255_str, limit_string_to_70, Canvas, Rgb};

#[derive(Clone, Copy, Debug, Default, PartialEq)]
struct Color {
    r: f32,
    g: f32,
    b: f32,
}

fn level(f: f32) -> u8 {
    let f = f * 255.0;
    if f < 0.0 {
        0
    } else if f > 255.0 {
        255
    } else {
        f.round() as u8
    }
}

fn levels(c: Color) -> Rgb {
    Rgb { r: level(c.r), g: level(c.g), b: level(c.b) }
}

#[test]
fn empty_canvas() {
    let c: Canvas<Color> = Canvas::new(20, 40);
    assert!(c.get(10, 30) == Color::default())
}

#[test]
fn write_canvas() {
    let mut c: Canvas<Color> = Canvas::new(20, 40);
    c.set(12, 22, Color { r: 0.2, g: 0.3, b: 0.4 });
    assert!(c.get(10, 30) == Color::default());
    assert!(c.get(12, 22) == Color { r: 0.2, g: 0.3, b: 0.4 })
}

#[test]
fn ppm() {
    let mut c: Canvas<Rgb> = Canvas::new(5, 3);
    c.set(0, 0, levels(Color { r: 1.5, g: 0.0, b: 0.0 }));
    c.set(2, 1, levels(Color { r: 0.0, g: 0.5, b: 0.0 }));
    c.set(4, 2, levels(Color { r: -0.5, g: 0.0, b: 1.0 }));
    assert_eq!(c.to_ppm(), String::from(
        "P3\n\
            5 3\n\
            255\n\
            255 0 0 0 0 0 0 0 0 0 0 0 0 0 0\n\
            0 0 0 0 0 0 0 128 0 0 0 0 0 0 0\n\
            0 0 0 0 0 0 0 0 0 0 0 0 0 0 255\n"
    ));
}

#[test]
fn new_canvas_is_blank_everywhere() {
    let c: Canvas<Rgb> = Canvas::new(3, 2);
    assert_eq!(c.width(), 3);
    assert_eq!(c.height(), 2);
    for y in 0..2 {
        for x in 0..3 {
            assert_eq!(c.get(x, y), Rgb { r: 0, g: 0, b: 0 });
        }
    }
}

#[test]
fn set_changes_one_pixel_only() {
    let mut c: Canvas<u16> = Canvas::new(4, 3);
    c.set(3, 2, 7);
    c.set(0, 0, 9);
    c.set(3, 2, 8);
    for y in 0..3 {
        for x in 0..4 {
            let expected = if (x, y) == (3, 2) {
                8
            } else if (x, y) == (0, 0) {
                9
            } else {
                0
            };
            assert_eq!(c.get(x, y), expected);
        }
    }
    assert_eq!(c.width(), 4);
    assert_eq!(c.height(), 3);
}

#[test]
fn canvas_without_pixels() {
    let none: Canvas<Rgb> = Canvas::new(0, 0);
    assert_eq!(none.to_ppm(), "P3\n0 0\n255\n\n");
    let flat: Canvas<Rgb> = Canvas::new(4, 0);
    assert_eq!(flat.to_ppm(), "P3\n4 0\n255\n\n");
    let thin: Canvas<Rgb> = Canvas::new(0, 2);
    assert_eq!(thin.to_ppm(), "P3\n0 2\n255\n\n\n");
}

#[test]
fn ppm_of_one_pixel() {
    let mut c: Canvas<Rgb> = Canvas::new(1, 1);
    c.set(0, 0, Rgb { r: 7, g: 42, b: 255 });
    assert_eq!(c.to_ppm(), "P3\n1 1\n255\n7 42 255\n");
}

#[test]
fn ppm_wraps_wide_rows() {
    let mut c: Canvas<Rgb> = Canvas::new(10, 2);
    for x in 0..10 {
        c.set(x, 0, Rgb { r: 255, g: 204, b: 153 });
        c.set(x, 1, Rgb { r: 255, g: 204, b: 153 });
    }
    let text = c.to_ppm();
    let lines: Vec<&str> = text.split('\n').collect();
    assert_eq!(lines.len(), 8);
    assert_eq!(lines[0], "P3");
    assert_eq!(lines[1], "10 2");
    assert_eq!(lines[2], "255");
    assert_eq!(lines[3], "255 204 153 255 204 153 255 204 153 255 204 153 255 204 153 255 204");
    assert_eq!(lines[4], "153 255 204 153 255 204 153 255 204 153 255 204 153");
    assert_eq!(lines[5], lines[3]);
    assert_eq!(lines[6], lines[4]);
    assert_eq!(lines[7], "");
    assert!(lines.iter().all(|l| l.len() <= 70));
}

#[test]
fn ppm_header_for_wide_canvas() {
    let c: Canvas<Rgb> = Canvas::new(1200, 1);
    let text = c.to_ppm();
    assert!(text.starts_with("P3\n1200 1\n255\n0 0 0 "));
    assert!(text.ends_with(" 0 0 0\n"));
    assert!(text.split('\n').all(|l| l.len() <= 70));
}

#[test]
fn colour_levels_in_decimal() {
    assert_eq!(color_to_255_str(&Rgb { r: 0, g: 0, b: 0 }), "0 0 0");
    assert_eq!(color_to_255_str(&Rgb { r: 255, g: 128, b: 7 }), "255 128 7");
    assert_eq!(color_to_255_str(&Rgb { r: 10, g: 100, b: 99 }), "10 100 99");
    assert_eq!(color_to_255_str(&Rgb::default()), "0 0 0");
}

#[test]
fn line_limit() {
    assert_eq!(
        limit_string_to_70(String::from(
            "123 456 78 90 \
                123 45 67 89 0 \
                123 45 67 89 0 \
                123 45 67 89 0 \
                12 345 678 90"
        )),
        "123 456 78 90 123 45 67 89 0 123 45 67 89 0 123 45 67 89 0 12 345 678\n90"
    )
}

#[test]
fn short_lines_stay_as_they_are() {
    assert_eq!(limit_string_to_70(String::new()), "");
    assert_eq!(limit_string_to_70(String::from("255")), "255");
    assert_eq!(limit_string_to_70(String::from("255 0 0")), "255 0 0");
    assert_eq!(limit_string_to_70(String::from(" ")), " ");
    assert_eq!(limit_string_to_70(String::from("a  b ")), "a  b ");
}

#[test]
fn line_of_69_bytes_fits_and_70_does_not() {
    let nine = "123456789";
    let fits = format!("{} {} {} {} {} {} {}", nine, nine, nine, nine, nine, nine, nine);
    assert_eq!(fits.len(), 69);
    assert_eq!(limit_string_to_70(fits.clone()), fits);
    let over = format!("{} {} {} {} {} {} {}0", nine, nine, nine, nine, nine, nine, nine);
    assert_eq!(over.len(), 70);
    let broken = format!("{} {} {} {} {} {}\n{}0", nine, nine, nine, nine, nine, nine, nine);
    assert_eq!(limit_string_to_70(over), broken);
}

#[test]
fn long_lines_break_more_than_once() {
    let row = vec!["255"; 60].join(" ");
    let wrapped = limit_string_to_70(row.clone());
    assert_eq!(wrapped.len(), row.len());
    let lines: Vec<&str> = wrapped.split('\n').collect();
    assert_eq!(lines.len(), 4);
    assert_eq!(lines[0], vec!["255"; 17].join(" "));
    assert_eq!(lines[1], vec!["255"; 17].join(" "));
    assert_eq!(lines[2], vec!["255"; 17].join(" "));
    assert_eq!(lines[3], vec!["255"; 9].join(" "));
    assert_eq!(wrapped.replace('\n', " "), row);
}

#[test]
fn word_too_long_for_a_line_stands_alone() {
    let long = "x".repeat(80);
    assert_eq!(limit_string_to_70(format!("ab {} cd", long)), format!("ab\n{}\ncd", long));
    assert_eq!(limit_string_to_70(long.clone()), format!("\n{}", long));
    let exactly = "y".repeat(69);
    assert_eq!(limit_string_to_70(exactly.clone()), exactly);
    let seventy = "z".repeat(70);
    assert_eq!(limit_string_to_70(seventy.clone()), format!("\n{}", seventy));
}

#[test]
fn width_counts_bytes_not_characters() {
    let word = "\u{e9}".repeat(18);
    assert_eq!(word.len(), 36);
    let two = format!("{} {}", word, word);
    assert_eq!(two.chars().count(), 37);
    assert_eq!(limit_string_to_70(two), format!("{}\n{}", word, word));
    let wide = "\u{1f600}".repeat(8);
    assert_eq!(wide.len(), 32);
    let pair = format!("{} {}", wide, wide);
    assert_eq!(limit_string_to_70(pair.clone()), pair);
    let three = "\u{20ac}".repeat(12);
    assert_eq!(three.len(), 36);
    assert_eq!(limit_string_to_70(format!("{} {}", three, three)), format!("{}\n{}", three, three));
}

#[test]
fn wrapping_turns_spaces_into_breaks_and_nothing_else() {
    let inputs = [
        "1 22 333 4444 55555 666666 7777777 88888888 999999999 0000000000 1 22 333 4444 55555 666",
        "  leading and  doubled   spaces                                                   here  ",
        "                                                                                        ",
        "12345678901234567890123456789012345678901234567890123456789012345678 9 0 1 2 3 4 5 6 7 8",
    ];
    for input in inputs {
        let wrapped = limit_string_to_70(String::from(input));
        assert_eq!(wrapped.len(), input.len());
        for (a, b) in input.chars().zip(wrapped.chars()) {
            assert!(a == b || (a == ' ' && b == '\n'));
        }
        for line in wrapped.split('\n') {
            assert!(line.len() < 70 || !line.contains(' '));
        }
    }
}

#[test]
fn wrapping_breaks_as_late_as_it_can() {
    let word = "abcdefghi";
    let text = vec![word; 30].join(" ");
    let wrapped = limit_string_to_70(text);
    let lines: Vec<&str> = wrapped.split('\n').collect();
    assert_eq!(lines.len(), 5);
    for line in &lines[..4] {
        assert_eq!(line.len(), 69);
    }
    assert_eq!(lines[4], "abcdefghi abcdefghi");
}
