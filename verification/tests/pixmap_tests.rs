use float_clock::pixmap::{Color, Pixmap};

fn cov(fraction: f32) -> u8 {
    (fraction.clamp(0.0, 1.0) * 255.0).round() as u8
}

#[test]
fn parses_hex_colors() {
    assert_eq!(Color::parse("#00FF66").unwrap(), Color::rgb(0, 255, 102));
    assert_eq!(Color::parse("0f6").unwrap(), Color::rgb(0, 255, 102));
    assert_eq!(Color::parse("#00000000").unwrap().a, 0);
    assert!(Color::parse("#12345").is_err());
    assert!(Color::parse("zzzzzz").is_err());
}

#[test]
fn color_errors_quote_the_text() {
    assert_eq!(Color::parse("zz").unwrap_err(), "颜色只能由 16 进制字符组成：\"zz\"");
    assert_eq!(Color::parse(" #12345 ").unwrap_err(), "颜色需要 3、6 或 8 位 16 进制：\" #12345 \"");
    assert_eq!(Color::parse("  ##80402010 ").unwrap(), Color { r: 0x80, g: 0x40, b: 0x20, a: 0x10 });
}

#[test]
fn new_pixmap_is_fully_transparent() {
    let pixmap = Pixmap::new(4, 3);
    assert_eq!(pixmap.data.len(), 4 * 3 * 4);
    assert!(pixmap.data.iter().all(|byte| *byte == 0));
}

#[test]
fn a_zero_size_becomes_one_pixel() {
    let pixmap = Pixmap::new(0, 0);
    assert_eq!((pixmap.width, pixmap.height), (1, 1));
    assert_eq!(pixmap.data.len(), 4);
}

#[test]
fn blend_opaque_writes_exact_color() {
    let mut pixmap = Pixmap::new(2, 2);
    pixmap.blend(1, 1, Color::rgb(0, 255, 102), cov(1.0));
    assert_eq!(pixmap.get(1, 1), [0, 255, 102, 255]);
    assert_eq!(pixmap.get(0, 0), [0, 0, 0, 0]);
}

#[test]
fn blend_half_coverage_is_semi_transparent() {
    let mut pixmap = Pixmap::new(1, 1);
    pixmap.blend(0, 0, Color::rgb(0, 255, 102), cov(0.5));
    let [r, g, b, a] = pixmap.get(0, 0);
    assert_eq!((r, g, b), (0, 255, 102));
    assert!((a as i32 - 128).abs() <= 2, "alpha 应该约等于 128，实际 {a}");
}

#[test]
fn blend_mixes_with_what_is_there() {
    let mut pixmap = Pixmap::new(1, 1);
    pixmap.fill(Color::rgb(255, 0, 0));
    pixmap.blend(0, 0, Color::rgb(0, 0, 255), 128);
    // sa = 128/255; channels (s·sa + d·(1 − sa)), alpha stays opaque
    assert_eq!(pixmap.get(0, 0), [127, 0, 128, 255]);
}

#[test]
fn erase_punches_holes() {
    let mut pixmap = Pixmap::new(3, 1);
    pixmap.fill(Color::rgb(0, 255, 102));
    pixmap.erase(0, 0, cov(1.0));
    pixmap.erase(1, 0, cov(0.5));
    assert_eq!(pixmap.get(0, 0)[3], 0, "覆盖度 1 应该完全镂空");
    assert!((pixmap.get(1, 0)[3] as i32 - 128).abs() <= 2);
    assert_eq!(pixmap.get(2, 0)[3], 255);
}

#[test]
fn drawing_outside_bounds_is_ignored() {
    let mut pixmap = Pixmap::new(2, 2);
    pixmap.blend(-1, 0, Color::rgb(255, 0, 0), cov(1.0));
    pixmap.blend(9, 9, Color::rgb(255, 0, 0), cov(1.0));
    pixmap.erase(-3, -3, cov(1.0));
    assert!(pixmap.data.iter().all(|byte| *byte == 0));
}

#[test]
fn solid_border_has_no_gaps() {
    let mut pixmap = Pixmap::new(10, 10);
    pixmap.border_rect(0, 0, 10, 10, 1, Color::rgb(255, 0, 0), None);
    for index in 0..10 {
        assert_eq!(pixmap.get(index, 0)[3], 255, "顶边第 {index} 列不该有缺口");
        assert_eq!(pixmap.get(0, index)[3], 255, "左边第 {index} 行不该有缺口");
    }
    assert_eq!(pixmap.get(5, 5)[3], 0, "中间应该是空的");
}

#[test]
fn dashed_border_has_gaps() {
    let mut pixmap = Pixmap::new(40, 10);
    pixmap.border_rect(0, 0, 40, 10, 1, Color::rgb(255, 0, 0), Some((4, 3)));
    let opaque = (0..40).filter(|x| pixmap.get(*x, 0)[3] == 255).count();
    let holes = (0..40).filter(|x| pixmap.get(*x, 0)[3] == 0).count();
    assert!(opaque > 10, "虚线也要有足够的实线段：{opaque}");
    assert!(holes > 10, "虚线必须有缺口：{holes}");
}

#[test]
fn dash_pattern_repeats_every_period() {
    let mut pixmap = Pixmap::new(14, 3);
    pixmap.border_rect(0, 0, 14, 3, 1, Color::rgb(1, 2, 3), Some((4, 3)));
    let top: Vec<u8> = (0..14).map(|x| pixmap.get(x, 0)[3]).collect();
    // the right edge runs down column 13, so it closes the top row
    assert_eq!(top, vec![255, 255, 255, 255, 0, 0, 0, 255, 255, 255, 255, 0, 0, 255]);
}

#[test]
fn rect_fills_only_inside_the_canvas() {
    let mut pixmap = Pixmap::new(4, 4);
    pixmap.rect(-1, 2, 3, 5, Color::rgb(9, 8, 7));
    assert_eq!(pixmap.get(0, 2), [9, 8, 7, 255]);
    assert_eq!(pixmap.get(1, 3), [9, 8, 7, 255]);
    assert_eq!(pixmap.get(2, 2), [0, 0, 0, 0]);
    assert_eq!(pixmap.get(0, 1), [0, 0, 0, 0]);
    pixmap.rect(0, 0, -2, 2, Color::rgb(9, 8, 7));
    assert_eq!(pixmap.get(0, 0), [0, 0, 0, 0]);
}

#[test]
fn color_helpers() {
    let c = Color::rgb(1, 2, 3).with_alpha(4);
    assert_eq!(c.to_rgba8(), [1, 2, 3, 4]);
    assert_eq!(Color::transparent().to_rgba8(), [0, 0, 0, 0]);
    let mut pixmap = Pixmap::new(2, 1);
    pixmap.fill(c);
    assert_eq!(pixmap.data, vec![1, 2, 3, 4, 1, 2, 3, 4]);
    assert_eq!(pixmap.index(1, 0), 4);
}

#[test]
fn png_round_trip_has_ihdr() {
    let mut pixmap = Pixmap::new(2, 2);
    pixmap.fill(Color::rgb(0, 255, 102));
    let bytes = pixmap.to_png().unwrap();
    assert_eq!(&bytes[..8], b"\x89PNG\r\n\x1a\n");
    assert_eq!(&bytes[12..16], b"IHDR");
}

#[test]
fn a_zero_sized_pixmap_has_no_png() {
    let empty = Pixmap { width: 0, height: 1, data: Vec::new() };
    assert!(empty.to_png().unwrap_err().starts_with("PNG 头写入失败："));
}
