use base64::Engine;
use canvas_engine::{
    op_canvas_create, op_canvas_fill_rect, op_canvas_get_image_data, op_canvas_set_fill_style,
    op_canvas_to_data_url, parse_css_color, CanvasContext, CanvasError, CanvasManager, Color,
    GeometryError,
};

const PREFIX: &str = "data:image/png;base64,";

fn rgba(r: u8, g: u8, b: u8, a: u8) -> Color {
    Color { r, g, b, a }
}

fn assert_all(bytes: &[u8], px: [u8; 4]) {
    assert_eq!(bytes.len() % 4, 0);
    for chunk in bytes.chunks(4) {
        assert_eq!(chunk, &px[..]);
    }
}

fn fresh() -> (CanvasManager, u32) {
    let mut m = CanvasManager::new();
    let id = op_canvas_create(&mut m).unwrap();
    (m, id)
}

#[test]
fn default_black_fill_and_untouched_area() {
    let (mut m, id) = fresh();
    let c = m.get(id).unwrap();
    assert_eq!((c.width(), c.height()), (300, 150));
    op_canvas_fill_rect(&mut m, id, 0, 0, 100, 100).unwrap();
    let inside = op_canvas_get_image_data(&m, id, 0, 0, 100, 100).unwrap();
    assert_eq!(inside.len(), 100 * 100 * 4);
    assert_all(&inside, [0, 0, 0, 255]);
    let outside = op_canvas_get_image_data(&m, id, 150, 0, 10, 10).unwrap();
    assert_eq!(outside.len(), 400);
    assert_all(&outside, [0, 0, 0, 0]);
}

#[test]
fn hex_red_fill_reads_back() {
    let (mut m, id) = fresh();
    op_canvas_set_fill_style(&mut m, id, "#ff0000").unwrap();
    op_canvas_fill_rect(&mut m, id, 0, 0, 10, 10).unwrap();
    let v = op_canvas_get_image_data(&m, id, 0, 0, 10, 10).unwrap();
    assert_eq!(v.len(), 400);
    assert_all(&v, [255, 0, 0, 255]);
}

#[test]
fn half_alpha_red_reads_straight() {
    let (mut m, id) = fresh();
    op_canvas_set_fill_style(&mut m, id, "rgba(255,0,0,0.5)").unwrap();
    op_canvas_fill_rect(&mut m, id, 0, 0, 10, 10).unwrap();
    let stored = &m.get(id).unwrap().data()[0..4];
    assert_eq!(stored, &[128, 0, 0, 128]);
    let v = op_canvas_get_image_data(&m, id, 0, 0, 10, 10).unwrap();
    assert_all(&v, [255, 0, 0, 128]);
}

#[test]
fn fresh_surface_exports_data_url() {
    let (m, id) = fresh();
    let url = op_canvas_to_data_url(&m, id).unwrap();
    assert!(url.starts_with(PREFIX));
    let payload = &url[PREFIX.len()..];
    assert!(!payload.is_empty());
    assert_eq!(payload.len() % 4, 0);
    let png = base64::engine::general_purpose::STANDARD.decode(payload).unwrap();
    assert_eq!(&png[0..8], &[0x89, b'P', b'N', b'G', 0x0d, 0x0a, 0x1a, 0x0a]);
}

#[test]
fn exported_png_holds_the_pixels() {
    let (mut m, id) = fresh();
    op_canvas_set_fill_style(&mut m, id, "#ff0000").unwrap();
    op_canvas_fill_rect(&mut m, id, 0, 0, 10, 10).unwrap();
    let url = op_canvas_to_data_url(&m, id).unwrap();
    let png = base64::engine::general_purpose::STANDARD
        .decode(&url[PREFIX.len()..])
        .unwrap();
    let pixmap = tiny_skia::Pixmap::decode_png(&png).unwrap();
    assert_eq!((pixmap.width(), pixmap.height()), (300, 150));
    assert_eq!(&pixmap.data()[0..4], &[255, 0, 0, 255]);
    let far = (149 * 300 + 299) * 4;
    assert_eq!(&pixmap.data()[far..far + 4], &[0, 0, 0, 0]);
}

#[test]
fn opaque_colors_round_trip_exactly() {
    for text in ["#123456", "rgb(7, 200, 99)", "#fefefe", "#010203"] {
        let (mut m, id) = fresh();
        op_canvas_set_fill_style(&mut m, id, text).unwrap();
        let c = parse_css_color(text);
        assert_eq!(c.a, 255);
        op_canvas_fill_rect(&mut m, id, 3, 4, 5, 6).unwrap();
        let v = op_canvas_get_image_data(&m, id, 3, 4, 5, 6).unwrap();
        assert_all(&v, [c.r, c.g, c.b, 255]);
    }
}

#[test]
fn zero_alpha_reads_transparent() {
    let (mut m, id) = fresh();
    op_canvas_set_fill_style(&mut m, id, "rgba(200,100,50,0)").unwrap();
    op_canvas_fill_rect(&mut m, id, 0, 0, 4, 4).unwrap();
    let v = op_canvas_get_image_data(&m, id, 0, 0, 4, 4).unwrap();
    assert_all(&v, [0, 0, 0, 0]);
}

#[test]
fn out_of_bounds_samples_are_transparent() {
    let (mut m, id) = fresh();
    op_canvas_fill_rect(&mut m, id, 0, 0, 300, 150).unwrap();
    let v = op_canvas_get_image_data(&m, id, -2, -1, 4, 2).unwrap();
    assert_eq!(v.len(), 32);
    // row -1 is off the surface, row 0 has two columns off and two on
    assert_all(&v[0..16], [0, 0, 0, 0]);
    assert_all(&v[16..24], [0, 0, 0, 0]);
    assert_all(&v[24..32], [0, 0, 0, 255]);
    let corner = op_canvas_get_image_data(&m, id, 298, 148, 4, 4).unwrap();
    assert_eq!(&corner[0..4], &[0, 0, 0, 255]);
    assert_eq!(&corner[8..12], &[0, 0, 0, 0]);
    assert_all(&corner[32..64], [0, 0, 0, 0]);
}

#[test]
fn canonical_hex_decodes_bytes() {
    assert_eq!(parse_css_color("#1a2b3c"), rgba(0x1a, 0x2b, 0x3c, 255));
    assert_eq!(parse_css_color("#000000"), rgba(0, 0, 0, 255));
    assert_eq!(parse_css_color("#ffffff"), rgba(255, 255, 255, 255));
    assert_eq!(parse_css_color("#FF8000"), rgba(255, 128, 0, 255));
    assert_eq!(parse_css_color(" # a b c d e f"), rgba(0xab, 0xcd, 0xef, 255));
    assert_eq!(parse_css_color("#ff0000zz"), rgba(255, 0, 0, 255));
}

#[test]
fn unparseable_text_is_black() {
    let black = rgba(0, 0, 0, 255);
    assert_eq!(parse_css_color("banana"), black);
    assert_eq!(parse_css_color(""), black);
    assert_eq!(parse_css_color("#12"), black);
    assert_eq!(parse_css_color("#12345g"), black);
    assert_eq!(parse_css_color("rgb(1,2)"), black);
    assert_eq!(parse_css_color("hsl(0,0%,0%)"), black);
}

#[test]
fn rgb_forms_are_premultiplied() {
    assert_eq!(parse_css_color("rgb(10, 20, 30)"), rgba(10, 20, 30, 255));
    assert_eq!(parse_css_color(" RGBA(255, 0, 0, 0.5) "), rgba(128, 0, 0, 128));
    assert_eq!(parse_css_color("rgba(100,200,50,0.25)"), rgba(25, 50, 13, 64));
    assert_eq!(parse_css_color("rgba(255,255,255,1)"), rgba(255, 255, 255, 255));
    assert_eq!(parse_css_color("rgba(255,255,255,0)"), rgba(0, 0, 0, 0));
}

#[test]
fn rgb_fields_degrade_leniently() {
    assert_eq!(parse_css_color("rgb(x,2,3)"), rgba(0, 2, 3, 255));
    assert_eq!(parse_css_color("rgba(1,2,3,abc)"), rgba(1, 2, 3, 255));
    assert_eq!(parse_css_color("rgb(300,0,0)"), rgba(255, 0, 0, 255));
    assert_eq!(parse_css_color("rgb(10.5,10.4,.6)"), rgba(11, 10, 1, 255));
    assert_eq!(parse_css_color("rgb(1,2,3,0.5,9)"), rgba(1, 2, 3, 255));
    assert_eq!(parse_css_color("rgba(255,0,0,2.5)"), rgba(255, 0, 0, 255));
}

#[test]
fn sequential_creates_give_increasing_ids() {
    let mut m = CanvasManager::new();
    let mut ids = Vec::new();
    for _ in 0..5 {
        ids.push(op_canvas_create(&mut m).unwrap());
    }
    assert_eq!(ids, vec![0, 1, 2, 3, 4]);
    assert_eq!(m.next_id(), 5);
}

#[test]
fn missing_surface_is_not_found() {
    let (mut m, _) = fresh();
    let nf = CanvasError::NotFound { id: 7 };
    assert_eq!(op_canvas_fill_rect(&mut m, 7, 0, 0, 1, 1), Err(nf));
    assert_eq!(op_canvas_set_fill_style(&mut m, 7, "#ffffff"), Err(nf));
    assert_eq!(op_canvas_get_image_data(&m, 7, 0, 0, 1, 1), Err(nf));
    assert_eq!(op_canvas_to_data_url(&m, 7), Err(nf));
}

#[test]
fn bad_sizes_are_rejected() {
    assert!(matches!(
        CanvasContext::new(0, 10),
        Err(GeometryError::InvalidGeometry { width: 0, height: 10 })
    ));
    assert!(matches!(
        CanvasContext::new(10, 0),
        Err(GeometryError::InvalidGeometry { width: 10, height: 0 })
    ));
    assert!(matches!(
        CanvasContext::new(u32::MAX, u32::MAX),
        Err(GeometryError::InvalidGeometry { .. })
    ));
    let c = CanvasContext::new(2, 3).unwrap();
    assert_eq!(c.data().len(), 24);
    assert!(c.data().iter().all(|b| *b == 0));
    assert_eq!(c.paint(), rgba(0, 0, 0, 255));
}

#[test]
fn translucent_fills_composite_source_over() {
    let (mut m, id) = fresh();
    op_canvas_set_fill_style(&mut m, id, "rgba(0,0,255,0.5)").unwrap();
    op_canvas_fill_rect(&mut m, id, 0, 0, 2, 2).unwrap();
    op_canvas_fill_rect(&mut m, id, 0, 0, 2, 2).unwrap();
    assert_eq!(&m.get(id).unwrap().data()[0..4], &[0, 0, 192, 192]);
    let v = op_canvas_get_image_data(&m, id, 0, 0, 1, 1).unwrap();
    assert_eq!(v, vec![0, 0, 255, 192]);
}

#[test]
fn degenerate_and_clipped_fills() {
    let (mut m, id) = fresh();
    op_canvas_fill_rect(&mut m, id, 5, 5, 0, 10).unwrap();
    op_canvas_fill_rect(&mut m, id, 5, 5, -3, 10).unwrap();
    assert!(m.get(id).unwrap().data().iter().all(|b| *b == 0));
    op_canvas_fill_rect(&mut m, id, 295, 145, 100, 100).unwrap();
    let v = op_canvas_get_image_data(&m, id, 294, 144, 6, 6).unwrap();
    assert_eq!(&v[0..4], &[0, 0, 0, 0]);
    assert_eq!(&v[(7 * 4)..(7 * 4 + 4)], &[0, 0, 0, 255]);
}

#[test]
fn empty_regions_read_nothing() {
    let (m, id) = fresh();
    assert!(op_canvas_get_image_data(&m, id, 0, 0, 0, 5).unwrap().is_empty());
    assert!(op_canvas_get_image_data(&m, id, 0, 0, -1, 5).unwrap().is_empty());
}

#[test]
fn style_does_not_touch_drawn_pixels() {
    let (mut m, id) = fresh();
    op_canvas_fill_rect(&mut m, id, 0, 0, 1, 1).unwrap();
    op_canvas_set_fill_style(&mut m, id, "#00ff00").unwrap();
    assert_eq!(op_canvas_get_image_data(&m, id, 0, 0, 1, 1).unwrap(), vec![0, 0, 0, 255]);
    assert_eq!(m.get(id).unwrap().paint(), rgba(0, 255, 0, 255));
}

#[test]
fn all_ascii_whitespace_is_stripped() {
    assert_eq!(parse_css_color("\t#ff0000"), rgba(255, 0, 0, 255));
    assert_eq!(parse_css_color("#ff0000\n"), rgba(255, 0, 0, 255));
    assert_eq!(parse_css_color("\r\nRGB(\t0 ,\x0c128 , 255 )"), parse_css_color("rgb(0,128,255)"));
    assert_eq!(parse_css_color("RGB( 0 , 128 , 255 )"), rgba(0, 128, 255, 255));
}

#[test]
fn signed_numbers_are_read() {
    assert_eq!(parse_css_color("rgb(+5,+0.6,-7)"), rgba(5, 1, 0, 255));
    assert_eq!(parse_css_color("rgba(255,255,255,+0.5)"), rgba(128, 128, 128, 128));
    assert_eq!(parse_css_color("rgba(255,255,255,-0.5)"), rgba(0, 0, 0, 0));
    assert_eq!(parse_css_color("rgb(-,2,3)"), rgba(0, 2, 3, 255));
    assert_eq!(parse_css_color("rgba(9,9,9,-)"), rgba(9, 9, 9, 255));
}

#[test]
fn exports_repeat_and_change_nothing() {
    let (mut m, id) = fresh();
    op_canvas_fill_rect(&mut m, id, 1, 1, 3, 3).unwrap();
    let before = m.get(id).unwrap().data().clone();
    let a = op_canvas_to_data_url(&m, id).unwrap();
    let b = op_canvas_to_data_url(&m, id).unwrap();
    assert_eq!(a, b);
    assert_eq!(m.get(id).unwrap().data(), &before);
    let payload = &a[PREFIX.len()..];
    let first_pad = payload.find('=').unwrap_or(payload.len());
    assert!(first_pad + 2 >= payload.len());
    let png = base64::engine::general_purpose::STANDARD.decode(payload).unwrap();
    let pixmap = tiny_skia::Pixmap::decode_png(&png).unwrap();
    assert_eq!((pixmap.width(), pixmap.height()), (300, 150));
    assert_eq!(&pixmap.data()[0..4], &[0, 0, 0, 0]);
}
