use painterly::api::{PainterlyError, RenderResult};
use painterly::brushes::noise_seed;
use painterly::buf::RgbBuf;
use painterly::pipeline::{frame_due, overview_sheet};
use painterly::strokes::Tag;

#[test]
fn noise_seed_is_fnv1a() {
    assert_eq!(noise_seed(b""), 0xcbf29ce484222325);
    assert_eq!(noise_seed(b"a"), 0xaf63dc4c8601ec8c);
    assert_eq!(noise_seed(b"foobar"), 0x85944171f73967e8);
}

#[test]
fn noise_seed_depends_on_key() {
    assert_eq!(noise_seed(b"soft_bristle"), noise_seed(b"soft_bristle"));
    assert_ne!(noise_seed(b"soft_bristle"), noise_seed(b"flat_bristle"));
}

#[test]
fn painterly_error_from_string() {
    let e: PainterlyError = String::from("boom").into();
    assert_eq!(e.message(), "boom");
    match e {
        PainterlyError::Failed { msg } => assert_eq!(msg, "boom"),
    }
}

#[test]
fn render_result_holds_fields() {
    let r = RenderResult { png: vec![1, 2], width: 3, height: 4, strokes: 5, millis: 6 };
    assert_eq!((r.png.len(), r.width, r.height, r.strokes, r.millis), (2, 3, 4, 5, 6));
}

#[test]
fn tag_compares() {
    assert_eq!(Tag::Hard, Tag::Hard);
    assert_ne!(Tag::Hard, Tag::Soft);
    let t = Tag::Standard;
    let u = t;
    assert_eq!(t, u);
}

#[test]
fn frame_due_throttles_progress() {
    // fewer than 240 strokes: every stroke
    assert!(frame_due(1, 50));
    assert!(frame_due(37, 239));
    // 1200 strokes: every 10th, and the last
    assert!(!frame_due(5, 1200));
    assert!(frame_due(10, 1200));
    assert!(frame_due(1200, 1200));
    // 1205 strokes: interval 10, the last one is not a multiple but is reported
    assert!(frame_due(1205, 1205));
    assert!(!frame_due(1204, 1205));
}

#[test]
fn overview_places_tiles_in_cells() {
    let t0 = RgbBuf::from_pixel(3, 260, [200, 0, 0]);
    let t1 = RgbBuf::from_pixel(5, 260, [0, 200, 0]);
    let sheet = overview_sheet(&vec![t0, t1]);
    assert_eq!((sheet.width, sheet.height), (4 * (5 + 12) + 12, 272 + 12));
    // tile 0 is centred in a 5 px cell: x = 12 + (5 - 3) / 2 = 13
    assert_eq!(sheet.get_pixel(12, 12), [34, 34, 34]);
    assert_eq!(sheet.get_pixel(13, 12), [200, 0, 0]);
    assert_eq!(sheet.get_pixel(15, 271), [200, 0, 0]);
    assert_eq!(sheet.get_pixel(16, 12), [34, 34, 34]);
    assert_eq!(sheet.get_pixel(13, 272), [34, 34, 34]);
    // tile 1 starts the second column: x = 12 + 17 = 29
    assert_eq!(sheet.get_pixel(29, 100), [0, 200, 0]);
    assert_eq!(sheet.get_pixel(33, 100), [0, 200, 0]);
    assert_eq!(sheet.get_pixel(34, 100), [34, 34, 34]);
    // empty cells stay grey
    assert_eq!(sheet.get_pixel(50, 100), [34, 34, 34]);
}

#[test]
fn overview_without_tiles() {
    let sheet = overview_sheet(&Vec::new());
    assert_eq!((sheet.width, sheet.height), (4 * 13 + 12, 12));
    assert!(sheet.data.chunks(3).all(|p| p == [34, 34, 34]));
}
