use liteexif::exif::{normalize_exif_dimensions, parse_exif, ExifMap};
use liteexif::image::Image;
use std::collections::HashMap;

#[test]
fn template_dimensions_follow_oriented_pixels() {
    let mut exif = ExifMap::new();
    exif.insert("ImageWidth", "6000");
    exif.insert("ImageHeight", "4000");
    let portrait = Image::new(4000, 6000);

    normalize_exif_dimensions(&mut exif, &portrait);

    assert_eq!(exif.get("ImageWidth").as_deref(), Some("4000"));
    assert_eq!(exif.get("ImageHeight").as_deref(), Some("6000"));
}

#[test]
fn upstream_exif_keys_preserve_missing_field_defaults() {
    let exif =
        parse_exif("Camera Model Name : NIKON D810\nLens : 70-200mm f/2.8\nF Number : 2.8\n");
    let mut fields = HashMap::new();
    for key in ["CameraModelName", "Lens", "FNumber", "LensModel", "AperatureValue"] {
        if let Some(value) = exif.get(key) {
            fields.insert(key.to_owned(), value);
        }
    }
    let mut context = HashMap::new();
    context.insert("exif".to_owned(), fields);
    let environment = minijinja::Environment::new();
    let rendered = environment
        .render_str(
            "{{exif.CameraModelName}}|{{exif.LensModel|default('-')}}|{{exif.AperatureValue or exif.FNumber}}",
            context,
        )
        .unwrap();
    assert_eq!(rendered, "NIKON D810|-|2.8");
    assert!(!exif.contains_key("LensModel"));
}

#[test]
fn exif_names_drop_spaces_and_slashes() {
    let exif = parse_exif("Shutter Speed / Value : 1/200\nISO:100\n");
    assert_eq!(exif.get("ShutterSpeedValue").as_deref(), Some("1/200"));
    assert_eq!(exif.get("ISO").as_deref(), Some("100"));
    assert_eq!(exif.len(), 2);
}

#[test]
fn exif_values_keep_ascii_and_later_lines_win() {
    let exif = parse_exif("Make : Ni\u{00e9}kon\r\nDate : 2026:01:10 15:56\nMake :  Canon  \nno colon here\n");
    assert_eq!(exif.get("Make").as_deref(), Some("Canon"));
    assert_eq!(exif.get("Date").as_deref(), Some("2026:01:10 15:56"));
    assert_eq!(exif.len(), 2);
    let single = parse_exif("Make : Ni\u{00e9}kon");
    assert_eq!(single.get("Make").as_deref(), Some("Nikon"));
}

#[test]
fn exif_insert_replaces_in_place() {
    let mut exif = ExifMap::new();
    exif.insert("a", "1");
    exif.insert("b", "2");
    exif.insert("a", "3");
    assert_eq!(exif.len(), 2);
    assert_eq!(exif.get("a").as_deref(), Some("3"));
    assert!(exif.get("c").is_none());
}
