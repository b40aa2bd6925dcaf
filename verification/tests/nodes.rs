use liteexif::arrange::alignment;
use liteexif::color::parse_color;
use liteexif::compose::{add_margin, align_offset, concat_images, concat_checked, crop_centered, map_alpha, opaque, shadow_layer, solid_color};
use liteexif::footer::{footer_layout, FooterInput};
use liteexif::image::Image;
use liteexif::json::{value_bool, value_i64, value_string, Json, JsonNumber};
use liteexif::nodes::{
    concat_node, crop_node, image_paths, margin_node, processor_kind, resize_dimension, blur_node_radius, shadow_node_settings,
    rounded_corner_node, solid_color_node, trim_node, Processor,
};

fn text(s: &str) -> Json {
    Json::Str { text: s.to_owned(), as_array: None }
}

fn num(v: i64) -> Json {
    Json::Number(JsonNumber { as_i64: Some(v), as_u64: if v >= 0 { Some(v as u64) } else { None }, truncated: v })
}

fn object(members: Vec<(&str, Json)>) -> Json {
    Json::Object(members.into_iter().map(|(k, v)| (k.to_owned(), v)).collect())
}

fn array(items: Vec<Json>) -> Json {
    Json::Array(items)
}

#[test]
fn colors_read_every_template_spelling() {
    let default = [1, 2, 3, 4];
    assert_eq!(parse_color(&array(vec![num(10), num(20), num(30)]), default), [10, 20, 30, 255]);
    assert_eq!(parse_color(&array(vec![num(10), num(20), num(30), num(40)]), default), [10, 20, 30, 40]);
    assert_eq!(parse_color(&array(vec![num(300), text("x")]), default), [44, 0, 0, 0]);
    assert_eq!(parse_color(&text("(255, 0, 0)"), default), [255, 0, 0, 255]);
    assert_eq!(parse_color(&text(" 1,2 ,3, 4 "), default), [1, 2, 3, 4]);
    assert_eq!(parse_color(&text("#ff8000"), default), [255, 128, 0, 255]);
    assert_eq!(parse_color(&text("#FF800080"), default), [255, 128, 0, 128]);
    assert_eq!(parse_color(&text("White"), default), [255, 255, 255, 255]);
    assert_eq!(parse_color(&text("green"), default), [0, 128, 0, 255]);
    assert_eq!(parse_color(&text("transparent"), default), [0, 0, 0, 0]);
    assert_eq!(parse_color(&text("#12345"), default), default);
    assert_eq!(parse_color(&text("1,2"), default), default);
    assert_eq!(parse_color(&text("1,2,300"), default), default);
    assert_eq!(parse_color(&Json::Null, default), default);
}

#[test]
fn node_readers_use_defaults() {
    let node = object(vec![
        ("a", num(5)),
        ("b", text("12")),
        ("c", text("x")),
        ("d", Json::Number(JsonNumber { as_i64: None, as_u64: None, truncated: 7 })),
        ("f", Json::Bool(true)),
        ("g", text("TRUE")),
        ("h", text("no")),
    ]);
    assert_eq!(value_i64(&node, "a", 0), 5);
    assert_eq!(value_i64(&node, "b", 0), 12);
    assert_eq!(value_i64(&node, "c", 9), 9);
    assert_eq!(value_i64(&node, "d", 0), 7);
    assert_eq!(value_i64(&node, "missing", -1), -1);
    assert!(value_bool(&node, "f", false));
    assert!(value_bool(&node, "g", false));
    assert!(!value_bool(&node, "h", true));
    assert!(value_bool(&node, "missing", true));
    assert_eq!(value_string(&node, "b", "z"), "12");
    assert_eq!(value_string(&node, "a", "z"), "z");
}

#[test]
fn processor_names_and_errors() {
    assert_eq!(processor_kind(&object(vec![("processor_name", text("concat"))])), Ok(Processor::Concat));
    assert_eq!(
        processor_kind(&object(vec![("processor_name", text("watermark_with_timestamp"))])),
        Ok(Processor::WatermarkWithTimestamp)
    );
    assert_eq!(
        processor_kind(&object(vec![("processor_name", text("sparkle"))])),
        Err("未知处理器: sparkle".to_owned())
    );
    assert_eq!(processor_kind(&object(vec![])), Err("处理器名称缺失".to_owned()));
    assert_eq!(processor_kind(&object(vec![("processor_name", num(1))])), Err("处理器名称缺失".to_owned()));
}

#[test]
fn solid_color_has_at_least_one_pixel() {
    let node = object(vec![("width", num(3)), ("height", num(-5)), ("color", text("red"))]);
    let image = solid_color_node(&node).unwrap();
    assert_eq!((image.width, image.height), (3, 1));
    assert_eq!(image.get_pixel(2, 0), [255, 0, 0, 255]);
    let plain = solid_color(0, 2, [1, 1, 1, 1]);
    assert_eq!((plain.width, plain.height), (1, 2));
}

#[test]
fn margins_frame_the_image() {
    let image = Image::from_pixel(2, 2, [0, 0, 0, 255]);
    let framed = add_margin(&image, 1, 2, 0, 1, [9, 9, 9, 9]);
    assert_eq!((framed.width, framed.height), (5, 3));
    assert_eq!(framed.get_pixel(0, 0), [9, 9, 9, 9]);
    assert_eq!(framed.get_pixel(1, 0), [0, 0, 0, 255]);
    assert_eq!(framed.get_pixel(2, 2), [9, 9, 9, 9]);
    let node = object(vec![("left_margin", num(-1)), ("bottom_margin", num(2))]);
    let out = margin_node(&node, &vec![Image::from_pixel(3, 1, [5, 5, 5, 5])]).unwrap();
    assert_eq!((out[0].width, out[0].height), (2, 3));
    assert_eq!(out[0].get_pixel(0, 0), [5, 5, 5, 5]);
    assert_eq!(out[0].get_pixel(0, 2), [255, 255, 255, 255]);
}

#[test]
fn centred_crop_moves_by_offset_and_stays_inside() {
    let mut image = Image::new(6, 4);
    image.put_pixel(0, 0, [1, 0, 0, 255]);
    image.put_pixel(5, 3, [2, 0, 0, 255]);
    let middle = crop_centered(&image, 2, 2, 0, 0);
    assert_eq!((middle.width, middle.height), (2, 2));
    let left = crop_centered(&image, 2, 2, -10, -10);
    assert_eq!(left.get_pixel(0, 0), [1, 0, 0, 255]);
    let right = crop_centered(&image, 2, 2, 10, 10);
    assert_eq!(right.get_pixel(1, 1), [2, 0, 0, 255]);
    let node = object(vec![("width", num(8)), ("offset", array(vec![num(1)]))]);
    let out = crop_node(&node, &vec![image]).unwrap();
    assert_eq!((out[0].width, out[0].height), (8, 4));
    assert_eq!(out[0].get_pixel(7, 0), [0, 0, 0, 0]);
}

#[test]
fn concat_lays_out_with_spacing_and_alignment() {
    let a = Image::from_pixel(2, 3, [1, 1, 1, 255]);
    let b = Image::from_pixel(1, 1, [2, 2, 2, 255]);
    let out = concat_images(&vec![a, b], "horizontal", "bottom", 1, [0, 0, 0, 0]);
    assert_eq!((out.width, out.height), (4, 3));
    assert_eq!(out.get_pixel(3, 2), [2, 2, 2, 255]);
    assert_eq!(out.get_pixel(3, 0), [0, 0, 0, 0]);
    assert_eq!(out.get_pixel(2, 2), [0, 0, 0, 0]);
    let empty = concat_images(&Vec::new(), "vertical", "center", 5, [9, 9, 9, 9]);
    assert_eq!((empty.width, empty.height), (1, 1));
    assert_eq!(empty.get_pixel(0, 0), [0, 0, 0, 0]);
    let c = Image::from_pixel(3, 1, [3, 3, 3, 255]);
    let d = Image::from_pixel(1, 2, [4, 4, 4, 255]);
    let vertical = concat_checked(&vec![c, d], "vertical", "center", -4, [0, 0, 0, 0]).unwrap();
    assert_eq!((vertical.width, vertical.height), (3, 3));
    let node = object(vec![("direction", text("vertical")), ("spacing", num(0))]);
    let stacked = concat_node(&node, &vec![Image::new(2, 1), Image::new(2, 1)]).unwrap();
    assert_eq!((stacked.width, stacked.height), (2, 2));
}

#[test]
fn alignment_orders_by_weight_and_centres() {
    let big = Image::from_pixel(4, 4, [1, 1, 1, 255]);
    let small = Image::from_pixel(2, 2, [2, 2, 2, 255]);
    let node = object(vec![("weights", array(vec![num(5), num(1)]))]);
    let out = alignment(vec![big, small], &node).unwrap();
    assert_eq!((out.width, out.height), (4, 4));
    // The small image has the lower weight, so the big one is pasted over it.
    assert_eq!(out.get_pixel(1, 1), [1, 1, 1, 255]);
    let big = Image::from_pixel(4, 4, [1, 1, 1, 255]);
    let small = Image::from_pixel(2, 2, [2, 2, 2, 255]);
    let node = object(vec![("offsets", array(vec![array(vec![]), array(vec![num(1), num(-1)])]))]);
    let out = alignment(vec![big, small], &node).unwrap();
    assert_eq!(out.get_pixel(0, 2), [2, 2, 2, 255]);
    assert_eq!(out.get_pixel(2, 1), [1, 1, 1, 255]);
    let none = alignment(Vec::new(), &node).unwrap();
    assert_eq!((none.width, none.height), (1, 1));
}

#[test]
fn align_offset_modes() {
    assert_eq!(align_offset(2, 7, "center"), 2);
    assert_eq!(align_offset(2, 7, "middle"), 2);
    assert_eq!(align_offset(2, 7, "bottom"), 5);
    assert_eq!(align_offset(2, 7, "right"), 5);
    assert_eq!(align_offset(2, 7, "end"), 5);
    assert_eq!(align_offset(2, 7, "top"), 0);
}

#[test]
fn trim_and_round_nodes_apply_to_every_input() {
    let mut a = Image::from_pixel(5, 5, [255, 255, 255, 255]);
    a.put_pixel(2, 2, [0, 0, 0, 255]);
    let node = object(vec![("trim_top", Json::Bool(false))]);
    let out = trim_node(&node, &vec![a]).unwrap();
    assert_eq!((out[0].width, out[0].height), (1, 3));
    assert!(trim_node(&node, &vec![Image::new(0, 3)]).is_none());
    let node = object(vec![("border_radius", num(0))]);
    let out = rounded_corner_node(&node, &vec![Image::from_pixel(3, 3, [1, 1, 1, 1])]).unwrap();
    assert_eq!(out[0].get_pixel(0, 0), [1, 1, 1, 255]);
}

#[test]
fn image_node_paths() {
    let one = object(vec![("path", text("a.png"))]);
    assert_eq!(image_paths(&one), vec!["a.png".to_owned()]);
    let many = object(vec![("path", array(vec![text("a.png"), num(3), text("b.png")]))]);
    assert_eq!(image_paths(&many), vec!["a.png".to_owned(), "b.png".to_owned()]);
    assert!(image_paths(&object(vec![])).is_empty());
}

#[test]
fn shadow_layer_and_alpha_maps() {
    let mut image = Image::new(2, 1);
    image.put_pixel(0, 0, [9, 9, 9, 100]);
    let layer = shadow_layer(&image, 1, [0, 0, 0, 180]);
    assert_eq!((layer.width, layer.height), (6, 5));
    assert_eq!(layer.get_pixel(2, 2), [0, 0, 0, 100]);
    assert_eq!(layer.get_pixel(3, 2), [0, 0, 0, 0]);
    assert_eq!(layer.get_pixel(0, 0), [0, 0, 0, 0]);
    let solid = opaque(&image);
    assert_eq!(solid.get_pixel(1, 0), [0, 0, 0, 255]);
    let table: Vec<u8> = (0..=255u8).map(|a| 255 - a).collect();
    let flipped = map_alpha(&image, &table);
    assert_eq!(flipped.get_pixel(0, 0), [9, 9, 9, 155]);
}

#[test]
fn footer_texts_sit_in_the_bottom_margin() {
    let layout = footer_layout(&FooterInput {
        width: 1000,
        height: 800,
        footer_y: 700,
        left_margin: 10,
        right_margin: 20,
        bottom_margin: 100,
        left_logo_width: 50,
        common_spacing: 20,
        middle_spacing: 5,
        delimiter_width: 3,
        parts: [(200, 30), (150, 20), (100, 25), (120, 25)],
        align_left: false,
    });
    assert_eq!(layout.elem_height, 55);
    assert_eq!(layout.elem_margin, 22);
    assert_eq!(layout.positions[0], (80, 723));
    assert_eq!(layout.positions[1], (80, 758));
    assert_eq!(layout.positions[2], (860, 728));
    assert_eq!(layout.positions[3], (840, 753));
    assert_eq!(layout.delimiter_x, 817);
    assert_eq!(layout.logo_at, (742, 722));
}

#[test]
fn footer_right_texts_can_share_their_left_edge() {
    let layout = footer_layout(&FooterInput {
        width: 400,
        height: 300,
        footer_y: 250,
        left_margin: 0,
        right_margin: 0,
        bottom_margin: 50,
        left_logo_width: 0,
        common_spacing: 8,
        middle_spacing: 2,
        delimiter_width: 1,
        parts: [(10, 10), (10, 10), (40, 10), (60, 10)],
        align_left: true,
    });
    assert_eq!(layout.positions[2].0, 332);
    assert_eq!(layout.positions[3].0, 332);
    assert_eq!(layout.elem_margin, (50 - 22) / 2);
}

#[test]
fn resize_sizes_are_read_when_present_and_positive() {
    let node = object(vec![
        ("width", num(640)),
        ("height", num(0)),
        ("depth", text("12")),
        ("wrap", num(4294967297)),
    ]);
    assert_eq!(resize_dimension(&node, "width"), Some(640));
    assert_eq!(resize_dimension(&node, "height"), None);
    assert_eq!(resize_dimension(&node, "missing"), None);
    assert_eq!(resize_dimension(&node, "depth"), Some(12));
    assert_eq!(resize_dimension(&node, "wrap"), Some(1));
}

#[test]
fn blur_and_shadow_defaults() {
    let empty = object(vec![]);
    assert_eq!(blur_node_radius(&empty), 5);
    assert_eq!(shadow_node_settings(&empty), (30, [0, 0, 0, 180]));
    let set = object(vec![("blur_radius", num(12)), ("shadow_radius", num(7))]);
    assert_eq!(blur_node_radius(&set), 12);
    assert_eq!(shadow_node_settings(&set).0, 7);
}
