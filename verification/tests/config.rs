use liteexif::fonts::{load_font, pick_font, FontLookup};
use liteexif::ini::IniConfig;

#[test]
fn font_paths_accept_python_template_prefix() {
    let root = ".";
    let font = load_font(root, Some("fonts/AlibabaPuHuiTi-2-85-Bold.otf"));
    assert!(font.is_ok());
}

#[test]
fn font_request_resolves_inside_the_bundled_fonts() {
    match load_font("root", Some("fonts/AlibabaPuHuiTi-2-85-Bold.otf")).unwrap() {
        FontLookup::Requested(path) => {
            let normalized = path.replace('\\', "/");
            assert_eq!(normalized, "root/config/fonts/AlibabaPuHuiTi-2-85-Bold.otf");
        }
        FontLookup::Defaults(_) => panic!("a named font is looked up by itself"),
    }
    match load_font("root", Some("Roboto.ttf")).unwrap() {
        FontLookup::Requested(path) => {
            assert_eq!(path.replace('\\', "/"), "root/config/fonts/Roboto.ttf");
        }
        FontLookup::Defaults(_) => panic!("a named font is looked up by itself"),
    }
}

#[test]
fn no_font_request_falls_back_to_defaults() {
    for requested in [None, Some("")] {
        match load_font("root", requested).unwrap() {
            FontLookup::Defaults(list) => {
                assert_eq!(list.len(), 2);
                assert_eq!(
                    list[0].replace('\\', "/"),
                    "root/config/fonts/AlibabaPuHuiTi-2-45-Light.otf"
                );
                assert_eq!(list[1], "C:/Windows/Fonts/arial.ttf");
            }
            FontLookup::Requested(_) => panic!("no request means the defaults"),
        }
    }
}

#[test]
fn picking_a_font_takes_the_first_existing_file() {
    let defaults = FontLookup::Defaults(vec!["a".to_owned(), "b".to_owned()]);
    assert_eq!(pick_font(&defaults, &vec![false, true]), Some("b".to_owned()));
    assert_eq!(pick_font(&defaults, &vec![true, true]), Some("a".to_owned()));
    assert_eq!(pick_font(&defaults, &vec![false, false]), None);
    let requested = FontLookup::Requested("x".to_owned());
    assert_eq!(pick_font(&requested, &vec![true]), Some("x".to_owned()));
    assert_eq!(pick_font(&requested, &vec![false]), None);
}

const SAMPLE: &str = "# LiteExif\n[DEFAULT]\nhost = 127.0.0.1\nport=5000\n; comment\n  quality =  95  \noverride_existed = Yes\nbroken line\n\n[render]\ntemplate_name = 标准水印\r\n";

#[test]
fn ini_reads_sections_keys_and_values() {
    let config = IniConfig::parse(SAMPLE);
    assert_eq!(config.get("DEFAULT", "host").unwrap(), "127.0.0.1");
    assert_eq!(config.get("DEFAULT", "port").unwrap(), "5000");
    assert_eq!(config.get("DEFAULT", "quality").unwrap(), "95");
    assert_eq!(config.get("render", "template_name").unwrap(), "标准水印");
    assert_eq!(config.get_i64("DEFAULT", "quality").unwrap(), 95);
    assert!(config.get_bool("DEFAULT", "override_existed").unwrap());
}

#[test]
fn ini_missing_value_names_section_and_key() {
    let config = IniConfig::parse(SAMPLE);
    assert_eq!(
        config.get("DEFAULT", "missing").unwrap_err(),
        "配置项不存在: DEFAULT.missing"
    );
    assert_eq!(
        config.get("nowhere", "host").unwrap_err(),
        "配置项不存在: nowhere.host"
    );
    assert_eq!(
        config.get_bool("render", "x").unwrap_err(),
        "配置项不存在: render.x"
    );
}

#[test]
fn ini_integer_errors_are_rust_parse_messages() {
    let mut config = IniConfig::new();
    config.set("DEFAULT", "a", "12x");
    config.set("DEFAULT", "b", "");
    config.set("DEFAULT", "c", "99999999999999999999");
    config.set("DEFAULT", "d", "-99999999999999999999");
    config.set("DEFAULT", "e", "-42");
    assert_eq!(config.get_i64("DEFAULT", "a").unwrap_err(), "invalid digit found in string");
    assert_eq!(config.get_i64("DEFAULT", "b").unwrap_err(), "cannot parse integer from empty string");
    assert_eq!(config.get_i64("DEFAULT", "c").unwrap_err(), "number too large to fit in target type");
    assert_eq!(config.get_i64("DEFAULT", "d").unwrap_err(), "number too small to fit in target type");
    assert_eq!(config.get_i64("DEFAULT", "e").unwrap(), -42);
}

#[test]
fn ini_booleans_accept_four_spellings() {
    let mut config = IniConfig::new();
    for (key, value) in [("a", "TRUE"), ("b", "1"), ("c", "yes"), ("d", "On"), ("e", "no"), ("f", "2")] {
        config.set("s", key, value);
    }
    for key in ["a", "b", "c", "d"] {
        assert!(config.get_bool("s", key).unwrap(), "{key}");
    }
    for key in ["e", "f"] {
        assert!(!config.get_bool("s", key).unwrap(), "{key}");
    }
}

#[test]
fn ini_set_then_get_reads_the_new_value() {
    let mut config = IniConfig::parse(SAMPLE);
    config.set("DEFAULT", "quality", "80");
    config.set("render", "template_name", "背景模糊");
    config.set("extra", "k", "v");
    assert_eq!(config.get("DEFAULT", "quality").unwrap(), "80");
    assert_eq!(config.get("render", "template_name").unwrap(), "背景模糊");
    assert_eq!(config.get("extra", "k").unwrap(), "v");
    assert_eq!(config.get("DEFAULT", "host").unwrap(), "127.0.0.1");
}

#[test]
fn ini_later_lines_overwrite_earlier_ones() {
    let config = IniConfig::parse("a = 1\n[x]\nb = 2\n[DEFAULT]\na = 3\n");
    assert_eq!(config.get("DEFAULT", "a").unwrap(), "3");
    assert_eq!(config.get("x", "b").unwrap(), "2");
}

#[test]
fn ini_writes_ordered_keys_first() {
    let mut config = IniConfig::new();
    config.set("render", "zeta", "1");
    config.set("render", "template_name", "t");
    config.set("DEFAULT", "custom", "c");
    config.set("DEFAULT", "quality", "90");
    config.set("DEFAULT", "host", "h");
    config.set("other", "k", "v");
    assert_eq!(
        config.serialize(),
        "[DEFAULT]\nhost = h\nquality = 90\ncustom = c\n\n[render]\ntemplate_name = t\nzeta = 1\n\n"
    );
}

#[test]
fn ini_written_text_reads_back_the_same_values() {
    let config = IniConfig::parse(SAMPLE);
    let text = config.serialize();
    let again = IniConfig::parse(&text);
    for key in ["host", "port", "quality", "override_existed"] {
        assert_eq!(again.get("DEFAULT", key), config.get("DEFAULT", key), "{key}");
    }
    assert_eq!(again.get("render", "template_name").unwrap(), "标准水印");
    assert_eq!(again.serialize(), text);
}

#[test]
fn deeper_font_requests_stay_under_the_bundled_fonts() {
    match load_font("root", Some("sub/Roboto.ttf")).unwrap() {
        FontLookup::Requested(path) => {
            assert_eq!(path.replace('\\', "/"), "root/config/fonts/sub/Roboto.ttf");
        }
        FontLookup::Defaults(_) => panic!("a named font is looked up by itself"),
    }
}
