use bmfont_parser::sfl_parser::load;
use bmfont_parser::{Field, LoadError};

#[test]
fn base_is_line_height_less_least_yoffset() {
    let font = load("F 10 20 f.png 3\n1 0 0 1 1 0 5 1\n2 0 0 1 1 0 3 1\n3 0 0 1 1 0 7 1\n0").unwrap();
    assert_eq!(font.base, 17);
    assert_eq!(font.base + 3, font.line_height);
    assert_eq!(font.chars[&1].yoffset, 2);
    assert_eq!(font.chars[&2].yoffset, 0);
    assert_eq!(font.chars[&3].yoffset, 4);
}

#[test]
fn negative_yoffsets_raise_the_base() {
    let font = load("F 10 20 f.png 2\n1 0 0 1 1 -1 -4 -2\n2 0 0 1 1 0 6 1\n0").unwrap();
    assert_eq!(font.base, 24);
    assert_eq!(font.chars[&1].yoffset, 0);
    assert_eq!(font.chars[&1].xoffset, -1);
    assert_eq!(font.chars[&1].xadvance, -2);
    assert_eq!(font.chars[&2].yoffset, 10);
}

#[test]
fn no_characters_gives_base_line_height() {
    let font = load("Empty 12 15 e.png 0 0").unwrap();
    assert!(font.chars.is_empty());
    assert_eq!(font.base, 15);
    assert_eq!(font.line_height, 15);
    assert_eq!(font.pages.len(), 1);
    assert!(font.info_details.is_none());
    assert!(font.common_details.is_none());
}

#[test]
fn sfl_characters_sit_on_page_zero_channel_fifteen() {
    let font = load("F 1 2 f.png 1 9 1 2 3 4 5 0 6 0").unwrap();
    let c = font.chars[&9];
    assert_eq!((c.x, c.y, c.width, c.height), (1, 2, 3, 4));
    assert_eq!((c.page, c.channel), (0, 15));
}

#[test]
fn later_record_of_an_id_wins() {
    let font = load("F 1 20 f.png 2\n7 1 1 1 1 0 0 1\n7 2 2 2 2 0 3 2\n0").unwrap();
    assert_eq!(font.chars.len(), 1);
    assert_eq!(font.chars[&7].x, 2);
    assert_eq!(font.chars[&7].yoffset, 0);
    assert_eq!(font.base, 17);
}

#[test]
fn sfl_trailing_garbage_is_refused() {
    assert_eq!(load("F 1 2 f.png 0 0 junk").unwrap_err(), LoadError::TrailingContent);
    assert!(load("F 1 2 f.png 0 0 \n\t ").is_ok());
}

#[test]
fn missing_font_name() {
    assert_eq!(load("   ").unwrap_err(), LoadError::MissingFontName);
}

#[test]
fn malformed_header_values() {
    assert_eq!(load("F x").unwrap_err(), LoadError::HeaderValue { field: Field::Size });
    assert_eq!(load("F 1 -2").unwrap_err(), LoadError::HeaderValue { field: Field::LineHeight });
    assert_eq!(load("F 1 2 ").unwrap_err(), LoadError::HeaderValue { field: Field::ImageFile });
    assert_eq!(load("F 1 2 f.png n").unwrap_err(), LoadError::HeaderValue { field: Field::CharCount });
    assert_eq!(load("F 1 2 f.png 0").unwrap_err(), LoadError::HeaderValue { field: Field::EndMarker });
}

#[test]
fn too_few_records() {
    assert_eq!(
        load("F 1 2 f.png 2\n1 0 0 1 1 0 0 1\n").unwrap_err(),
        LoadError::CharCountMismatch { declared: 2, found: 1 }
    );
    assert_eq!(
        load("F 1 2 f.png 1\n1 0 0").unwrap_err(),
        LoadError::CharCountMismatch { declared: 1, found: 0 }
    );
}

#[test]
fn malformed_record_fields() {
    assert_eq!(
        load("F 1 2 f.png 2\n1 0 0 1 1 0 0 1\nx").unwrap_err(),
        LoadError::CharField { field: Field::Id, char_index: 1 }
    );
    assert_eq!(
        load("F 1 2 f.png 1\n40 0 -3 1 1 0 0 1\n0").unwrap_err(),
        LoadError::CharField { field: Field::Y, char_index: 40 }
    );
}

#[test]
fn base_below_zero_is_refused() {
    assert_eq!(
        load("F 1 2 f.png 1\n1 0 0 1 1 0 5 1\n0").unwrap_err(),
        LoadError::OffsetOutOfRange
    );
}

#[test]
fn normalised_yoffset_beyond_i32_is_refused() {
    assert_eq!(
        load("F 1 2 f.png 2\n1 0 0 1 1 0 -2 1\n2 0 0 1 1 0 2147483647 1\n0").unwrap_err(),
        LoadError::OffsetOutOfRange
    );
}

#[test]
fn sfl_parse_is_deterministic() {
    let text = "F 10 20 f.png 2\n1 0 0 1 1 0 5 1\n2 3 4 5 6 -1 3 9\n0";
    let a = load(text).unwrap();
    let b = load(text).unwrap();
    assert_eq!(a.chars, b.chars);
    assert_eq!((a.base, a.line_height, a.size), (b.base, b.line_height, b.size));
    assert_eq!(a.font_name, b.font_name);
    assert_eq!(a.pages[0].image_path, b.pages[0].image_path);
}
