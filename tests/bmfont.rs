use bmfont_parser::bmfont_parser::load;
use bmfont_parser::{BMFont, Block, Field, Format, LoadError};

const HEAD: &str = "info face=\"Test Face\" size=16 bold=1 italic=0 charset=\"ANSI\" unicode=1 stretchH=100 smooth=1 aa=2 padding=1,2,3,4 spacing=5,6 outline=7\n\
common lineHeight=18 base=14 scaleW=256 scaleH=128 pages=2 packed=0 alphaChnl=1 redChnl=2 greenChnl=3 blueChnl=4\n";

fn text(rest: &str) -> String {
    format!("{}{}", HEAD, rest)
}

#[test]
fn header_values_are_read() {
    let font = load(&text("page id=0 file=\"a.png\"\n")).unwrap();
    assert_eq!(font.font_name, "Test Face");
    assert_eq!((font.size, font.line_height, font.base), (16, 18, 14));
    let info = font.info_details.unwrap();
    assert_eq!((info.bold, info.italic, info.unicode), (1, 0, 1));
    assert_eq!(info.charset, "ANSI");
    assert_eq!((info.stretch_h, info.smooth, info.aa, info.outline), (100, 1, 2, 7));
    assert_eq!(info.padding, [1, 2, 3, 4]);
    assert_eq!(info.spacing, [5, 6]);
    let common = font.common_details.unwrap();
    assert_eq!((common.scale_w, common.scale_h, common.pages_count, common.packed), (256, 128, 2, 0));
    assert_eq!(
        (common.alpha_channel, common.red_channel, common.green_channel, common.blue_channel),
        (1, 2, 3, 4)
    );
    assert!(font.chars.is_empty());
}

#[test]
fn pages_keep_their_order() {
    let font = load(&text("page id=0 file=\"a.png\"\npage id=1 file=b.png\n")).unwrap();
    assert_eq!(font.pages.len(), 2);
    assert_eq!((font.pages[0].id, font.pages[0].image_path.as_str()), (0, "a.png"));
    assert_eq!((font.pages[1].id, font.pages[1].image_path.as_str()), (1, "b.png"));
}

#[test]
fn char_fields_land_in_their_places() {
    let font = load(&text(
        "page id=0 file=a.png\nchar id=66 x=1 y=2 width=3 height=4 xoffset=-5 yoffset=-6 xadvance=7 page=1 chnl=8\n",
    ))
    .unwrap();
    let c = font.chars[&66];
    assert_eq!((c.id, c.x, c.y, c.width, c.height), (66, 1, 2, 3, 4));
    assert_eq!((c.xoffset, c.yoffset, c.xadvance), (-5, -6, 7));
    assert_eq!((c.page, c.channel), (1, 8));
}

#[test]
fn char_count_is_the_blocks_present_not_the_declared_count() {
    let font = load(&text(
        "page id=0 file=a.png\nchars count=5\nchar id=1 x=1\nchar id=2 x=2\n",
    ))
    .unwrap();
    assert_eq!(font.chars.len(), 2);
    let font = load(&text("page id=0 file=a.png\nchars count=0\nchar id=1\nchar id=2\nchar id=3\n")).unwrap();
    assert_eq!(font.chars.len(), 3);
}

#[test]
fn later_char_of_an_id_wins() {
    let font = load(&text("page id=0 file=a.png\nchar id=3 x=1\nchar id=3 x=9\n")).unwrap();
    assert_eq!(font.chars.len(), 1);
    assert_eq!(font.chars[&3].x, 9);
}

#[test]
fn no_pages_is_refused() {
    assert_eq!(load(HEAD).unwrap_err(), LoadError::NoPages);
    assert_eq!(load(&text("char id=1\n")).unwrap_err(), LoadError::NoPages);
}

#[test]
fn unknown_key_is_refused() {
    let t = "info face=F foo=1\ncommon lineHeight=1\npage id=0 file=a\n";
    assert_eq!(load(t).unwrap_err(), LoadError::UnexpectedKey { block: Block::Info });
    let t = "info sizes=1\ncommon lineHeight=1\npage id=0 file=a\n";
    assert_eq!(load(t).unwrap_err(), LoadError::UnexpectedKey { block: Block::Info });
    let t = "info face=F\ncommon lineHeight=1 bogus=2\npage id=0 file=a\n";
    assert_eq!(load(t).unwrap_err(), LoadError::UnexpectedKey { block: Block::Common });
    let t = "info face=F\ncommon lineHeight=1\npage id=0 file=a color=3\n";
    assert_eq!(load(t).unwrap_err(), LoadError::UnexpectedKey { block: Block::Page });
    let t = "info face=F\ncommon lineHeight=1\npage id=0 file=a\nchar id=1 z=3\n";
    assert_eq!(load(t).unwrap_err(), LoadError::UnexpectedKey { block: Block::Char });
}

#[test]
fn missing_blocks_are_refused() {
    assert_eq!(load("").unwrap_err(), LoadError::MissingBlock { block: Block::Info });
    assert_eq!(
        load("info face=F\npage id=0 file=a\n").unwrap_err(),
        LoadError::MissingBlock { block: Block::Common }
    );
}

#[test]
fn key_without_equals_is_refused() {
    assert_eq!(
        load("info size 3\n").unwrap_err(),
        LoadError::MissingEquals { block: Block::Info, field: Field::Size }
    );
}

#[test]
fn malformed_values_are_refused() {
    assert_eq!(
        load("info size=x\n").unwrap_err(),
        LoadError::ValueParse { block: Block::Info, field: Field::Size }
    );
    assert_eq!(
        load("info padding=1,2;3,4\n").unwrap_err(),
        LoadError::MissingComma { field: Field::Padding }
    );
    assert_eq!(
        load("info spacing=1,\n").unwrap_err(),
        LoadError::ValueParse { block: Block::Info, field: Field::Spacing }
    );
    assert_eq!(
        load(&text("page id=0 file=a\nchars count=x\n")).unwrap_err(),
        LoadError::ValueParse { block: Block::Chars, field: Field::Count }
    );
    assert_eq!(
        load(&text("page id=0 file=a\nchar id=1 x=-1\n")).unwrap_err(),
        LoadError::ValueParse { block: Block::Char, field: Field::X }
    );
}

#[test]
fn bmfont_trailing_garbage_is_refused() {
    assert_eq!(
        load(&text("page id=0 file=a\nchar id=1\nkernings count=0\n")).unwrap_err(),
        LoadError::TrailingContent
    );
}

#[test]
fn bmfont_parse_is_deterministic() {
    let t = text("page id=0 file=a.png\nchar id=1 x=4\nchar id=2 y=5\n");
    let a = load(&t).unwrap();
    let b = load(&t).unwrap();
    assert_eq!(a.chars, b.chars);
    assert_eq!(a.font_name, b.font_name);
    assert_eq!(a.common_details, b.common_details);
}

#[test]
fn image_paths_must_match_the_pages() {
    let t = text("page id=0 file=a.png\npage id=1 file=b.png\n");
    let err = BMFont::from_loaded(&Format::BMFont, &t, &["x.png"]).unwrap_err();
    assert_eq!(err, LoadError::ImagePathCount { pages: 2, paths: 1 });
    let font = BMFont::from_loaded(&Format::BMFont, &t, &["x.png", "y.png"]).unwrap();
    assert_eq!(font.pages[0].image_path, "x.png");
    assert_eq!(font.pages[1].image_path, "y.png");
    assert_eq!(font.pages[1].id, 1);
    let err = BMFont::from_loaded(&Format::SFL, "F 1 2 f.png 0 0", &[]).unwrap_err();
    assert_eq!(err, LoadError::ImagePathCount { pages: 1, paths: 0 });
}

#[test]
fn load_errors_pass_through_from_loaded() {
    let err = BMFont::from_loaded(&Format::SFL, "", &["x.png"]).unwrap_err();
    assert_eq!(err, LoadError::MissingFontName);
}
