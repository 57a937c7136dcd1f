use bmfont_parser::{BMFont, Format};

const IMAGE: &str = "examples/fonts/iosevka.png";

/// An SFL description of the Iosevka font: 486 characters, among them `A` (65).
fn iosevka_sfl() -> String {
    let mut text = String::from("Iosevka\n32 53\niosevka.png\n486\n");
    for id in 32u32..(32 + 486) {
        if id == 65 {
            text.push_str("65 172 244 18 33 2 11 22\n");
        } else {
            text.push_str(&format!("{} {} {} 10 20 1 {} 12\n", id, id % 50, id / 50, id % 20));
        }
    }
    text.push_str("0\n");
    text
}

/// A BMFont description of the Iosevka font: 486 characters, among them `A` (65).
fn iosevka_fnt() -> String {
    let mut text = String::from(
        "info face=\"Iosevka\" size=32 bold=0 italic=0 charset=\"\" unicode=1 stretchH=100 smooth=1 aa=1 padding=0,0,0,0 spacing=1,1 outline=0\n\
         common lineHeight=53 base=42 scaleW=1024 scaleH=1024 pages=1 packed=0 alphaChnl=0 redChnl=4 greenChnl=4 blueChnl=4\n\
         page id=0 file=\"iosevka.png\"\n\
         chars count=486\n",
    );
    for id in 32u32..(32 + 486) {
        if id == 65 {
            text.push_str("char id=65   x=799   y=86    width=17    height=31    xoffset=2     yoffset=11    xadvance=22    page=0  chnl=15\n");
        } else {
            text.push_str(&format!(
                "char id={} x={} y={} width=10 height=20 xoffset=1 yoffset={} xadvance=12 page=0 chnl=15\n",
                id,
                id % 50,
                id / 50,
                id % 20
            ));
        }
    }
    text
}

fn sfl_fonts() -> Vec<BMFont> {
    let text = iosevka_sfl();
    vec![
        BMFont::from_loaded(&Format::SFL, &text, &[IMAGE]).expect("iosevka.sfl loads"),
        bmfont_parser::sfl_parser::load(&text).expect("iosevka.sfl parses"),
    ]
}

fn bmfont_fonts() -> Vec<BMFont> {
    let text = iosevka_fnt();
    vec![
        BMFont::from_loaded(&Format::BMFont, &text, &[IMAGE]).expect("iosevka.fnt loads"),
        bmfont_parser::bmfont_parser::load(&text).expect("iosevka.fnt parses"),
    ]
}

fn for_each_font<F: Fn(&BMFont)>(f: F) {
    for font in sfl_fonts().iter().chain(bmfont_fonts().iter()) {
        f(font);
    }
}

#[test]
fn id() {
    for_each_font(|font| {
        assert_eq!(font.chars[&65].id, 65);
    });
}

#[test]
fn coordinates() {
    for font in sfl_fonts().iter() {
        assert_eq!(font.chars[&65].x, 172);
        assert_eq!(font.chars[&65].y, 244);
    }
    for font in bmfont_fonts().iter() {
        assert_eq!(font.chars[&65].x, 799);
        assert_eq!(font.chars[&65].y, 86);
    }
}

#[test]
fn bmcharacter_size() {
    for font in sfl_fonts().iter() {
        assert_eq!(font.chars[&65].width, 18);
        assert_eq!(font.chars[&65].height, 33);
    }
    for font in bmfont_fonts().iter() {
        assert_eq!(font.chars[&65].width, 17);
        assert_eq!(font.chars[&65].height, 31);
    }
}

#[test]
fn offsets() {
    for_each_font(|font| {
        assert_eq!(font.chars[&65].xoffset, 2);
        assert_eq!(font.chars[&65].yoffset, 11);
    });
}

#[test]
fn xadvance() {
    for_each_font(|font| {
        assert_eq!(font.chars[&65].xadvance, 22);
    });
}

#[test]
fn channel() {
    for_each_font(|font| {
        assert_eq!(font.chars[&65].channel, 15);
    });
}

#[test]
fn name() {
    for_each_font(|font| {
        assert_eq!(font.font_name, "Iosevka");
    });
}

#[test]
fn line_height() {
    for_each_font(|font| {
        assert_eq!(font.line_height, 53);
    });
}

#[test]
fn bmfont_size() {
    for_each_font(|font| {
        assert_eq!(font.size, 32);
    });
}

#[test]
fn image_path() {
    let text = iosevka_sfl();
    let font = BMFont::from_loaded(&Format::SFL, &text, &[IMAGE]).unwrap();
    assert_eq!(font.pages[0].image_path, "examples/fonts/iosevka.png");
    let text = iosevka_fnt();
    let font = BMFont::from_loaded(&Format::BMFont, &text, &[IMAGE]).unwrap();
    assert_eq!(font.pages[0].image_path, "examples/fonts/iosevka.png");
}

#[test]
fn character_amount() {
    for_each_font(|font| {
        assert_eq!(font.chars.len(), 486);
    });
}

#[test]
fn page_amount() {
    for_each_font(|font| {
        assert_eq!(font.pages.len(), 1);
    });
}

#[test]
fn parsed_image_names_are_the_files_the_text_gives() {
    let font = bmfont_parser::sfl_parser::load(&iosevka_sfl()).unwrap();
    assert_eq!(font.pages[0].image_path, "iosevka.png");
    let font = bmfont_parser::bmfont_parser::load(&iosevka_fnt()).unwrap();
    assert_eq!(font.pages[0].image_path, "iosevka.png");
    assert_eq!(font.pages[0].id, 0);
}
