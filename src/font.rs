use std::collections::HashMap;
use vstd::prelude::*;

verus! {

/// A single character of the bitmap font atlas: where it lies on its page and how
/// it is placed when rendered.
#[derive(Debug, Clone, Copy, PartialEq, Eq, Structural)]
pub struct BMCharacter {
    /// char id of the character.
    pub id: u32,
    /// x-position of the character on the atlas.
    pub x: u32,
    /// y-position of the character on the atlas.
    pub y: u32,
    /// Width of the character on the atlas.
    pub width: u32,
    /// Height of the character.
    pub height: u32,
    /// x-offset of the character.
    pub xoffset: i32,
    /// y-offset of the character.
    pub yoffset: i32,
    /// x-advance of the character.
    pub xadvance: i32,
    /// The texture page where the character is found.
    pub page: u32,
    /// The texture channel where the character is found.
    pub channel: u32,
}

/// Details from the info block of a BMFont text.
#[derive(Debug, Clone)]
pub struct InfoDetails {
    /// Is the font bold
    pub bold: u32,
    /// Is the font italic
    pub italic: u32,
    /// OEM charset name
    pub charset: String,
    /// Is the font unicode
    pub unicode: u32,
    /// Height-stretch of the font
    pub stretch_h: u32,
    /// 1 if smoothing was turned on
    pub smooth: u32,
    /// Supersampling level used. 1 means no supersampling
    pub aa: u32,
    /// Padding for each character: up, right, down, left
    pub padding: [u32; 4],
    /// Spacing for each character: horizontal, vertical
    pub spacing: [u32; 2],
    /// Outline thickness
    pub outline: u32,
}

/// The mathematical value of an [`InfoDetails`].
pub struct InfoModel {
    pub bold: u32,
    pub italic: u32,
    pub charset: Seq<char>,
    pub unicode: u32,
    pub stretch_h: u32,
    pub smooth: u32,
    pub aa: u32,
    pub padding: Seq<u32>,
    pub spacing: Seq<u32>,
    pub outline: u32,
}

impl View for InfoDetails {
    type V = InfoModel;

    open spec fn view(&self) -> InfoModel {
        InfoModel {
            bold: self.bold,
            italic: self.italic,
            charset: self.charset@,
            unicode: self.unicode,
            stretch_h: self.stretch_h,
            smooth: self.smooth,
            aa: self.aa,
            padding: self.padding@,
            spacing: self.spacing@,
            outline: self.outline,
        }
    }
}

/// Details from the common block of a BMFont text.
#[derive(Debug, Clone, Copy, PartialEq, Eq, Structural)]
pub struct CommonDetails {
    /// Width of the texture
    pub scale_w: u32,
    /// Height of the texture
    pub scale_h: u32,
    /// The amount of pages in this font
    pub pages_count: u32,
    /// 1 if the monochrome characters have been packed into each texture channel
    pub packed: u32,
    /// What the alpha channel holds: 0 glyph data, 1 outline, 2 both, 3 zero, 4 one
    pub alpha_channel: u32,
    /// What the red channel holds, coded as for the alpha channel
    pub red_channel: u32,
    /// What the green channel holds, coded as for the alpha channel
    pub green_channel: u32,
    /// What the blue channel holds, coded as for the alpha channel
    pub blue_channel: u32,
}

/// A page (texture) of the font.
#[derive(Debug, Clone)]
pub struct Page {
    /// The id of this page
    pub id: u32,
    /// The path of the image
    pub image_path: String,
}

/// The mathematical value of a [`Page`].
pub struct PageModel {
    pub id: u32,
    pub image_path: Seq<char>,
}

impl View for Page {
    type V = PageModel;

    open spec fn view(&self) -> PageModel {
        PageModel { id: self.id, image_path: self.image_path@ }
    }
}

/// A loaded bitmap font.
#[derive(Debug, Clone)]
pub struct BMFont {
    /// The name of the font.
    pub font_name: String,
    /// Size of the font.
    pub size: u32,
    /// Details of the info block; only the BMFont format has them.
    pub info_details: Option<InfoDetails>,
    /// Line height of the font.
    pub line_height: u32,
    /// Number of pixels from the absolute top of the line to the base.
    pub base: u32,
    /// Details of the common block; only the BMFont format has them.
    pub common_details: Option<CommonDetails>,
    /// The pages of this font.
    pub pages: Vec<Page>,
    /// The characters of the font by their id.
    pub chars: HashMap<u32, BMCharacter>,
}

/// The mathematical value of a [`BMFont`].
pub struct FontModel {
    pub font_name: Seq<char>,
    pub size: u32,
    pub info: Option<InfoModel>,
    pub line_height: u32,
    pub base: u32,
    pub common: Option<CommonDetails>,
    pub pages: Seq<PageModel>,
    pub chars: Map<u32, BMCharacter>,
}

pub open spec fn info_view(d: Option<InfoDetails>) -> Option<InfoModel> {
    match d {
        Some(d) => Some(d@),
        None => None,
    }
}

pub open spec fn pages_view(pages: Seq<Page>) -> Seq<PageModel> {
    pages.map_values(|p: Page| p@)
}

impl View for BMFont {
    type V = FontModel;

    open spec fn view(&self) -> FontModel {
        FontModel {
            font_name: self.font_name@,
            size: self.size,
            info: info_view(self.info_details),
            line_height: self.line_height,
            base: self.base,
            common: self.common_details,
            pages: pages_view(self.pages@),
            chars: self.chars@,
        }
    }
}

/// The two text formats a font description can come in.
pub enum Format {
    /// Files ending in .sfl, like those created by FontBuilder
    SFL,
    /// Files ending in .fnt, like those created by BMFont
    BMFont,
}

/// The parts of a font text an error can point at.
#[derive(Debug, Clone, Copy, PartialEq, Eq, Structural)]
pub enum Block {
    /// The BMFont `info` block.
    Info,
    /// The BMFont `common` block.
    Common,
    /// A BMFont `page` block.
    Page,
    /// The BMFont `chars count=` declaration.
    Chars,
    /// A BMFont `char` block.
    Char,
}

/// The named values of the two formats.
#[derive(Debug, Clone, Copy, PartialEq, Eq, Structural)]
pub enum Field {
    FontName,
    ImageFile,
    CharCount,
    EndMarker,
    Face,
    Size,
    Bold,
    Italic,
    Charset,
    Unicode,
    StretchH,
    Smooth,
    Aa,
    Padding,
    Spacing,
    Outline,
    LineHeight,
    Base,
    ScaleW,
    ScaleH,
    Pages,
    Packed,
    AlphaChnl,
    RedChnl,
    GreenChnl,
    BlueChnl,
    Id,
    File,
    X,
    Y,
    Width,
    Height,
    XOffset,
    YOffset,
    XAdvance,
    Page,
    Chnl,
    Count,
}

/// Why a font text could not be loaded. A parse stops at the first of these.
#[derive(Debug, Clone, Copy, PartialEq, Eq, Structural)]
pub enum LoadError {
    /// The SFL text does not begin with a font name.
    MissingFontName,
    /// A value of the SFL header, or the closing number, is missing or malformed.
    HeaderValue { field: Field },
    /// The SFL text ended after `found` of the `declared` character records.
    CharCountMismatch { declared: u32, found: u32 },
    /// A field of an SFL character record is malformed. `char_index` is the record's
    /// index while its id is unknown, and its id once read.
    CharField { field: Field, char_index: u32 },
    /// SFL: the base `line_height - min yoffset` is no `u32`, or a normalised
    /// yoffset is no `i32`.
    OffsetOutOfRange,
    /// BMFont: the keyword that opens a block is missing.
    MissingBlock { block: Block },
    /// BMFont: a key is not followed by `=`.
    MissingEquals { block: Block, field: Field },
    /// BMFont: a list value lacks a comma between its numbers.
    MissingComma { field: Field },
    /// BMFont: the value of a key could not be read as its kind.
    ValueParse { block: Block, field: Field },
    /// BMFont: a `key=` whose key the block does not have.
    UnexpectedKey { block: Block },
    /// BMFont: not a single page block.
    NoPages,
    /// Text follows what the format expects to end with.
    TrailingContent,
    /// The number of image paths given differs from the number of pages.
    ImagePathCount { pages: usize, paths: usize },
}

/// `r` is the executable form of the model result `m`.
pub open spec fn result_matches(r: Result<BMFont, LoadError>, m: Result<FontModel, LoadError>) -> bool {
    match r {
        Ok(f) => m == Ok::<FontModel, LoadError>(f@),
        Err(e) => m == Err::<FontModel, LoadError>(e),
    }
}

/// The characters of `rs` by id; a later record replaces an earlier one of the same id.
pub open spec fn char_map(rs: Seq<BMCharacter>) -> Map<u32, BMCharacter>
    decreases rs.len(),
{
    if rs.len() == 0 {
        Map::empty()
    } else {
        char_map(rs.drop_last()).insert(rs.last().id, rs.last())
    }
}

/// No two records of `rs` share an id.
pub open spec fn unique_ids(rs: Seq<BMCharacter>) -> bool {
    forall|i: int, j: int| 0 <= i < j < rs.len() ==> rs[i].id != rs[j].id
}

pub proof fn lemma_char_map_finite(rs: Seq<BMCharacter>)
    ensures
        char_map(rs).dom().finite(),
    decreases rs.len(),
{
    if rs.len() > 0 {
        lemma_char_map_finite(rs.drop_last());
    }
}

/// `c` with its yoffset moved down by `min`.
pub open spec fn shift_yoffset(c: BMCharacter, min: int) -> BMCharacter {
    BMCharacter { yoffset: (c.yoffset - min) as i32, ..c }
}

/// In a sequence of distinct ids, each record is what the map holds under its id,
/// and the map holds no other id.
pub proof fn lemma_char_map_unique(rs: Seq<BMCharacter>)
    requires
        unique_ids(rs),
    ensures
        forall|i: int|
            0 <= i < rs.len() ==> #[trigger] char_map(rs).contains_key(rs[i].id) && char_map(rs)[rs[i].id]
                == rs[i],
        forall|k: u32| #[trigger]
            char_map(rs).contains_key(k) ==> exists|i: int| 0 <= i < rs.len() && rs[i].id == k,
        char_map(rs).dom().finite(),
        char_map(rs).len() == rs.len(),
    decreases rs.len(),
{
    if rs.len() > 0 {
        let init = rs.drop_last();
        lemma_char_map_unique(init);
        let m = char_map(init);
        assert(!m.contains_key(rs.last().id)) by {
            if m.contains_key(rs.last().id) {
                let i = choose|i: int| 0 <= i < init.len() && init[i].id == rs.last().id;
                assert(rs[i].id == rs[rs.len() - 1].id);
            }
        }
        assert forall|i: int| 0 <= i < rs.len() implies #[trigger] char_map(rs).contains_key(rs[i].id)
            && char_map(rs)[rs[i].id] == rs[i] by {
            if i < rs.len() - 1 {
                assert(init[i] == rs[i]);
            }
        }
        assert forall|k: u32| #[trigger] char_map(rs).contains_key(k) implies exists|i: int|
            0 <= i < rs.len() && rs[i].id == k by {
            if k != rs.last().id {
                let i = choose|i: int| 0 <= i < init.len() && init[i].id == k;
                assert(rs[i].id == k);
            } else {
                assert(rs[rs.len() - 1].id == k);
            }
        }
    }
}

/// Replacing, in a sequence of distinct ids, the record of an id by another with the
/// same id gives the map that inserting the new record gives.
pub proof fn lemma_char_map_update(rs: Seq<BMCharacter>, j: int, c: BMCharacter)
    requires
        unique_ids(rs),
        0 <= j < rs.len(),
        rs[j].id == c.id,
    ensures
        char_map(rs.update(j, c)) == char_map(rs).insert(c.id, c),
    decreases rs.len(),
{
    let rs2 = rs.update(j, c);
    let init = rs.drop_last();
    assert(rs2.drop_last() =~= if j == rs.len() - 1 {
        init
    } else {
        init.update(j, c)
    });
    if j == rs.len() - 1 {
        assert(char_map(rs2) =~= char_map(rs).insert(c.id, c));
    } else {
        lemma_char_map_update(init, j, c);
        assert(rs.last().id != c.id);
        assert(char_map(rs2) =~= char_map(rs).insert(c.id, c));
    }
}

/// Shifting every record's yoffset and then collecting gives the collected map with
/// every yoffset shifted.
pub proof fn lemma_char_map_shift(rs: Seq<BMCharacter>, min: int)
    ensures
        char_map(rs.map_values(|c: BMCharacter| shift_yoffset(c, min))) == char_map(rs).map_values(
            |c: BMCharacter| shift_yoffset(c, min),
        ),
    decreases rs.len(),
{
    let f = |c: BMCharacter| shift_yoffset(c, min);
    if rs.len() == 0 {
        assert(char_map(rs.map_values(f)) =~= char_map(rs).map_values(f));
    } else {
        lemma_char_map_shift(rs.drop_last(), min);
        assert(rs.map_values(f).drop_last() =~= rs.drop_last().map_values(f));
        assert(char_map(rs.map_values(f)) =~= char_map(rs).map_values(f));
    }
}

} // verus!
