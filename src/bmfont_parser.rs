use crate::font::{
    char_map, lemma_char_map_unique, result_matches, unique_ids, BMCharacter, BMFont, Block,
    CommonDetails, Field, FontModel,
    InfoDetails, InfoModel, LoadError, Page, PageModel,
};
use crate::scanner::{
    assignment_at, key_end, lemma_scan_number, lemma_skip_ws_bounds, literal_at, scan_ident, scan_number,
    skip_ws, Expect, NumberKind, Parser,
};
use std::collections::HashMap;
use vstd::prelude::*;

verus! {

broadcast use vstd::std_specs::hash::group_hash_axioms;

impl Field {
    /// The key that names this field in a BMFont block.
    pub open spec fn key(self) -> Seq<char> {
        match self {
            Field::Face => "face"@,
            Field::Size => "size"@,
            Field::Bold => "bold"@,
            Field::Italic => "italic"@,
            Field::Charset => "charset"@,
            Field::Unicode => "unicode"@,
            Field::StretchH => "stretchH"@,
            Field::Smooth => "smooth"@,
            Field::Aa => "aa"@,
            Field::Padding => "padding"@,
            Field::Spacing => "spacing"@,
            Field::Outline => "outline"@,
            Field::LineHeight => "lineHeight"@,
            Field::Base => "base"@,
            Field::ScaleW => "scaleW"@,
            Field::ScaleH => "scaleH"@,
            Field::Pages => "pages"@,
            Field::Packed => "packed"@,
            Field::AlphaChnl => "alphaChnl"@,
            Field::RedChnl => "redChnl"@,
            Field::GreenChnl => "greenChnl"@,
            Field::BlueChnl => "blueChnl"@,
            Field::Id => "id"@,
            Field::File => "file"@,
            Field::X => "x"@,
            Field::Y => "y"@,
            Field::Width => "width"@,
            Field::Height => "height"@,
            Field::XOffset => "xoffset"@,
            Field::YOffset => "yoffset"@,
            Field::XAdvance => "xadvance"@,
            Field::Page => "page"@,
            Field::Chnl => "chnl"@,
            Field::Count => "count"@,
            _ => Seq::empty(),
        }
    }

    /// The key as text.
    pub fn key_str(&self) -> (r: &'static str)
        ensures
            r@ == self.key(),
    {
        match self {
            Field::Face => "face",
            Field::Size => "size",
            Field::Bold => "bold",
            Field::Italic => "italic",
            Field::Charset => "charset",
            Field::Unicode => "unicode",
            Field::StretchH => "stretchH",
            Field::Smooth => "smooth",
            Field::Aa => "aa",
            Field::Padding => "padding",
            Field::Spacing => "spacing",
            Field::Outline => "outline",
            Field::LineHeight => "lineHeight",
            Field::Base => "base",
            Field::ScaleW => "scaleW",
            Field::ScaleH => "scaleH",
            Field::Pages => "pages",
            Field::Packed => "packed",
            Field::AlphaChnl => "alphaChnl",
            Field::RedChnl => "redChnl",
            Field::GreenChnl => "greenChnl",
            Field::BlueChnl => "blueChnl",
            Field::Id => "id",
            Field::File => "file",
            Field::X => "x",
            Field::Y => "y",
            Field::Width => "width",
            Field::Height => "height",
            Field::XOffset => "xoffset",
            Field::YOffset => "yoffset",
            Field::XAdvance => "xadvance",
            Field::Page => "page",
            Field::Chnl => "chnl",
            Field::Count => "count",
            _ => {
                proof {
                    reveal_strlit("");
                }
                ""
            },
        }
    }
}

/// The keys of a block, in the order they are tried.
pub open spec fn block_keys(b: Block) -> Seq<Field> {
    match b {
        Block::Info => seq![
            Field::Face,
            Field::Size,
            Field::Bold,
            Field::Italic,
            Field::Charset,
            Field::Unicode,
            Field::StretchH,
            Field::Smooth,
            Field::Aa,
            Field::Padding,
            Field::Spacing,
            Field::Outline,
        ],
        Block::Common => seq![
            Field::LineHeight,
            Field::Base,
            Field::ScaleW,
            Field::ScaleH,
            Field::Pages,
            Field::Packed,
            Field::AlphaChnl,
            Field::RedChnl,
            Field::GreenChnl,
            Field::BlueChnl,
        ],
        Block::Page => seq![Field::Id, Field::File],
        Block::Char => seq![
            Field::Id,
            Field::XOffset,
            Field::YOffset,
            Field::XAdvance,
            Field::Width,
            Field::Height,
            Field::X,
            Field::Y,
            Field::Page,
            Field::Chnl,
        ],
        Block::Chars => seq![Field::Count],
    }
}

fn block_key_list(b: Block) -> (r: Vec<Field>)
    ensures
        r@ == block_keys(b),
{
    let r = match b {
        Block::Info => vec![
            Field::Face,
            Field::Size,
            Field::Bold,
            Field::Italic,
            Field::Charset,
            Field::Unicode,
            Field::StretchH,
            Field::Smooth,
            Field::Aa,
            Field::Padding,
            Field::Spacing,
            Field::Outline,
        ],
        Block::Common => vec![
            Field::LineHeight,
            Field::Base,
            Field::ScaleW,
            Field::ScaleH,
            Field::Pages,
            Field::Packed,
            Field::AlphaChnl,
            Field::RedChnl,
            Field::GreenChnl,
            Field::BlueChnl,
        ],
        Block::Page => vec![Field::Id, Field::File],
        Block::Char => vec![
            Field::Id,
            Field::XOffset,
            Field::YOffset,
            Field::XAdvance,
            Field::Width,
            Field::Height,
            Field::X,
            Field::Y,
            Field::Page,
            Field::Chnl,
        ],
        Block::Chars => vec![Field::Count],
    };
    assert(r@ =~= block_keys(b));
    r
}

/// Key `k` stands at `p` as a whole word: what follows it is whitespace, `=` or the
/// end.
pub open spec fn key_at(s: Seq<char>, p: int, k: Seq<char>) -> bool {
    literal_at(s, p, k) && key_end(s, p) == p + k.len()
}

/// The first of `keys` that stands at `p` as a whole word.
pub open spec fn first_key(s: Seq<char>, p: int, keys: Seq<Field>) -> Option<Field>
    decreases keys.len(),
{
    if keys.len() == 0 {
        None
    } else if key_at(s, p, keys[0].key()) {
        Some(keys[0])
    } else {
        first_key(s, p, keys.drop_first())
    }
}

/// Tries, in order, the keys as long as the word at the position with one chain of
/// alternatives; the first that stands there is consumed and given back.
fn read_key(parser: &mut Parser, keys: &Vec<Field>) -> (r: Option<Field>)
    requires
        old(parser).wf(),
    ensures
        final(parser).wf(),
        final(parser).text() == old(parser).text(),
        r == first_key(old(parser).text(), old(parser).pos(), keys@),
        final(parser).pos() == match r {
            Some(f) => old(parser).pos() + f.key().len(),
            None => old(parser).pos(),
        },
{
    let ghost s = parser.text();
    let ghost p = parser.pos();
    let width = parser.key_length();
    let mut e = Expect::new();
    let mut found: Option<Field> = None;
    let mut i: usize = 0;
    assert(keys@.skip(0) =~= keys@);
    while i < keys.len()
        invariant
            parser.wf(),
            parser.text() == s,
            s == old(parser).text(),
            p == old(parser).pos(),
            width == key_end(s, p) - p,
            i <= keys.len(),
            found is None ==> {
                &&& e.matched() is None
                &&& first_key(s, p, keys@) == first_key(s, p, keys@.skip(i as int))
                &&& parser.pos() == p
            },
            found matches Some(k) ==> {
                &&& e.matched() is Some
                &&& first_key(s, p, keys@) == Some(k)
                &&& parser.pos() == p + k.key().len()
            },
        decreases keys.len() - i,
    {
        proof {
            assert(keys@.skip(i as int).drop_first() =~= keys@.skip(i + 1));
            assert(keys@.skip(i as int)[0] == keys@[i as int]);
        }
        let key = keys[i].key_str();
        if found.is_none() && key.unicode_len() == width {
            e = e.or(key, parser);
            if e.get().is_ok() {
                found = Some(keys[i]);
            }
        }
        i = i + 1;
    }
    proof {
        if found is None {
            assert(keys@.skip(i as int).len() == 0);
        }
    }
    found
}

/// How the value of a field is written.
#[derive(Clone, Copy, Debug, PartialEq, Eq, Structural)]
pub enum ValueKind {
    /// An identifier, quoted or bare.
    Text,
    /// A number of the given kind.
    Number(NumberKind),
    /// The given count of unsigned numbers separated by commas.
    List(u32),
}

pub open spec fn value_kind(f: Field) -> ValueKind {
    match f {
        Field::Face | Field::Charset | Field::File => ValueKind::Text,
        Field::Padding => ValueKind::List(4),
        Field::Spacing => ValueKind::List(2),
        Field::XOffset | Field::YOffset | Field::XAdvance => ValueKind::Number(NumberKind::Signed),
        _ => ValueKind::Number(NumberKind::Unsigned),
    }
}

fn kind_of(f: Field) -> (k: ValueKind)
    ensures
        k == value_kind(f),
{
    match f {
        Field::Face | Field::Charset | Field::File => ValueKind::Text,
        Field::Padding => ValueKind::List(4),
        Field::Spacing => ValueKind::List(2),
        Field::XOffset | Field::YOffset | Field::XAdvance => ValueKind::Number(NumberKind::Signed),
        _ => ValueKind::Number(NumberKind::Unsigned),
    }
}

/// The mathematical value of a [`FieldValue`].
pub enum ValueModel {
    Number(int),
    Text(Seq<char>),
    List(Seq<u32>),
}

/// A value read after `key=`.
pub enum FieldValue {
    Number(i64),
    Text(String),
    List(Vec<u32>),
}

impl View for FieldValue {
    type V = ValueModel;

    open spec fn view(&self) -> ValueModel {
        match self {
            FieldValue::Number(n) => ValueModel::Number(*n as int),
            FieldValue::Text(t) => ValueModel::Text(t@),
            FieldValue::List(l) => ValueModel::List(l@),
        }
    }
}

/// The numbers of a list from number `acc.len()` on, at `p`, after those in `acc`.
pub open spec fn list_rest(s: Seq<char>, p: int, b: Block, f: Field, n: u32, acc: Seq<u32>) -> Result<
    (Seq<u32>, int),
    LoadError,
>
    decreases n - acc.len(),
{
    if acc.len() >= n {
        Ok((acc, p))
    } else if acc.len() > 0 && !literal_at(s, p, ","@) {
        Err(LoadError::MissingComma { field: f })
    } else {
        let q = if acc.len() > 0 {
            p + ","@.len()
        } else {
            p
        };
        match scan_number(s, q, NumberKind::Unsigned) {
            None => Err(LoadError::ValueParse { block: b, field: f }),
            Some((v, e)) => list_rest(s, e, b, f, n, acc.push(v as u32)),
        }
    }
}

/// The value of field `f` of block `b`, read at `p`.
pub open spec fn read_value(s: Seq<char>, p: int, b: Block, f: Field) -> Result<
    (ValueModel, int),
    LoadError,
> {
    match value_kind(f) {
        ValueKind::Text => match scan_ident(s, p) {
            Some((t, e)) => Ok((ValueModel::Text(t), e)),
            None => Err(LoadError::ValueParse { block: b, field: f }),
        },
        ValueKind::Number(k) => match scan_number(s, p, k) {
            Some((v, e)) => Ok((ValueModel::Number(v), e)),
            None => Err(LoadError::ValueParse { block: b, field: f }),
        },
        ValueKind::List(n) => match list_rest(s, p, b, f, n, Seq::empty()) {
            Ok((l, e)) => Ok((ValueModel::List(l), e)),
            Err(e) => Err(e),
        },
    }
}

proof fn lemma_list_rest(s: Seq<char>, p: int, b: Block, f: Field, n: u32, acc: Seq<u32>)
    requires
        0 <= p <= s.len(),
    ensures
        list_rest(s, p, b, f, n, acc) matches Ok((l, e)) ==> p <= e <= s.len() && (acc.len() < n
            ==> p < e) && l.len() == if acc.len() >= n {
            acc.len() as int
        } else {
            n as int
        },
    decreases n - acc.len(),
{
    reveal_strlit(",");
    if acc.len() < n {
        let q = if acc.len() > 0 {
            p + 1
        } else {
            p
        };
        if acc.len() == 0 || literal_at(s, p, ","@) {
            lemma_scan_number(s, q, NumberKind::Unsigned);
            if let Some((v, e)) = scan_number(s, q, NumberKind::Unsigned) {
                lemma_list_rest(s, e, b, f, n, acc.push(v as u32));
            }
        }
    }
}

fn read_list(parser: &mut Parser, b: Block, f: Field, n: u32) -> (r: Result<Vec<u32>, LoadError>)
    requires
        old(parser).wf(),
    ensures
        final(parser).wf(),
        final(parser).text() == old(parser).text(),
        match list_rest(old(parser).text(), old(parser).pos(), b, f, n, Seq::empty()) {
            Ok((l, e)) => r is Ok && r->Ok_0@ == l && final(parser).pos() == e,
            Err(er) => r == Err::<Vec<u32>, LoadError>(er),
        },
{
    let ghost s = parser.text();
    let ghost start = parser.pos();
    let mut list: Vec<u32> = Vec::new();
    let mut i: u32 = 0;
    while i < n
        invariant
            parser.wf(),
            parser.text() == s,
            s == old(parser).text(),
            start == old(parser).pos(),
            i <= n,
            list@.len() == i,
            list_rest(s, start, b, f, n, Seq::empty()) == list_rest(s, parser.pos(), b, f, n, list@),
        decreases n - i,
    {
        if i > 0 {
            if parser.expect(",").get().is_err() {
                return Err(LoadError::MissingComma { field: f });
            }
        }
        let v = match parser.expect_number(NumberKind::Unsigned) {
            Some(v) => v as u32,
            None => {
                return Err(LoadError::ValueParse { block: b, field: f });
            },
        };
        list.push(v);
        i = i + 1;
    }
    Ok(list)
}

fn read_field_value(parser: &mut Parser, b: Block, f: Field) -> (r: Result<FieldValue, LoadError>)
    requires
        old(parser).wf(),
    ensures
        final(parser).wf(),
        final(parser).text() == old(parser).text(),
        match read_value(old(parser).text(), old(parser).pos(), b, f) {
            Ok((v, e)) => r is Ok && r->Ok_0@ == v && final(parser).pos() == e,
            Err(er) => r == Err::<FieldValue, LoadError>(er),
        },
{
    match kind_of(f) {
        ValueKind::Text => match parser.expect_ident() {
            Some(t) => Ok(FieldValue::Text(t)),
            None => Err(LoadError::ValueParse { block: b, field: f }),
        },
        ValueKind::Number(k) => match parser.expect_number(k) {
            Some(v) => Ok(FieldValue::Number(v)),
            None => Err(LoadError::ValueParse { block: b, field: f }),
        },
        ValueKind::List(n) => match read_list(parser, b, f, n) {
            Ok(l) => Ok(FieldValue::List(l)),
            Err(e) => Err(e),
        },
    }
}

/// A value fits the kind its field is written in.
pub open spec fn value_ok(f: Field, v: ValueModel) -> bool {
    match (value_kind(f), v) {
        (ValueKind::Number(k), ValueModel::Number(n)) => k.holds(n),
        (ValueKind::Text, ValueModel::Text(_)) => true,
        (ValueKind::List(n), ValueModel::List(l)) => l.len() == n,
        _ => false,
    }
}

proof fn lemma_read_value(s: Seq<char>, p: int, b: Block, f: Field)
    requires
        0 <= p <= s.len(),
    ensures
        read_value(s, p, b, f) matches Ok((v, e)) ==> value_ok(f, v) && p < e <= s.len(),
{
    lemma_scan_number(s, p, NumberKind::Unsigned);
    lemma_scan_number(s, p, NumberKind::Signed);
    lemma_list_rest(s, p, b, f, 4, Seq::empty());
    lemma_list_rest(s, p, b, f, 2, Seq::empty());
    if let Some((t, e)) = scan_ident(s, p) {
        crate::scanner::lemma_scan_ident(s, p);
    }
}

/// What a BMFont text has set so far: the font-wide values, and the page and
/// character of the block being read.
pub struct BuildModel {
    pub font_name: Seq<char>,
    pub size: u32,
    pub info: InfoModel,
    pub line_height: u32,
    pub base: u32,
    pub common: CommonDetails,
    pub page: PageModel,
    pub ch: BMCharacter,
}

/// A character with every field 0.
pub open spec fn blank_char() -> BMCharacter {
    BMCharacter {
        id: 0,
        x: 0,
        y: 0,
        width: 0,
        height: 0,
        xoffset: 0,
        yoffset: 0,
        xadvance: 0,
        page: 0,
        channel: 0,
    }
}

/// Nothing set yet: every number 0, every text empty.
pub open spec fn initial_build() -> BuildModel {
    BuildModel {
        font_name: Seq::empty(),
        size: 0,
        info: InfoModel {
            bold: 0,
            italic: 0,
            charset: Seq::empty(),
            unicode: 0,
            stretch_h: 0,
            smooth: 0,
            aa: 0,
            padding: seq![0, 0, 0, 0],
            spacing: seq![0, 0],
            outline: 0,
        },
        line_height: 0,
        base: 0,
        common: CommonDetails {
            scale_w: 0,
            scale_h: 0,
            pages_count: 0,
            packed: 0,
            alpha_channel: 0,
            red_channel: 0,
            green_channel: 0,
            blue_channel: 0,
        },
        page: PageModel { id: 0, image_path: Seq::empty() },
        ch: blank_char(),
    }
}

/// Sets field `f` of block `b` to `v`.
pub open spec fn apply(b: Block, f: Field, v: ValueModel, st: BuildModel) -> BuildModel {
    match (b, v) {
        (Block::Info, ValueModel::Text(t)) => match f {
            Field::Face => BuildModel { font_name: t, ..st },
            Field::Charset => BuildModel { info: InfoModel { charset: t, ..st.info }, ..st },
            _ => st,
        },
        (Block::Info, ValueModel::List(l)) => match f {
            Field::Padding => BuildModel { info: InfoModel { padding: l, ..st.info }, ..st },
            Field::Spacing => BuildModel { info: InfoModel { spacing: l, ..st.info }, ..st },
            _ => st,
        },
        (Block::Info, ValueModel::Number(n)) => {
            let n = n as u32;
            match f {
                Field::Size => BuildModel { size: n, ..st },
                Field::Bold => BuildModel { info: InfoModel { bold: n, ..st.info }, ..st },
                Field::Italic => BuildModel { info: InfoModel { italic: n, ..st.info }, ..st },
                Field::Unicode => BuildModel { info: InfoModel { unicode: n, ..st.info }, ..st },
                Field::StretchH => BuildModel { info: InfoModel { stretch_h: n, ..st.info }, ..st },
                Field::Smooth => BuildModel { info: InfoModel { smooth: n, ..st.info }, ..st },
                Field::Aa => BuildModel { info: InfoModel { aa: n, ..st.info }, ..st },
                Field::Outline => BuildModel { info: InfoModel { outline: n, ..st.info }, ..st },
                _ => st,
            }
        },
        (Block::Common, ValueModel::Number(n)) => {
            let n = n as u32;
            match f {
                Field::LineHeight => BuildModel { line_height: n, ..st },
                Field::Base => BuildModel { base: n, ..st },
                Field::ScaleW => BuildModel { common: CommonDetails { scale_w: n, ..st.common }, ..st },
                Field::ScaleH => BuildModel { common: CommonDetails { scale_h: n, ..st.common }, ..st },
                Field::Pages => BuildModel {
                    common: CommonDetails { pages_count: n, ..st.common },
                    ..st
                },
                Field::Packed => BuildModel { common: CommonDetails { packed: n, ..st.common }, ..st },
                Field::AlphaChnl => BuildModel {
                    common: CommonDetails { alpha_channel: n, ..st.common },
                    ..st
                },
                Field::RedChnl => BuildModel {
                    common: CommonDetails { red_channel: n, ..st.common },
                    ..st
                },
                Field::GreenChnl => BuildModel {
                    common: CommonDetails { green_channel: n, ..st.common },
                    ..st
                },
                Field::BlueChnl => BuildModel {
                    common: CommonDetails { blue_channel: n, ..st.common },
                    ..st
                },
                _ => st,
            }
        },
        (Block::Page, ValueModel::Number(n)) => match f {
            Field::Id => BuildModel { page: PageModel { id: n as u32, ..st.page }, ..st },
            _ => st,
        },
        (Block::Page, ValueModel::Text(t)) => match f {
            Field::File => BuildModel { page: PageModel { image_path: t, ..st.page }, ..st },
            _ => st,
        },
        (Block::Char, ValueModel::Number(n)) => match f {
            Field::Id => BuildModel { ch: BMCharacter { id: n as u32, ..st.ch }, ..st },
            Field::X => BuildModel { ch: BMCharacter { x: n as u32, ..st.ch }, ..st },
            Field::Y => BuildModel { ch: BMCharacter { y: n as u32, ..st.ch }, ..st },
            Field::Width => BuildModel { ch: BMCharacter { width: n as u32, ..st.ch }, ..st },
            Field::Height => BuildModel { ch: BMCharacter { height: n as u32, ..st.ch }, ..st },
            Field::XOffset => BuildModel { ch: BMCharacter { xoffset: n as i32, ..st.ch }, ..st },
            Field::YOffset => BuildModel { ch: BMCharacter { yoffset: n as i32, ..st.ch }, ..st },
            Field::XAdvance => BuildModel { ch: BMCharacter { xadvance: n as i32, ..st.ch }, ..st },
            Field::Page => BuildModel { ch: BMCharacter { page: n as u32, ..st.ch }, ..st },
            Field::Chnl => BuildModel { ch: BMCharacter { channel: n as u32, ..st.ch }, ..st },
            _ => st,
        },
        _ => st,
    }
}

/// The state a BMFont text is read into.
struct Builder {
    font_name: String,
    size: u32,
    info: InfoDetails,
    line_height: u32,
    base: u32,
    common: CommonDetails,
    page: Page,
    ch: BMCharacter,
}

impl View for Builder {
    type V = BuildModel;

    closed spec fn view(&self) -> BuildModel {
        BuildModel {
            font_name: self.font_name@,
            size: self.size,
            info: self.info@,
            line_height: self.line_height,
            base: self.base,
            common: self.common,
            page: self.page@,
            ch: self.ch,
        }
    }
}

fn blank_character() -> (c: BMCharacter)
    ensures
        c == blank_char(),
{
    BMCharacter {
        id: 0,
        x: 0,
        y: 0,
        width: 0,
        height: 0,
        xoffset: 0,
        yoffset: 0,
        xadvance: 0,
        page: 0,
        channel: 0,
    }
}

fn new_builder() -> (st: Builder)
    ensures
        st@ == initial_build(),
{
    let padding: [u32; 4] = [0, 0, 0, 0];
    let spacing: [u32; 2] = [0, 0];
    let st = Builder {
        font_name: String::new(),
        size: 0,
        info: InfoDetails {
            bold: 0,
            italic: 0,
            charset: String::new(),
            unicode: 0,
            stretch_h: 0,
            smooth: 0,
            aa: 0,
            padding,
            spacing,
            outline: 0,
        },
        line_height: 0,
        base: 0,
        common: CommonDetails {
            scale_w: 0,
            scale_h: 0,
            pages_count: 0,
            packed: 0,
            alpha_channel: 0,
            red_channel: 0,
            green_channel: 0,
            blue_channel: 0,
        },
        page: Page { id: 0, image_path: String::new() },
        ch: blank_character(),
    };
    assert(st.info.padding@ =~= seq![0u32, 0, 0, 0]);
    assert(st.info.spacing@ =~= seq![0u32, 0]);
    st
}

fn apply_value(st: &mut Builder, b: Block, f: Field, v: FieldValue)
    requires
        value_ok(f, v@),
    ensures
        final(st)@ == apply(b, f, v@, old(st)@),
{
    match (b, v) {
        (Block::Info, FieldValue::Text(t)) => match f {
            Field::Face => st.font_name = t,
            Field::Charset => st.info.charset = t,
            _ => {},
        },
        (Block::Info, FieldValue::List(l)) => match f {
            Field::Padding => {
                st.info.padding = [l[0], l[1], l[2], l[3]];
                assert(st.info.padding@ =~= l@);
            },
            Field::Spacing => {
                st.info.spacing = [l[0], l[1]];
                assert(st.info.spacing@ =~= l@);
            },
            _ => {},
        },
        (Block::Info, FieldValue::Number(n)) => {
            let n = n as u32;
            match f {
                Field::Size => st.size = n,
                Field::Bold => st.info.bold = n,
                Field::Italic => st.info.italic = n,
                Field::Unicode => st.info.unicode = n,
                Field::StretchH => st.info.stretch_h = n,
                Field::Smooth => st.info.smooth = n,
                Field::Aa => st.info.aa = n,
                Field::Outline => st.info.outline = n,
                _ => {},
            }
        },
        (Block::Common, FieldValue::Number(n)) => {
            let n = n as u32;
            match f {
                Field::LineHeight => st.line_height = n,
                Field::Base => st.base = n,
                Field::ScaleW => st.common.scale_w = n,
                Field::ScaleH => st.common.scale_h = n,
                Field::Pages => st.common.pages_count = n,
                Field::Packed => st.common.packed = n,
                Field::AlphaChnl => st.common.alpha_channel = n,
                Field::RedChnl => st.common.red_channel = n,
                Field::GreenChnl => st.common.green_channel = n,
                Field::BlueChnl => st.common.blue_channel = n,
                _ => {},
            }
        },
        (Block::Page, FieldValue::Number(n)) => match f {
            Field::Id => st.page.id = n as u32,
            _ => {},
        },
        (Block::Page, FieldValue::Text(t)) => match f {
            Field::File => st.page.image_path = t,
            _ => {},
        },
        (Block::Char, FieldValue::Number(n)) => match f {
            Field::Id => st.ch.id = n as u32,
            Field::X => st.ch.x = n as u32,
            Field::Y => st.ch.y = n as u32,
            Field::Width => st.ch.width = n as u32,
            Field::Height => st.ch.height = n as u32,
            Field::XOffset => st.ch.xoffset = n as i32,
            Field::YOffset => st.ch.yoffset = n as i32,
            Field::XAdvance => st.ch.xadvance = n as i32,
            Field::Page => st.ch.page = n as u32,
            Field::Chnl => st.ch.channel = n as u32,
            _ => {},
        },
        _ => {},
    }
}

/// The `key=value` pairs of block `b` from `p` on, each followed by whitespace,
/// until no key of the block stands at the position.
pub open spec fn key_loop(s: Seq<char>, p: int, b: Block, st: BuildModel) -> Result<
    (BuildModel, int),
    LoadError,
>
    decreases s.len() - p,
{
    match first_key(s, p, block_keys(b)) {
        None => Ok((st, p)),
        Some(f) => {
            let q = p + f.key().len();
            if !literal_at(s, q, "="@) {
                Err(LoadError::MissingEquals { block: b, field: f })
            } else {
                match read_value(s, q + "="@.len(), b, f) {
                    Err(e) => Err(e),
                    Ok((v, r)) => {
                        let n = skip_ws(s, r);
                        // always taken: the key loop only moves forward
                        if p < n <= s.len() {
                            key_loop(s, n, b, apply(b, f, v, st))
                        } else {
                            Ok((st, p))
                        }
                    },
                }
            }
        },
    }
}

/// The body of block `b`: its `key=value` pairs. A `key=` of a key the block does
/// not have, where the pairs end, is an error.
pub open spec fn block_body(s: Seq<char>, p: int, b: Block, st: BuildModel) -> Result<
    (BuildModel, int),
    LoadError,
> {
    match key_loop(s, p, b, st) {
        Err(e) => Err(e),
        Ok((st, q)) => if assignment_at(s, q) {
            Err(LoadError::UnexpectedKey { block: b })
        } else {
            Ok((st, q))
        },
    }
}

proof fn lemma_key_loop(s: Seq<char>, p: int, b: Block, st: BuildModel)
    requires
        0 <= p <= s.len(),
    ensures
        key_loop(s, p, b, st) matches Ok((m, q)) ==> p <= q <= s.len() && (b == Block::Char ==> m
            == (BuildModel { ch: m.ch, ..st })),
    decreases s.len() - p,
{
    if let Some(f) = first_key(s, p, block_keys(b)) {
        let q = p + f.key().len();
        if literal_at(s, q, "="@) {
            reveal_strlit("=");
            lemma_read_value(s, q + 1, b, f);
            if let Ok((v, r)) = read_value(s, q + 1, b, f) {
                lemma_skip_ws_bounds(s, r);
                lemma_key_loop(s, skip_ws(s, r), b, apply(b, f, v, st));
            }
        }
    }
}

/// Reads the body of block `b` into `st`.
fn parse_block(parser: &mut Parser, b: Block, st: &mut Builder) -> (r: Result<(), LoadError>)
    requires
        old(parser).wf(),
    ensures
        final(parser).wf(),
        final(parser).text() == old(parser).text(),
        match block_body(old(parser).text(), old(parser).pos(), b, old(st)@) {
            Ok((m, q)) => r is Ok && final(st)@ == m && final(parser).pos() == q,
            Err(e) => r == Err::<(), LoadError>(e),
        },
{
    let ghost s = parser.text();
    let ghost start = parser.pos();
    let ghost st0 = st@;
    let keys = block_key_list(b);
    let mut go = true;
    while go
        invariant
            parser.wf(),
            parser.text() == s,
            s == old(parser).text(),
            start == old(parser).pos(),
            st0 == old(st)@,
            keys@ == block_keys(b),
            go ==> key_loop(s, start, b, st0) == key_loop(s, parser.pos(), b, st@),
            !go ==> key_loop(s, start, b, st0) == Ok::<(BuildModel, int), LoadError>(
                (st@, parser.pos()),
            ),
        decreases s.len() - parser.pos() + (if go {
            1int
        } else {
            0int
        }),
    {
        let ghost p = parser.pos();
        match read_key(parser, &keys) {
            None => {
                go = false;
            },
            Some(f) => {
                if parser.expect("=").get().is_err() {
                    return Err(LoadError::MissingEquals { block: b, field: f });
                }
                proof {
                    reveal_strlit("=");
                    lemma_read_value(s, parser.pos(), b, f);
                }
                let v = match read_field_value(parser, b, f) {
                    Ok(v) => v,
                    Err(e) => {
                        return Err(e);
                    },
                };
                apply_value(st, b, f, v);
                proof {
                    lemma_skip_ws_bounds(s, parser.pos());
                }
                parser.skip_whitespace();
            },
        }
    }
    if parser.at_assignment() {
        return Err(LoadError::UnexpectedKey { block: b });
    }
    Ok(())
}

/// The `page` blocks from `p` on, each followed by whitespace; `pages` holds those
/// read so far.
pub open spec fn page_blocks(s: Seq<char>, p: int, st: BuildModel, pages: Seq<PageModel>) -> Result<
    (BuildModel, Seq<PageModel>, int),
    LoadError,
>
    decreases s.len() - p,
{
    if !literal_at(s, p, "page"@) {
        Ok((st, pages, p))
    } else {
        let fresh = BuildModel { page: PageModel { id: 0, image_path: Seq::empty() }, ..st };
        match block_body(s, skip_ws(s, p + "page"@.len()), Block::Page, fresh) {
            Err(e) => Err(e),
            Ok((st2, q)) => {
                let n = skip_ws(s, q);
                // always taken: a block only moves forward
                if p < n <= s.len() {
                    page_blocks(s, n, st2, pages.push(st2.page))
                } else {
                    Ok((st2, pages.push(st2.page), n))
                }
            },
        }
    }
}

/// The `char` blocks from `p` on, each followed by whitespace; `rs` holds those
/// read so far.
pub open spec fn char_blocks(s: Seq<char>, p: int, st: BuildModel, rs: Seq<BMCharacter>) -> Result<
    (Seq<BMCharacter>, int),
    LoadError,
>
    decreases s.len() - p,
{
    if !literal_at(s, p, "char"@) {
        Ok((rs, p))
    } else {
        let fresh = BuildModel { ch: blank_char(), ..st };
        match block_body(s, skip_ws(s, p + "char"@.len()), Block::Char, fresh) {
            Err(e) => Err(e),
            Ok((st2, q)) => {
                let n = skip_ws(s, q);
                // always taken: a block only moves forward
                if p < n <= s.len() {
                    char_blocks(s, n, st2, rs.push(st2.ch))
                } else {
                    Ok((rs.push(st2.ch), n))
                }
            },
        }
    }
}

/// The optional `chars count=N` declaration at `p`; `N` is read and not used.
pub open spec fn count_decl(s: Seq<char>, p: int) -> Result<int, LoadError> {
    if literal_at(s, p, "chars count="@) {
        match scan_number(s, p + "chars count="@.len(), NumberKind::Unsigned) {
            Some((_, e)) => Ok(e),
            None => Err(LoadError::ValueParse { block: Block::Chars, field: Field::Count }),
        }
    } else {
        Ok(p)
    }
}

/// The `info` block and then the `common` block: the state they set and where the
/// second ends.
pub open spec fn bmfont_header(s: Seq<char>) -> Result<(BuildModel, int), LoadError> {
    let p = skip_ws(s, 0);
    if !literal_at(s, p, "info"@) {
        Err(LoadError::MissingBlock { block: Block::Info })
    } else {
        match block_body(s, skip_ws(s, p + "info"@.len()), Block::Info, initial_build()) {
            Err(e) => Err(e),
            Ok((st, p)) => {
                let p = skip_ws(s, p);
                if !literal_at(s, p, "common"@) {
                    Err(LoadError::MissingBlock { block: Block::Common })
                } else {
                    block_body(s, skip_ws(s, p + "common"@.len()), Block::Common, st)
                }
            },
        }
    }
}

/// What a BMFont text holds: the state its header sets, its pages, its `char`
/// blocks in order, and where they end.
pub struct BmfontText {
    pub state: BuildModel,
    pub pages: Seq<PageModel>,
    pub chars: Seq<BMCharacter>,
    pub end: int,
}

/// Reads a BMFont text: an `info` block, a `common` block, one or more `page`
/// blocks, an optional `chars count=` declaration and any number of `char` blocks,
/// separated by whitespace.
pub open spec fn bmfont_text(s: Seq<char>) -> Result<BmfontText, LoadError> {
    match bmfont_header(s) {
        Err(e) => Err(e),
        Ok((st, p)) => match page_blocks(s, skip_ws(s, p), st, Seq::empty()) {
            Err(e) => Err(e),
            Ok((st, pages, p)) => if pages.len() == 0 {
                Err(LoadError::NoPages)
            } else {
                match count_decl(s, skip_ws(s, p)) {
                    Err(e) => Err(e),
                    Ok(p) => match char_blocks(s, skip_ws(s, p), st, Seq::empty()) {
                        Err(e) => Err(e),
                        Ok((rs, end)) => Ok(BmfontText { state: st, pages, chars: rs, end }),
                    },
                }
            },
        },
    }
}

/// The font a BMFont text describes; after its last block there is nothing but
/// whitespace. A later character of an id replaces an earlier one.
pub open spec fn bmfont_model(s: Seq<char>) -> Result<FontModel, LoadError> {
    match bmfont_text(s) {
        Err(e) => Err(e),
        Ok(t) => if skip_ws(s, t.end) < s.len() {
            Err(LoadError::TrailingContent)
        } else {
            Ok(
                FontModel {
                    font_name: t.state.font_name,
                    size: t.state.size,
                    info: Some(t.state.info),
                    line_height: t.state.line_height,
                    base: t.state.base,
                    common: Some(t.state.common),
                    pages: t.pages,
                    chars: char_map(t.chars),
                },
            )
        },
    }
}

/// For a BMFont text whose `char` blocks have distinct ids, the font holds exactly
/// as many characters as the text has `char` blocks. The count that `chars count=`
/// declares does not enter.
pub proof fn lemma_bmfont_char_count(s: Seq<char>)
    requires
        bmfont_model(s) is Ok,
        unique_ids(bmfont_text(s)->Ok_0.chars),
    ensures
        bmfont_model(s)->Ok_0.chars.len() == bmfont_text(s)->Ok_0.chars.len(),
{
    lemma_char_map_unique(bmfont_text(s)->Ok_0.chars);
}

/// A BMFont text with no `page` block after its `common` block is refused for want
/// of pages.
pub proof fn lemma_bmfont_no_pages(s: Seq<char>)
    requires
        bmfont_header(s) matches Ok((_, p)) && !literal_at(s, skip_ws(s, p), "page"@),
    ensures
        bmfont_model(s) == Err::<FontModel, LoadError>(LoadError::NoPages),
{
}

/// Within any block, a `key=` whose key the block does not have, where the block's
/// pairs end, is refused as an unexpected key.
pub proof fn lemma_unexpected_key(s: Seq<char>, p: int, b: Block, st: BuildModel)
    requires
        key_loop(s, p, b, st) matches Ok((_, q)) && assignment_at(s, q),
    ensures
        block_body(s, p, b, st) == Err::<(BuildModel, int), LoadError>(
            LoadError::UnexpectedKey { block: b },
        ),
{
}

/// A BMFont text whose `info` block ends at a `key=` of a key the block does not
/// have is refused as an unexpected key in the `info` block.
pub proof fn lemma_unexpected_info_key(s: Seq<char>)
    requires
        literal_at(s, skip_ws(s, 0), "info"@),
        key_loop(
            s,
            skip_ws(s, skip_ws(s, 0) + "info"@.len()),
            Block::Info,
            initial_build(),
        ) matches Ok((_, q)) && assignment_at(s, q),
    ensures
        bmfont_model(s) == Err::<FontModel, LoadError>(LoadError::UnexpectedKey { block: Block::Info }),
{
}

/// A BMFont text with more than whitespace after its last block is refused for
/// trailing content.
pub proof fn lemma_bmfont_trailing(s: Seq<char>)
    requires
        bmfont_text(s) matches Ok(t) && skip_ws(s, t.end) < s.len(),
    ensures
        bmfont_model(s) == Err::<FontModel, LoadError>(LoadError::TrailingContent),
{
}

/// Loads a font from the text of a BMFont `.fnt` file. Each page's image path is
/// the file name its block gives.
pub fn load(bmfont_contents: &str) -> (r: Result<BMFont, LoadError>)
    ensures
        result_matches(r, bmfont_model(bmfont_contents@)),
{
    let ghost s = bmfont_contents@;
    let mut parser = Parser::new(bmfont_contents);
    parser.skip_whitespace();
    if parser.expect("info").get().is_err() {
        return Err(LoadError::MissingBlock { block: Block::Info });
    }
    parser.skip_whitespace();
    let mut st = new_builder();
    match parse_block(&mut parser, Block::Info, &mut st) {
        Ok(()) => {},
        Err(e) => {
            return Err(e);
        },
    }
    parser.skip_whitespace();
    if parser.expect("common").get().is_err() {
        return Err(LoadError::MissingBlock { block: Block::Common });
    }
    parser.skip_whitespace();
    match parse_block(&mut parser, Block::Common, &mut st) {
        Ok(()) => {},
        Err(e) => {
            return Err(e);
        },
    }
    parser.skip_whitespace();

    let ghost p_pages = parser.pos();
    let ghost st_pages = st@;
    assert(forall|e: LoadError|
        page_blocks(s, p_pages, st_pages, Seq::empty()) == Err::<
            (BuildModel, Seq<PageModel>, int),
            LoadError,
        >(e) ==> bmfont_model(s) == Err::<FontModel, LoadError>(e));
    let mut pages: Vec<Page> = Vec::new();
    assert(pages@.map_values(|p: Page| p@) =~= Seq::<PageModel>::empty());
    let mut go = true;
    while go
        invariant
            s == bmfont_contents@,
            parser.wf(),
            parser.text() == s,
            forall|e: LoadError|
                page_blocks(s, p_pages, st_pages, Seq::empty()) == Err::<
                    (BuildModel, Seq<PageModel>, int),
                    LoadError,
                >(e) ==> bmfont_model(s) == Err::<FontModel, LoadError>(e),
            go ==> page_blocks(s, p_pages, st_pages, Seq::empty()) == page_blocks(
                s,
                parser.pos(),
                st@,
                pages@.map_values(|p: Page| p@),
            ),
            !go ==> page_blocks(s, p_pages, st_pages, Seq::empty()) == Ok::<
                (BuildModel, Seq<PageModel>, int),
                LoadError,
            >((st@, pages@.map_values(|p: Page| p@), parser.pos())),
        decreases s.len() - parser.pos() + (if go {
            1int
        } else {
            0int
        }),
    {
        let ghost p = parser.pos();
        if parser.expect("page").get().is_ok() {
            parser.skip_whitespace();
            st.page = Page { id: 0, image_path: String::new() };
            let ghost q0 = parser.pos();
            let ghost fresh = st@;
            match parse_block(&mut parser, Block::Page, &mut st) {
                Ok(()) => {},
                Err(e) => {
                    return Err(e);
                },
            }
            proof {
                reveal_strlit("page");
                lemma_skip_ws_bounds(s, p + 4);
                lemma_key_loop(s, q0, Block::Page, fresh);
                lemma_skip_ws_bounds(s, parser.pos());
            }
            let done = Page { id: st.page.id, image_path: st.page.image_path.clone() };
            let ghost before = pages@;
            pages.push(done);
            proof {
                assert(pages@.map_values(|p: Page| p@) =~= before.map_values(|p: Page| p@).push(
                    st@.page,
                ));
            }
            parser.skip_whitespace();
        } else {
            go = false;
        }
    }
    let ghost p_after = parser.pos();
    if pages.len() == 0 {
        return Err(LoadError::NoPages);
    }
    parser.skip_whitespace();
    if parser.expect("chars count=").get().is_ok() {
        if parser.expect_number(NumberKind::Unsigned).is_none() {
            return Err(LoadError::ValueParse { block: Block::Chars, field: Field::Count });
        }
    }
    parser.skip_whitespace();

    let ghost p_chars = parser.pos();
    let ghost st_chars = st@;
    assert(forall|e: LoadError|
        char_blocks(s, p_chars, st_chars, Seq::empty()) == Err::<(Seq<BMCharacter>, int), LoadError>(e)
            ==> bmfont_model(s) == Err::<FontModel, LoadError>(e));
    let mut chars: HashMap<u32, BMCharacter> = HashMap::new();
    let ghost mut rs: Seq<BMCharacter> = Seq::empty();
    let mut go = true;
    while go
        invariant
            s == bmfont_contents@,
            parser.wf(),
            parser.text() == s,
            forall|e: LoadError|
                char_blocks(s, p_chars, st_chars, Seq::empty()) == Err::<
                    (Seq<BMCharacter>, int),
                    LoadError,
                >(e) ==> bmfont_model(s) == Err::<FontModel, LoadError>(e),
            chars@ == char_map(rs),
            st@ == (BuildModel { ch: st@.ch, ..st_chars }),
            go ==> char_blocks(s, p_chars, st_chars, Seq::empty()) == char_blocks(
                s,
                parser.pos(),
                st@,
                rs,
            ),
            !go ==> char_blocks(s, p_chars, st_chars, Seq::empty()) == Ok::<
                (Seq<BMCharacter>, int),
                LoadError,
            >((rs, parser.pos())),
        decreases s.len() - parser.pos() + (if go {
            1int
        } else {
            0int
        }),
    {
        let ghost p = parser.pos();
        if parser.expect("char").get().is_ok() {
            parser.skip_whitespace();
            st.ch = blank_character();
            let ghost q0 = parser.pos();
            let ghost fresh = st@;
            match parse_block(&mut parser, Block::Char, &mut st) {
                Ok(()) => {},
                Err(e) => {
                    return Err(e);
                },
            }
            proof {
                reveal_strlit("char");
                lemma_skip_ws_bounds(s, p + 4);
                lemma_key_loop(s, q0, Block::Char, fresh);
                lemma_skip_ws_bounds(s, parser.pos());
            }
            chars.insert(st.ch.id, st.ch);
            proof {
                assert(rs.push(st.ch).drop_last() =~= rs);
                rs = rs.push(st.ch);
            }
            parser.skip_whitespace();
        } else {
            go = false;
        }
    }
    parser.skip_whitespace();
    if !parser.is_finished() {
        return Err(LoadError::TrailingContent);
    }
    let Builder { font_name, size, info, line_height, base, common, page: _, ch: _ } = st;
    Ok(
        BMFont {
            font_name,
            size,
            info_details: Some(info),
            line_height,
            base,
            common_details: Some(common),
            pages,
            chars,
        },
    )
}

} // verus!
