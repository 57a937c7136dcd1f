use crate::font::{
    char_map, lemma_char_map_finite, lemma_char_map_shift, lemma_char_map_unique,
    lemma_char_map_update, result_matches,
    shift_yoffset, unique_ids, BMCharacter, BMFont, Field, FontModel, LoadError, Page, PageModel,
};
use crate::scanner::{
    lemma_scan_ident, lemma_scan_number, lemma_skip_ws_bounds, scan_ident, scan_number, skip_ws,
    NumberKind, Parser,
};
use std::collections::HashMap;
use vstd::prelude::*;

verus! {

broadcast use vstd::std_specs::hash::group_hash_axioms;

/// A header number of the SFL text: whitespace, then an unsigned number.
pub open spec fn sfl_number(s: Seq<char>, p: int, field: Field) -> Result<(int, int), LoadError> {
    match scan_number(s, skip_ws(s, p), NumberKind::Unsigned) {
        Some(r) => Ok(r),
        None => Err(LoadError::HeaderValue { field }),
    }
}

/// One field of a character record: whitespace, then a number of the given kind.
/// The text ending first means fewer records than declared; `tag` names the record
/// in any other failure.
pub open spec fn sfl_part(
    s: Seq<char>,
    p: int,
    kind: NumberKind,
    field: Field,
    tag: u32,
    declared: u32,
    found: u32,
) -> Result<(int, int), LoadError> {
    let q = skip_ws(s, p);
    if q >= s.len() {
        Err(LoadError::CharCountMismatch { declared, found })
    } else {
        match scan_number(s, q, kind) {
            Some(r) => Ok(r),
            None => Err(LoadError::CharField { field, char_index: tag }),
        }
    }
}

/// Record number `index` of the `declared` ones, read at `p`: id, x, y, width,
/// height, xoffset, yoffset, xadvance. Page 0, channel 15.
pub open spec fn sfl_record(s: Seq<char>, p: int, declared: u32, index: u32) -> Result<
    (BMCharacter, int),
    LoadError,
> {
    let u = NumberKind::Unsigned;
    let i = NumberKind::Signed;
    match sfl_part(s, p, u, Field::Id, index, declared, index) {
        Err(e) => Err(e),
        Ok((id, p)) => {
            let t = id as u32;
            match sfl_part(s, p, u, Field::X, t, declared, index) {
                Err(e) => Err(e),
                Ok((x, p)) => match sfl_part(s, p, u, Field::Y, t, declared, index) {
                    Err(e) => Err(e),
                    Ok((y, p)) => match sfl_part(s, p, u, Field::Width, t, declared, index) {
                        Err(e) => Err(e),
                        Ok((w, p)) => match sfl_part(s, p, u, Field::Height, t, declared, index) {
                            Err(e) => Err(e),
                            Ok((h, p)) => match sfl_part(s, p, i, Field::XOffset, t, declared, index) {
                                Err(e) => Err(e),
                                Ok((xo, p)) => match sfl_part(s, p, i, Field::YOffset, t, declared, index) {
                                    Err(e) => Err(e),
                                    Ok((yo, p)) => match sfl_part(s, p, i, Field::XAdvance, t, declared, index) {
                                        Err(e) => Err(e),
                                        Ok((xa, p)) => Ok(
                                            (
                                                BMCharacter {
                                                    id: t,
                                                    x: x as u32,
                                                    y: y as u32,
                                                    width: w as u32,
                                                    height: h as u32,
                                                    xoffset: xo as i32,
                                                    yoffset: yo as i32,
                                                    xadvance: xa as i32,
                                                    page: 0,
                                                    channel: 15,
                                                },
                                                p,
                                            ),
                                        ),
                                    },
                                },
                            },
                        },
                    },
                },
            }
        },
    }
}

/// The records from number `rs.len()` on, at `p`, after those in `rs`.
pub open spec fn sfl_records(s: Seq<char>, p: int, declared: u32, rs: Seq<BMCharacter>) -> Result<
    (Seq<BMCharacter>, int),
    LoadError,
>
    decreases declared - rs.len(),
{
    if rs.len() >= declared {
        Ok((rs, p))
    } else {
        match sfl_record(s, p, declared, rs.len() as u32) {
            Err(e) => Err(e),
            Ok((c, q)) => sfl_records(s, q, declared, rs.push(c)),
        }
    }
}

/// `v` is the least yoffset of the characters in `m`.
pub open spec fn is_min_yoffset(m: Map<u32, BMCharacter>, v: int) -> bool {
    &&& exists|k: u32| m.contains_key(k) && m[k].yoffset == v
    &&& forall|k: u32| m.contains_key(k) ==> v <= m[k].yoffset
}

/// The least yoffset of the characters in `m`; 0 when there are none.
pub open spec fn min_yoffset(m: Map<u32, BMCharacter>) -> int {
    if exists|k: u32| m.contains_key(k) {
        choose|v: int| is_min_yoffset(m, v)
    } else {
        0
    }
}

/// The base and every normalised yoffset fit their types.
pub open spec fn offsets_fit(m: Map<u32, BMCharacter>, line_height: u32, min: int) -> bool {
    &&& 0 <= line_height - min <= u32::MAX
    &&& forall|k: u32| m.contains_key(k) ==> m[k].yoffset - min <= i32::MAX
}

/// What an SFL text holds up to its closing number: the header values, the
/// declared count, the character records in order, and where they end.
pub struct SflText {
    pub font_name: Seq<char>,
    pub size: int,
    pub line_height: int,
    pub image: Seq<char>,
    pub declared: u32,
    pub records: Seq<BMCharacter>,
    pub end: int,
}

/// Reads an SFL text up to its closing number: name, size and line height, image
/// file, count of character records and the records, separated by whitespace.
pub open spec fn sfl_text(s: Seq<char>) -> Result<SflText, LoadError> {
    match scan_ident(s, skip_ws(s, 0)) {
        None => Err(LoadError::MissingFontName),
        Some((font_name, p)) => match sfl_number(s, p, Field::Size) {
            Err(e) => Err(e),
            Ok((size, p)) => match sfl_number(s, p, Field::LineHeight) {
                Err(e) => Err(e),
                Ok((line_height, p)) => match scan_ident(s, skip_ws(s, p)) {
                    None => Err(LoadError::HeaderValue { field: Field::ImageFile }),
                    Some((image, p)) => match sfl_number(s, p, Field::CharCount) {
                        Err(e) => Err(e),
                        Ok((n, p)) => match sfl_records(s, p, n as u32, Seq::empty()) {
                            Err(e) => Err(e),
                            Ok((records, end)) => Ok(
                                SflText {
                                    font_name,
                                    size,
                                    line_height,
                                    image,
                                    declared: n as u32,
                                    records,
                                    end,
                                },
                            ),
                        },
                    },
                },
            },
        },
    }
}

/// The font an SFL text describes. The text ends with a closing number and nothing
/// after it but whitespace. The least yoffset is taken off every character and off
/// the line height to give the base.
pub open spec fn sfl_model(s: Seq<char>) -> Result<FontModel, LoadError> {
    match sfl_text(s) {
        Err(e) => Err(e),
        Ok(t) => {
            let m = char_map(t.records);
            let min = min_yoffset(m);
            if !offsets_fit(m, t.line_height as u32, min) {
                Err(LoadError::OffsetOutOfRange)
            } else {
                match sfl_number(s, t.end, Field::EndMarker) {
                    Err(e) => Err(e),
                    Ok((_, p)) => if skip_ws(s, p) < s.len() {
                        Err(LoadError::TrailingContent)
                    } else {
                        Ok(
                            FontModel {
                                font_name: t.font_name,
                                size: t.size as u32,
                                info: None,
                                line_height: t.line_height as u32,
                                base: (t.line_height - min) as u32,
                                common: None,
                                pages: seq![PageModel { id: 0, image_path: t.image }],
                                chars: m.map_values(|c: BMCharacter| shift_yoffset(c, min)),
                            },
                        )
                    },
                }
            }
        },
    }
}

proof fn lemma_min_yoffset(m: Map<u32, BMCharacter>, v: int)
    requires
        is_min_yoffset(m, v),
    ensures
        min_yoffset(m) == v,
{
    let w = min_yoffset(m);
    assert(is_min_yoffset(m, w));
    let k = choose|k: u32| m.contains_key(k) && m[k].yoffset == v;
    let j = choose|j: u32| m.contains_key(j) && m[j].yoffset == w;
    assert(w <= m[k].yoffset);
    assert(v <= m[j].yoffset);
}

/// A finite map with a character has a least yoffset.
proof fn lemma_min_exists(m: Map<u32, BMCharacter>)
    requires
        m.dom().finite(),
        exists|k: u32| m.contains_key(k),
    ensures
        is_min_yoffset(m, min_yoffset(m)),
    decreases m.dom().len(),
{
    let k = choose|k: u32| m.contains_key(k);
    let rest = m.remove(k);
    assert(rest.dom() =~= m.dom().remove(k));
    let v = if exists|j: u32| rest.contains_key(j) {
        lemma_min_exists(rest);
        let w = min_yoffset(rest);
        let j = choose|j: u32| rest.contains_key(j) && rest[j].yoffset == w;
        if m[k].yoffset < w {
            m[k].yoffset as int
        } else {
            assert(m.contains_key(j) && m[j].yoffset == w);
            w
        }
    } else {
        m[k].yoffset as int
    };
    assert forall|j: u32| m.contains_key(j) implies v <= m[j].yoffset by {
        if j != k {
            assert(rest.contains_key(j));
        }
    }
    assert(is_min_yoffset(m, v));
}

/// Every number an SFL text reads lies in range, and each read ends within the text.
proof fn lemma_sfl_number(s: Seq<char>, p: int, field: Field)
    requires
        0 <= p <= s.len(),
    ensures
        sfl_number(s, p, field) matches Ok((v, e)) ==> 0 <= v <= u32::MAX && p <= e <= s.len(),
{
    lemma_skip_ws_bounds(s, p);
    lemma_scan_number(s, skip_ws(s, p), NumberKind::Unsigned);
}

proof fn lemma_sfl_text_ranges(s: Seq<char>)
    ensures
        sfl_text(s) matches Ok(t) ==> 0 <= t.size <= u32::MAX && 0 <= t.line_height <= u32::MAX
            && t.records.len() == t.declared,
{
    lemma_skip_ws_bounds(s, 0);
    let start = skip_ws(s, 0);
    lemma_scan_ident(s, start);
    if let Some((_, name_end)) = scan_ident(s, start) {
        lemma_sfl_number(s, name_end, Field::Size);
        if let Ok((_, size_end)) = sfl_number(s, name_end, Field::Size) {
            lemma_sfl_number(s, size_end, Field::LineHeight);
            if let Ok((_, height_end)) = sfl_number(s, size_end, Field::LineHeight) {
                lemma_skip_ws_bounds(s, height_end);
                lemma_scan_ident(s, skip_ws(s, height_end));
                if let Some((_, image_end)) = scan_ident(s, skip_ws(s, height_end)) {
                    lemma_sfl_number(s, image_end, Field::CharCount);
                    if let Ok((n, count_end)) = sfl_number(s, image_end, Field::CharCount) {
                        lemma_sfl_records_len(s, count_end, n as u32, Seq::empty());
                    }
                }
            }
        }
    }
}

proof fn lemma_sfl_records_len(s: Seq<char>, p: int, declared: u32, rs: Seq<BMCharacter>)
    requires
        rs.len() <= declared,
    ensures
        sfl_records(s, p, declared, rs) matches Ok((all, _)) ==> all.len() == declared,
    decreases declared - rs.len(),
{
    if rs.len() < declared {
        if let Ok((c, q)) = sfl_record(s, p, declared, rs.len() as u32) {
            lemma_sfl_records_len(s, q, declared, rs.push(c));
        }
    }
}

/// In the font an SFL text describes, the base plus the least yoffset of the
/// characters as the text gives them is the line height, and each character's
/// yoffset is its yoffset in the text less that least one, so none is negative.
pub proof fn lemma_sfl_base(s: Seq<char>)
    requires
        sfl_model(s) is Ok,
    ensures
        ({
            let f = sfl_model(s)->Ok_0;
            let m = char_map(sfl_text(s)->Ok_0.records);
            &&& f.base + min_yoffset(m) == f.line_height
            &&& forall|k: u32| #[trigger]
                f.chars.contains_key(k) ==> m.contains_key(k) && 0 <= f.chars[k].yoffset
                    && f.chars[k].yoffset == m[k].yoffset - min_yoffset(m)
        }),
{
    lemma_sfl_text_ranges(s);
    let t = sfl_text(s)->Ok_0;
    let m = char_map(t.records);
    let min = min_yoffset(m);
    if exists|k: u32| m.contains_key(k) {
        lemma_char_map_finite(t.records);
        lemma_min_exists(m);
    }
    let f = sfl_model(s)->Ok_0;
    assert forall|k: u32| #[trigger] f.chars.contains_key(k) implies m.contains_key(k) && 0
        <= f.chars[k].yoffset && f.chars[k].yoffset == m[k].yoffset - min by {
        assert(m[k].yoffset - min <= i32::MAX);
        assert(min <= m[k].yoffset);
    }
}

/// An SFL text that declares no characters gives no characters, cannot fail on its
/// offsets, and has its line height as base.
pub proof fn lemma_sfl_no_chars(s: Seq<char>)
    requires
        sfl_text(s) matches Ok(t) && t.declared == 0,
    ensures
        sfl_model(s) != Err::<FontModel, LoadError>(LoadError::OffsetOutOfRange),
        sfl_model(s) matches Ok(f) ==> f.chars.dom().is_empty() && f.base == f.line_height,
{
    lemma_sfl_text_ranges(s);
    let t = sfl_text(s)->Ok_0;
    assert(t.records.len() == 0);
    let m = char_map(t.records);
    assert(!exists|k: u32| m.contains_key(k));
    assert(min_yoffset(m) == 0);
    if let Ok(f) = sfl_model(s) {
        assert(f.chars.dom() =~= Set::<u32>::empty());
    }
}

/// An SFL text that reads up to its closing number and has more than whitespace
/// after it is refused for trailing content.
pub proof fn lemma_sfl_trailing(s: Seq<char>)
    requires
        sfl_text(s) is Ok,
        offsets_fit(
            char_map(sfl_text(s)->Ok_0.records),
            sfl_text(s)->Ok_0.line_height as u32,
            min_yoffset(char_map(sfl_text(s)->Ok_0.records)),
        ),
        sfl_number(s, sfl_text(s)->Ok_0.end, Field::EndMarker) matches Ok((_, e)) && skip_ws(s, e)
            < s.len(),
    ensures
        sfl_model(s) == Err::<FontModel, LoadError>(LoadError::TrailingContent),
{
}

fn header_number(parser: &mut Parser, field: Field) -> (r: Result<u32, LoadError>)
    requires
        old(parser).wf(),
    ensures
        final(parser).wf(),
        final(parser).text() == old(parser).text(),
        match sfl_number(old(parser).text(), old(parser).pos(), field) {
            Ok((v, e)) => r == Ok::<u32, LoadError>(v as u32) && final(parser).pos() == e && 0 <= v
                <= u32::MAX,
            Err(er) => r == Err::<u32, LoadError>(er),
        },
{
    parser.skip_whitespace();
    match parser.expect_number(NumberKind::Unsigned) {
        Some(v) => Ok(v as u32),
        None => Err(LoadError::HeaderValue { field }),
    }
}

/// Reads one field of a character record.
fn parse_charpart(
    parser: &mut Parser,
    field: Field,
    kind: NumberKind,
    tag: u32,
    declared: u32,
    found: u32,
) -> (r: Result<i64, LoadError>)
    requires
        old(parser).wf(),
    ensures
        final(parser).wf(),
        final(parser).text() == old(parser).text(),
        match sfl_part(old(parser).text(), old(parser).pos(), kind, field, tag, declared, found) {
            Ok((v, e)) => r == Ok::<i64, LoadError>(v as i64) && final(parser).pos() == e
                && kind.holds(v),
            Err(er) => r == Err::<i64, LoadError>(er),
        },
{
    parser.skip_whitespace();
    if parser.is_finished() {
        return Err(LoadError::CharCountMismatch { declared, found });
    }
    match parser.expect_number(kind) {
        Some(v) => Ok(v),
        None => Err(LoadError::CharField { field, char_index: tag }),
    }
}

fn read_record(parser: &mut Parser, declared: u32, index: u32) -> (r: Result<BMCharacter, LoadError>)
    requires
        old(parser).wf(),
    ensures
        final(parser).wf(),
        final(parser).text() == old(parser).text(),
        match sfl_record(old(parser).text(), old(parser).pos(), declared, index) {
            Ok((c, e)) => r == Ok::<BMCharacter, LoadError>(c) && final(parser).pos() == e,
            Err(er) => r == Err::<BMCharacter, LoadError>(er),
        },
{
    let u = NumberKind::Unsigned;
    let i = NumberKind::Signed;
    let id = match parse_charpart(parser, Field::Id, u, index, declared, index) {
        Ok(v) => v as u32,
        Err(e) => {
            return Err(e);
        },
    };
    let x = match parse_charpart(parser, Field::X, u, id, declared, index) {
        Ok(v) => v as u32,
        Err(e) => {
            return Err(e);
        },
    };
    let y = match parse_charpart(parser, Field::Y, u, id, declared, index) {
        Ok(v) => v as u32,
        Err(e) => {
            return Err(e);
        },
    };
    let width = match parse_charpart(parser, Field::Width, u, id, declared, index) {
        Ok(v) => v as u32,
        Err(e) => {
            return Err(e);
        },
    };
    let height = match parse_charpart(parser, Field::Height, u, id, declared, index) {
        Ok(v) => v as u32,
        Err(e) => {
            return Err(e);
        },
    };
    let xoffset = match parse_charpart(parser, Field::XOffset, i, id, declared, index) {
        Ok(v) => v as i32,
        Err(e) => {
            return Err(e);
        },
    };
    let yoffset = match parse_charpart(parser, Field::YOffset, i, id, declared, index) {
        Ok(v) => v as i32,
        Err(e) => {
            return Err(e);
        },
    };
    let xadvance = match parse_charpart(parser, Field::XAdvance, i, id, declared, index) {
        Ok(v) => v as i32,
        Err(e) => {
            return Err(e);
        },
    };
    Ok(
        BMCharacter {
            id,
            x,
            y,
            width,
            height,
            xoffset,
            yoffset,
            xadvance,
            page: 0,
            channel: 15,
        },
    )
}

/// Puts `c` in place of the record with its id, or adds it at the end.
fn upsert(v: &mut Vec<BMCharacter>, c: BMCharacter)
    requires
        unique_ids(old(v)@),
    ensures
        unique_ids(final(v)@),
        char_map(final(v)@) == char_map(old(v)@).insert(c.id, c),
{
    let ghost v0 = v@;
    let mut i: usize = 0;
    while i < v.len() && v[i].id != c.id
        invariant
            v@ == v0,
            i <= v.len(),
            forall|j: int| 0 <= j < i ==> v0[j].id != c.id,
        decreases v.len() - i,
    {
        i = i + 1;
    }
    if i < v.len() {
        proof {
            lemma_char_map_update(v0, i as int, c);
        }
        v.set(i, c);
        proof {
            assert forall|a: int, b: int| 0 <= a < b < v@.len() implies v@[a].id != v@[b].id by {
                assert(v@[a].id == v0[a].id && v@[b].id == v0[b].id);
            }
        }
    } else {
        v.push(c);
        proof {
            assert(v@.drop_last() =~= v0);
        }
    }
}

/// Loads a font from the text of an SFL file. The page's image path is the file
/// name the text gives.
pub fn load(sfl_contents: &str) -> (r: Result<BMFont, LoadError>)
    ensures
        result_matches(r, sfl_model(sfl_contents@)),
{
    let ghost s = sfl_contents@;
    let mut parser = Parser::new(sfl_contents);
    parser.skip_whitespace();
    let font_name = match parser.expect_ident() {
        Some(n) => n,
        None => {
            return Err(LoadError::MissingFontName);
        },
    };
    let size = match header_number(&mut parser, Field::Size) {
        Ok(v) => v,
        Err(e) => {
            return Err(e);
        },
    };
    let line_height = match header_number(&mut parser, Field::LineHeight) {
        Ok(v) => v,
        Err(e) => {
            return Err(e);
        },
    };
    parser.skip_whitespace();
    let image_name = match parser.expect_ident() {
        Some(n) => n,
        None => {
            return Err(LoadError::HeaderValue { field: Field::ImageFile });
        },
    };
    let char_amount = match header_number(&mut parser, Field::CharCount) {
        Ok(v) => v,
        Err(e) => {
            return Err(e);
        },
    };
    let ghost p_records = parser.pos();
    assert(forall|e: LoadError|
        sfl_records(s, p_records, char_amount, Seq::empty()) == Err::<
            (Seq<BMCharacter>, int),
            LoadError,
        >(e) ==> sfl_model(s) == Err::<FontModel, LoadError>(e));

    // The records, one per id: a later record of an id replaces the earlier one.
    let mut uniq: Vec<BMCharacter> = Vec::new();
    let ghost mut rs: Seq<BMCharacter> = Seq::empty();
    let mut idx: u32 = 0;
    while idx < char_amount
        invariant
            s == sfl_contents@,
            parser.wf(),
            parser.text() == s,
            idx <= char_amount,
            rs.len() == idx,
            sfl_records(s, p_records, char_amount, Seq::empty()) == sfl_records(
                s,
                parser.pos(),
                char_amount,
                rs,
            ),
            unique_ids(uniq@),
            char_map(uniq@) == char_map(rs),
            forall|e: LoadError|
                sfl_records(s, p_records, char_amount, Seq::empty()) == Err::<
                    (Seq<BMCharacter>, int),
                    LoadError,
                >(e) ==> sfl_model(s) == Err::<FontModel, LoadError>(e),
        decreases char_amount - idx,
    {
        let ghost before = parser.pos();
        let c = match read_record(&mut parser, char_amount, idx) {
            Ok(c) => c,
            Err(e) => {
                assert(sfl_records(s, before, char_amount, rs) == Err::<
                    (Seq<BMCharacter>, int),
                    LoadError,
                >(e));
                return Err(e);
            },
        };
        upsert(&mut uniq, c);
        proof {
            assert(rs.push(c).drop_last() =~= rs);
            rs = rs.push(c);
        }
        idx = idx + 1;
    }
    let ghost m = char_map(rs);
    let ghost p_end = parser.pos();
    assert(sfl_records(s, p_records, char_amount, Seq::empty()) == Ok::<
        (Seq<BMCharacter>, int),
        LoadError,
    >((rs, p_end)));
    proof {
        lemma_char_map_unique(uniq@);
    }

    // The least yoffset.
    let mut min_y: i32 = 0;
    let mut i: usize = 0;
    while i < uniq.len()
        invariant
            i <= uniq.len(),
            i > 0 ==> exists|j: int| 0 <= j < i && uniq@[j].yoffset == min_y,
            i == 0 ==> min_y == 0,
            forall|j: int| 0 <= j < i ==> min_y <= uniq@[j].yoffset,
        decreases uniq.len() - i,
    {
        if i == 0 || uniq[i].yoffset < min_y {
            min_y = uniq[i].yoffset;
        }
        i = i + 1;
    }
    proof {
        if uniq@.len() > 0 {
            let j = choose|j: int| 0 <= j < uniq@.len() && uniq@[j].yoffset == min_y;
            assert(m.contains_key(uniq@[j].id));
            assert forall|k: u32| m.contains_key(k) implies min_y <= m[k].yoffset by {
                let a = choose|a: int| 0 <= a < uniq@.len() && uniq@[a].id == k;
                assert(m[uniq@[a].id] == uniq@[a]);
            }
            lemma_min_yoffset(m, min_y as int);
        } else {
            assert(!exists|k: u32| m.contains_key(k)) by {
                if exists|k: u32| m.contains_key(k) {
                    let k = choose|k: u32| m.contains_key(k);
                    let a = choose|a: int| 0 <= a < uniq@.len() && uniq@[a].id == k;
                }
            }
        }
        assert(min_yoffset(m) == min_y);
    }

    // The base and the normalised offsets must fit their types.
    assert(!offsets_fit(m, line_height, min_y as int) ==> sfl_model(s) == Err::<FontModel, LoadError>(
        LoadError::OffsetOutOfRange,
    ));
    let base_wide: i64 = line_height as i64 - min_y as i64;
    if base_wide < 0 || base_wide > 0xFFFF_FFFF {
        return Err(LoadError::OffsetOutOfRange);
    }
    let mut i: usize = 0;
    while i < uniq.len()
        invariant
            s == sfl_contents@,
            i <= uniq.len(),
            unique_ids(uniq@),
            m == char_map(uniq@),
            forall|j: int| 0 <= j < i ==> uniq@[j].yoffset - min_y <= i32::MAX,
            !offsets_fit(m, line_height, min_y as int) ==> sfl_model(s) == Err::<FontModel, LoadError>(
                LoadError::OffsetOutOfRange,
            ),
        decreases uniq.len() - i,
    {
        if uniq[i].yoffset as i64 - min_y as i64 > 0x7FFF_FFFF {
            proof {
                lemma_char_map_unique(uniq@);
                assert(m.contains_key(uniq@[i as int].id));
                assert(!offsets_fit(m, line_height, min_y as int));
            }
            return Err(LoadError::OffsetOutOfRange);
        }
        i = i + 1;
    }
    proof {
        assert forall|k: u32| m.contains_key(k) implies m[k].yoffset - min_y <= i32::MAX by {
            let a = choose|a: int| 0 <= a < uniq@.len() && uniq@[a].id == k;
            assert(m[uniq@[a].id] == uniq@[a]);
        }
    }
    let base = base_wide as u32;

    // Every yoffset moved down by the least one.
    let ghost shifted = uniq@.map_values(|c: BMCharacter| shift_yoffset(c, min_y as int));
    let mut chars: HashMap<u32, BMCharacter> = HashMap::new();
    let mut i: usize = 0;
    while i < uniq.len()
        invariant
            i <= uniq.len(),
            shifted == uniq@.map_values(|c: BMCharacter| shift_yoffset(c, min_y as int)),
            forall|j: int| 0 <= j < uniq@.len() ==> uniq@[j].yoffset - min_y <= i32::MAX,
            forall|j: int| 0 <= j < uniq@.len() ==> min_y <= uniq@[j].yoffset,
            chars@ == char_map(shifted.subrange(0, i as int)),
        decreases uniq.len() - i,
    {
        let c = uniq[i];
        let n = BMCharacter { yoffset: (c.yoffset as i64 - min_y as i64) as i32, ..c };
        chars.insert(n.id, n);
        proof {
            assert(n == shifted[i as int]);
            assert(shifted.subrange(0, i + 1).drop_last() =~= shifted.subrange(0, i as int));
        }
        i = i + 1;
    }
    proof {
        assert(shifted.subrange(0, uniq@.len() as int) =~= shifted);
        lemma_char_map_shift(uniq@, min_y as int);
    }

    match header_number(&mut parser, Field::EndMarker) {
        Ok(_) => {},
        Err(e) => {
            return Err(e);
        },
    }
    parser.skip_whitespace();
    if !parser.is_finished() {
        return Err(LoadError::TrailingContent);
    }
    let pages = vec![Page { id: 0, image_path: image_name }];
    let font = BMFont {
        font_name,
        size,
        info_details: None,
        line_height,
        base,
        common_details: None,
        pages,
        chars,
    };
    proof {
        assert(font.pages@.map_values(|p: Page| p@) =~= seq![
            PageModel { id: 0, image_path: font.pages@[0].image_path@ },
        ]);

    }
    Ok(font)
}

} // verus!
