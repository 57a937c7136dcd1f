use crate::bmfont_parser::{self, bmfont_model};
use crate::font::{result_matches, BMFont, FontModel, Format, LoadError, Page, PageModel};
use crate::sfl_parser::{self, sfl_model};
use vstd::prelude::*;

verus! {

/// The font a text in the given format describes.
pub open spec fn format_model(format: Format, s: Seq<char>) -> Result<FontModel, LoadError> {
    match format {
        Format::SFL => sfl_model(s),
        Format::BMFont => bmfont_model(s),
    }
}

/// `m` with page `i` showing image `paths[i]`.
pub open spec fn with_image_paths(m: FontModel, paths: Seq<Seq<char>>) -> FontModel {
    FontModel {
        pages: m.pages.map(|i: int, p: PageModel| PageModel { image_path: paths[i], ..p }),
        ..m
    }
}

/// The font a text describes, with one given image path per page.
pub open spec fn loaded_model(format: Format, s: Seq<char>, paths: Seq<Seq<char>>) -> Result<
    FontModel,
    LoadError,
> {
    match format_model(format, s) {
        Err(e) => Err(e),
        Ok(m) => if m.pages.len() != paths.len() {
            Err(
                LoadError::ImagePathCount {
                    pages: m.pages.len() as usize,
                    paths: paths.len() as usize,
                },
            )
        } else {
            Ok(with_image_paths(m, paths))
        },
    }
}

/// Two load results are the same font, or the same error.
pub open spec fn same_result(a: Result<BMFont, LoadError>, b: Result<BMFont, LoadError>) -> bool {
    match (a, b) {
        (Ok(x), Ok(y)) => x@ == y@,
        (Err(x), Err(y)) => x == y,
        _ => false,
    }
}

/// Loading one text twice in one format gives the same font or the same error: a
/// load depends on nothing but the text.
pub proof fn lemma_load_deterministic(
    format: Format,
    s: Seq<char>,
    a: Result<BMFont, LoadError>,
    b: Result<BMFont, LoadError>,
)
    requires
        result_matches(a, format_model(format, s)),
        result_matches(b, format_model(format, s)),
    ensures
        same_result(a, b),
{
}

impl BMFont {
    /// Loads a font from text already in memory, in the given format. `image_path`
    /// gives the image of each page, in page order: exactly one per page.
    pub fn from_loaded(format: &Format, contents: &str, image_path: &[&str]) -> (r: Result<
        BMFont,
        LoadError,
    >)
        ensures
            result_matches(
                r,
                loaded_model(*format, contents@, image_path@.map_values(|p: &str| p@)),
            ),
    {
        let parsed = match format {
            Format::SFL => sfl_parser::load(contents),
            Format::BMFont => bmfont_parser::load(contents),
        };
        let font = match parsed {
            Ok(f) => f,
            Err(e) => {
                return Err(e);
            },
        };
        if font.pages.len() != image_path.len() {
            return Err(
                LoadError::ImagePathCount { pages: font.pages.len(), paths: image_path.len() },
            );
        }
        let ghost paths = image_path@.map_values(|p: &str| p@);
        let ghost m = font@;
        let BMFont {
            font_name,
            size,
            info_details,
            line_height,
            base,
            common_details,
            pages: old_pages,
            chars,
        } = font;
        let mut pages: Vec<Page> = Vec::new();
        let mut i: usize = 0;
        while i < old_pages.len()
            invariant
                i <= old_pages.len(),
                old_pages.len() == image_path.len(),
                paths == image_path@.map_values(|p: &str| p@),
                m.pages == old_pages@.map_values(|p: Page| p@),
                pages@.map_values(|p: Page| p@) == with_image_paths(m, paths).pages.subrange(
                    0,
                    i as int,
                ),
            decreases old_pages.len() - i,
        {
            let page = Page { id: old_pages[i].id, image_path: image_path[i].to_owned() };
            let ghost before = pages@;
            proof {
                assert(m.pages[i as int] == old_pages@[i as int]@);
                assert(paths[i as int] == image_path@[i as int]@);
                assert(page@ == with_image_paths(m, paths).pages[i as int]);
            }
            pages.push(page);
            proof {
                assert(pages@.map_values(|p: Page| p@) =~= before.map_values(|p: Page| p@).push(
                    page@,
                ));
                assert(pages@.map_values(|p: Page| p@) =~= with_image_paths(
                    m,
                    paths,
                ).pages.subrange(0, i + 1));
            }
            i = i + 1;
        }
        let font = BMFont {
            font_name,
            size,
            info_details,
            line_height,
            base,
            common_details,
            pages,
            chars,
        };
        proof {
            assert(with_image_paths(m, paths).pages.subrange(0, i as int) =~= with_image_paths(
                m,
                paths,
            ).pages);
        }
        Ok(font)
    }
}

} // verus!
