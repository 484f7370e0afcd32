use vstd::prelude::*;

verus! {

use crate::AsciiArtError;
use crate::text::str_eq;

/// One font record: for each ASCII code 32..=126 (index `code - 32`) a
/// measured ink intensity and a shape deviation.
pub struct Font {
    pub name: String,
    pub charIntensity: Vec<u8>,
    pub charDeviation: Vec<u8>,
}

/// A well-formed font covers exactly the 95 printable ASCII characters.
pub open spec fn font_wf(f: Font) -> bool {
    &&& f.charIntensity@.len() == 95
    &&& f.charDeviation@.len() == 95
}

/// The first font of the list carrying the given name, if any.
pub open spec fn find_font(fonts: Seq<Font>, name: Seq<char>) -> Option<Font>
    decreases fonts.len(),
{
    if fonts.len() == 0 {
        None
    } else if fonts[0].name@ == name {
        Some(fonts[0])
    } else {
        find_font(fonts.drop_first(), name)
    }
}

proof fn lemma_find_font_step(fonts: Seq<Font>, name: Seq<char>, i: int)
    requires
        0 <= i < fonts.len(),
        forall|k: int| 0 <= k < i ==> fonts[k].name@ != name,
    ensures
        find_font(fonts, name) == if fonts[i].name@ == name {
            Some(fonts[i])
        } else {
            find_font(fonts.skip(i + 1), name)
        },
    decreases i,
{
    if i == 0 {
        assert(fonts.drop_first() =~= fonts.skip(1));
    } else {
        assert(fonts.drop_first() =~= fonts.skip(1));
        lemma_find_font_step(fonts.skip(1), name, i - 1);
        assert(fonts.skip(1)[i - 1] == fonts[i]);
        assert(fonts.skip(1).skip(i) =~= fonts.skip(i + 1));
    }
}

/// The set of fonts available to the generator, loaded once and read-only.
pub struct AsciiGenerator {
    pub fonts: Vec<Font>,
}

impl AsciiGenerator {
    /// Every font of the catalog is well formed.
    pub open spec fn wf(&self) -> bool {
        forall|i: int| 0 <= i < self.fonts@.len() ==> #[trigger] font_wf(self.fonts@[i])
    }

    /// Accepts a parsed catalog, rejecting records whose intensity or
    /// deviation tables do not cover the 95 printable ASCII characters.
    pub fn new(fonts: Vec<Font>) -> (r: Result<AsciiGenerator, AsciiArtError>)
        ensures
            match r {
                Ok(g) => g.wf() && g.fonts@ == fonts@,
                Err(e) => {
                    &&& e == AsciiArtError::CatalogParseError
                    &&& exists|i: int| 0 <= i < fonts@.len() && !#[trigger] font_wf(fonts@[i])
                },
            },
    {
        let n = fonts.len();
        for i in 0..n
            invariant
                n == fonts@.len(),
                forall|k: int| 0 <= k < i ==> #[trigger] font_wf(fonts@[k]),
        {
            if fonts[i].charIntensity.len() != 95 || fonts[i].charDeviation.len() != 95 {
                proof {
                    assert(!font_wf(fonts@[i as int]));
                }
                return Err(AsciiArtError::CatalogParseError);
            }
        }
        Ok(AsciiGenerator { fonts })
    }

    /// Looks a font up by name; the first record with that name wins.
    pub fn find(&self, font: &str) -> (r: Result<&Font, AsciiArtError>)
        ensures
            match r {
                Ok(f) => find_font(self.fonts@, font@) == Some(*f),
                Err(e) => e == AsciiArtError::FontNotFound && find_font(self.fonts@, font@)
                    is None,
            },
    {
        let n = self.fonts.len();
        for i in 0..n
            invariant
                n == self.fonts@.len(),
                forall|k: int| 0 <= k < i ==> self.fonts@[k].name@ != font@,
        {
            if str_eq(self.fonts[i].name.as_str(), font) {
                proof {
                    lemma_find_font_step(self.fonts@, font@, i as int);
                }
                return Ok(&self.fonts[i]);
            }
        }
        proof {
            if self.fonts@.len() > 0 {
                lemma_find_font_step(self.fonts@, font@, n as int - 1);
                assert(self.fonts@.skip(n as int) =~= Seq::<Font>::empty());
            }
        }
        Err(AsciiArtError::FontNotFound)
    }
}

} // verus!
