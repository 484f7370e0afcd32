use vstd::prelude::*;

verus! {

use crate::AsciiArtError;
use crate::catalog::{AsciiGenerator, Font, find_font};
use crate::chars::{Char, char_le};
use crate::dither::{dither, flat_grid, in_palette};
use crate::ramp::{
    err_cases,
    is_nearest,
    nearest_val,
    quant_from_table,
    ramp_built,
    ramp_from_table,
    scaled_positions,
    strictly_increasing,
    table_intensities,
};
use crate::raster::grid_wf;
use crate::table::{has_intensity, is_candidate, table_wf};
use crate::utils::AsciiColorMap;

/// `art` is `g` rendered through `ramp`: one glyph per pixel.
pub open spec fn converted_via(
    f: Font,
    chosen: Seq<char>,
    ramp: Seq<u8>,
    g: Seq<Seq<u8>>,
    art: Seq<Seq<u8>>,
) -> bool {
    &&& ramp_built(f, chosen, ramp)
    &&& art.len() == g.len()
    &&& forall|y: int| 0 <= y < g.len() ==> (#[trigger] art[y]).len() == g[y].len()
    &&& forall|y: int, x: int|
        0 <= y < g.len() && 0 <= x < g[y].len() ==> #[trigger] art[y][x] == ramp[g[y][x] as int]
}

pub open spec fn converted(f: Font, chosen: Seq<char>, g: Seq<Seq<u8>>, art: Seq<Seq<u8>>) -> bool {
    exists|ramp: Seq<u8>| #[trigger] converted_via(f, chosen, ramp, g, art)
}

/// `id` is the glyph of the table entry whose intensity is `v`.
pub open spec fn glyph_at(t: Seq<Char>, v: u8, id: u8) -> bool {
    exists|k: int| 0 <= k < t.len() && #[trigger] t[k].intensity == v && t[k].id == id
}

/// `art` is `g` dithered against the table `t` and mapped through its
/// intensity-to-glyph map: `dith` is the intermediate error-diffused raster.
pub open spec fn dither_converted_via(
    f: Font,
    chosen: Seq<char>,
    t: Seq<Char>,
    dith: Seq<Seq<u8>>,
    g: Seq<Seq<u8>>,
    art: Seq<Seq<u8>>,
) -> bool {
    &&& table_wf(f, chosen, t)
    &&& 2 <= t.len()
    &&& dith.len() == g.len()
    &&& forall|y: int| 0 <= y < g.len() ==> (#[trigger] dith[y]).len() == g[y].len()
    &&& forall|y: int, x: int|
        0 <= y < dith.len() && 0 <= x < dith[y].len() ==> has_intensity(
            t,
            #[trigger] dith[y][x] as int,
        )
    &&& forall|a: u8|
        flat_grid(g, a) && nearest_val(
            scaled_positions(t),
            table_intensities(t),
            a as int,
            a,
        ) ==> dith == g
    &&& art.len() == dith.len()
    &&& forall|y: int| 0 <= y < dith.len() ==> (#[trigger] art[y]).len() == dith[y].len()
    &&& forall|y: int, x: int|
        0 <= y < dith.len() && 0 <= x < dith[y].len() ==> glyph_at(
            t,
            dith[y][x],
            #[trigger] art[y][x],
        )
}

pub open spec fn dither_converted(
    f: Font,
    chosen: Seq<char>,
    g: Seq<Seq<u8>>,
    art: Seq<Seq<u8>>,
) -> bool {
    exists|t: Seq<Char>, dith: Seq<Seq<u8>>| #[trigger] dither_converted_via(
        f,
        chosen,
        t,
        dith,
        g,
        art,
    )
}

impl AsciiGenerator {
    /// Renders a grayscale raster as a glyph grid: each pixel is looked up
    /// in the 256-entry ramp built for the font and chosen characters.
    pub fn convert(&self, font: &str, chars: &str, img: &Vec<Vec<u8>>) -> (r: Result<
        Vec<Vec<u8>>,
        AsciiArtError,
    >)
        requires
            self.wf(),
        ensures
            match r {
                Ok(art) => find_font(self.fonts@, font@) is Some && converted(
                    find_font(self.fonts@, font@)->Some_0,
                    chars@,
                    img.deep_view(),
                    art.deep_view(),
                ),
                Err(e) => err_cases(self.fonts@, font@, chars@, e),
            },
    {
        let ramp = match self.getWeightedRamp(font, chars) {
            Ok(rp) => rp,
            Err(e) => { return Err(e); },
        };
        let ghost f = find_font(self.fonts@, font@)->Some_0;
        proof {
            let t = choose|t: Seq<Char>| #[trigger] ramp_from_table(f, chars@, t, ramp@);
            assert(ramp@.len() == 256);
        }
        let h = img.len();
        let mut art: Vec<Vec<u8>> = Vec::new();
        let mut y: usize = 0;
        while y < h
            invariant
                h == img@.len(),
                y <= h,
                ramp@.len() == 256,
                art.deep_view().len() == y,
                forall|a: int|
                    0 <= a < y ==> (#[trigger] art.deep_view()[a]).len() == img.deep_view()[a].len(),
                forall|a: int, b: int|
                    0 <= a < y && 0 <= b < img.deep_view()[a].len()
                        ==> #[trigger] art.deep_view()[a][b] == ramp@[img.deep_view()[a][b] as int],
            decreases h - y,
        {
            let w = img[y].len();
            let mut row: Vec<u8> = Vec::new();
            let mut x: usize = 0;
            while x < w
                invariant
                    h == img@.len(),
                    y < h,
                    w == img@[y as int]@.len(),
                    x <= w,
                    ramp@.len() == 256,
                    row@.len() == x,
                    forall|b: int|
                        0 <= b < x ==> #[trigger] row@[b] == ramp@[img.deep_view()[y as int][b] as int],
                decreases w - x,
            {
                let p = img[y][x];
                proof {
                    assert(img.deep_view()[y as int][x as int] == img@[y as int]@[x as int]);
                }
                row.push(ramp[p as usize]);
                x += 1;
            }
            let ghost preo = art.deep_view();
            art.push(row);
            proof {
                assert forall|a: int| 0 <= a < y implies #[trigger] art.deep_view()[a] == preo[a] by {};
                assert(art.deep_view()[y as int] =~= row@);
                assert(img.deep_view()[y as int].len() == img@[y as int]@.len());
            }
            y += 1;
        }
        proof {
            assert(converted_via(f, chars@, ramp@, img.deep_view(), art.deep_view()));
        }
        Ok(art)
    }

    /// Renders a grayscale raster as a glyph grid with error-diffusion
    /// dithering: the raster is quantized to the achievable intensities and
    /// each dithered pixel is mapped to the glyph of its intensity.
    #[verifier::rlimit(100)]
    pub fn convertWithDither(&self, font: &str, chars: &str, img: &Vec<Vec<u8>>) -> (r: Result<
        Vec<Vec<u8>>,
        AsciiArtError,
    >)
        requires
            self.wf(),
            grid_wf(img.deep_view()),
        ensures
            match r {
                Ok(art) => find_font(self.fonts@, font@) is Some && dither_converted(
                    find_font(self.fonts@, font@)->Some_0,
                    chars@,
                    img.deep_view(),
                    art.deep_view(),
                ),
                Err(e) => err_cases(self.fonts@, font@, chars@, e),
            },
    {
        let pair = match self.getIntensityDistAndCharMap(font, chars) {
            Ok(p) => p,
            Err(e) => { return Err(e); },
        };
        let (intensityMap, charMap) = pair;
        let ghost f = find_font(self.fonts@, font@)->Some_0;
        let ghost t = choose|t: Seq<Char>| #[trigger] quant_from_table(
            f,
            chars@,
            t,
            intensityMap@,
            charMap@,
        );
        let ghost m = intensityMap@;
        let dithered = dither_quantized(img, intensityMap, Ghost(t));
        let ghost dith = dithered.deep_view();
        let art = match map_glyphs(&dithered, &charMap, Ghost(t)) {
            Ok(a) => a,
            Err(e) => { return Err(e); },
        };
        proof {
            assert(dither_converted_via(f, chars@, t, dith, img.deep_view(), art.deep_view()));
        }
        Ok(art)
    }
}

/// Clones the raster and error-diffuses it against the quantization table:
/// the result holds only achievable intensities, and a flat raster at a
/// fixed point of the quantization is returned unchanged.
fn dither_quantized(img: &Vec<Vec<u8>>, intensityMap: Vec<u8>, Ghost(t): Ghost<Seq<Char>>) -> (d:
    Vec<Vec<u8>>)
    requires
        grid_wf(img.deep_view()),
        intensityMap@.len() == 256,
        2 <= t.len(),
        forall|k: int, l: int|
            0 <= k < l < t.len() ==> #[trigger] t[k].intensity < #[trigger] t[l].intensity,
        forall|g: int|
            0 <= g < 256 ==> nearest_val(
                scaled_positions(t),
                table_intensities(t),
                g,
                #[trigger] intensityMap@[g],
            ),
    ensures
        d.deep_view().len() == img.deep_view().len(),
        forall|y: int|
            0 <= y < img.deep_view().len() ==> (#[trigger] d.deep_view()[y]).len()
                == img.deep_view()[y].len(),
        forall|y: int, x: int|
            0 <= y < d.deep_view().len() && 0 <= x < d.deep_view()[y].len() ==> has_intensity(
                t,
                #[trigger] d.deep_view()[y][x] as int,
            ),
        forall|a: u8|
            flat_grid(img.deep_view(), a) && nearest_val(
                scaled_positions(t),
                table_intensities(t),
                a as int,
                a,
            ) ==> d.deep_view() == img.deep_view(),
{
    let ghost m = intensityMap@;
    let ascColorMap = AsciiColorMap::new(intensityMap);
    let mut imgClone = img.clone();
    proof {
        assert(imgClone.deep_view() =~~= img.deep_view());
    }
    dither(&mut imgClone, &ascColorMap);
    proof {
        lemma_dith_cells_achievable(t, m, imgClone.deep_view());
        assert forall|a: u8|
            flat_grid(img.deep_view(), a) && nearest_val(
                scaled_positions(t),
                table_intensities(t),
                a as int,
                a,
            ) implies imgClone.deep_view() == img.deep_view() by {
            lemma_palette_fixpoint(t, m, a);
        };
    }
    imgClone
}

/// Maps each dithered pixel to the glyph registered for its intensity.
fn map_glyphs(imgd: &Vec<Vec<u8>>, charMap: &Vec<Option<u8>>, Ghost(t): Ghost<Seq<Char>>) -> (r:
    Result<Vec<Vec<u8>>, AsciiArtError>)
    requires
        charMap@.len() == 256,
        forall|k: int|
            0 <= k < t.len() ==> charMap@[#[trigger] t[k].intensity as int] == Some(t[k].id),
        forall|y: int, x: int|
            0 <= y < imgd.deep_view().len() && 0 <= x < imgd.deep_view()[y].len() ==> has_intensity(
                t,
                #[trigger] imgd.deep_view()[y][x] as int,
            ),
    ensures
        r is Ok,
        ({
            let art = r->Ok_0;
            &&& art.deep_view().len() == imgd.deep_view().len()
            &&& forall|y: int|
                0 <= y < imgd.deep_view().len() ==> (#[trigger] art.deep_view()[y]).len()
                    == imgd.deep_view()[y].len()
            &&& forall|y: int, x: int|
                0 <= y < imgd.deep_view().len() && 0 <= x < imgd.deep_view()[y].len() ==> glyph_at(
                    t,
                    imgd.deep_view()[y][x],
                    #[trigger] art.deep_view()[y][x],
                )
        }),
{
    let ghost dith = imgd.deep_view();
    let h = imgd.len();
    let mut art: Vec<Vec<u8>> = Vec::new();
    let mut y: usize = 0;
    while y < h
        invariant
            h == imgd@.len() == dith.len(),
            dith == imgd.deep_view(),
            y <= h,
            charMap@.len() == 256,
            forall|y2: int, x2: int|
                0 <= y2 < dith.len() && 0 <= x2 < dith[y2].len() ==> has_intensity(
                    t,
                    #[trigger] dith[y2][x2] as int,
                ),
            forall|k: int|
                0 <= k < t.len() ==> charMap@[#[trigger] t[k].intensity as int] == Some(t[k].id),
            art.deep_view().len() == y,
            forall|a: int| 0 <= a < y ==> (#[trigger] art.deep_view()[a]).len() == dith[a].len(),
            forall|a: int, b: int|
                0 <= a < y && 0 <= b < dith[a].len() ==> glyph_at(
                    t,
                    dith[a][b],
                    #[trigger] art.deep_view()[a][b],
                ),
        decreases h - y,
    {
        let w = imgd[y].len();
        let mut row: Vec<u8> = Vec::new();
        let mut x: usize = 0;
        while x < w
            invariant
                h == imgd@.len() == dith.len(),
                dith == imgd.deep_view(),
                y < h,
                w == imgd@[y as int]@.len(),
                x <= w,
                charMap@.len() == 256,
                forall|y2: int, x2: int|
                    0 <= y2 < dith.len() && 0 <= x2 < dith[y2].len() ==> has_intensity(
                        t,
                        #[trigger] dith[y2][x2] as int,
                    ),
                forall|k: int|
                    0 <= k < t.len() ==> charMap@[#[trigger] t[k].intensity as int] == Some(
                        t[k].id,
                    ),
                row@.len() == x,
                forall|b: int| 0 <= b < x ==> glyph_at(t, dith[y as int][b], #[trigger] row@[b]),
            decreases w - x,
        {
            let p = imgd[y][x];
            proof {
                assert(dith[y as int][x as int] == imgd@[y as int]@[x as int]);
                assert(has_intensity(t, p as int));
                let k = choose|k: int| 0 <= k < t.len() && #[trigger] t[k].intensity == p as int;
                assert(charMap@[p as int] == Some(t[k].id));
            }
            match charMap[p as usize] {
                Some(id) => {
                    row.push(id);
                    proof {
                        let k = choose|k: int|
                            0 <= k < t.len() && #[trigger] t[k].intensity == p as int;
                        assert(t[k].id == id);
                        assert(glyph_at(t, p, id));
                    }
                },
                None => {
                    proof {
                        assert(false);
                    }
                    return Err(AsciiArtError::CharMissingForIntensity);
                },
            }
            x += 1;
        }
        let ghost preo = art.deep_view();
        art.push(row);
        proof {
            assert forall|a: int| 0 <= a < y implies #[trigger] art.deep_view()[a] == preo[a] by {};
            assert(art.deep_view()[y as int] =~= row@);
            assert(dith[y as int].len() == imgd@[y as int]@.len());
        }
        y += 1;
    }
    Ok(art)
}

/// Two well-formed glyph tables for the same font and chosen characters are
/// the same table: the construction is deterministic.
pub proof fn lemma_table_unique(f: Font, chosen: Seq<char>, t1: Seq<Char>, t2: Seq<Char>)
    requires
        table_wf(f, chosen, t1),
        table_wf(f, chosen, t2),
    ensures
        t1 == t2,
{
    assert(t1.take(0) =~= t2.take(0));
    lemma_table_unique_from(f, chosen, t1, t2, 0);
}

#[verifier::rlimit(100)]
proof fn lemma_table_unique_from(f: Font, chosen: Seq<char>, t1: Seq<Char>, t2: Seq<Char>, k: int)
    requires
        table_wf(f, chosen, t1),
        table_wf(f, chosen, t2),
        0 <= k <= t1.len(),
        k <= t2.len(),
        t1.take(k) == t2.take(k),
    ensures
        t1 == t2,
    decreases t1.len() - k,
{
    if k == t1.len() && k == t2.len() {
        assert(t1 =~= t1.take(k));
        assert(t2 =~= t2.take(k));
    } else if k < t1.len() {
        assert(is_candidate(f, chosen, t1[k]));
        assert(has_intensity(t2, t1[k].intensity as int));
        let l = choose|l: int| 0 <= l < t2.len() && #[trigger] t2[l].intensity == t1[k].intensity as int;
        if l < k {
            assert(t2.take(k)[l] == t2[l] && t1.take(k)[l] == t1[l]);
            assert(t1[l] == t2[l]);
            assert(t1[l].intensity < t1[k].intensity);
            assert(t1[l].intensity == t1[k].intensity as int);
            assert(false);
        }
        assert(k < t2.len());
        assert(is_candidate(f, chosen, t2[k]));
        assert(has_intensity(t1, t2[k].intensity as int));
        let m = choose|m: int| 0 <= m < t1.len() && #[trigger] t1[m].intensity == t2[k].intensity as int;
        if m < k {
            assert(t1.take(k)[m] == t1[m] && t2.take(k)[m] == t2[m]);
            assert(t1[m] == t2[m]);
            assert(t2[m].intensity < t2[k].intensity);
            assert(t2[m].intensity == t2[k].intensity as int);
            assert(false);
        }
        if k < l {
            assert(t2[k].intensity < t2[l].intensity);
        }
        if k < m {
            assert(t1[k].intensity < t1[m].intensity);
        }
        assert(t1[k].intensity == t2[k].intensity);
        assert(char_le(t1[k], t2[k]));
        assert(char_le(t2[k], t1[k]));
        assert(t1[k] == t2[k]);
        assert(t1.take(k + 1) =~= t2.take(k + 1));
        lemma_table_unique_from(f, chosen, t1, t2, k + 1);
    } else {
        assert(k < t2.len());
        assert(is_candidate(f, chosen, t2[k]));
        assert(has_intensity(t1, t2[k].intensity as int));
        let m = choose|m: int| 0 <= m < t1.len() && #[trigger] t1[m].intensity == t2[k].intensity as int;
        assert(t1.take(k)[m] == t1[m] && t2.take(k)[m] == t2[m]);
        assert(t1[m] == t2[m]);
        assert(t2[m].intensity < t2[k].intensity);
        assert(t2[m].intensity == t2[k].intensity as int);
        assert(false);
    }
}

/// Dithering a uniform raster whose value is a fixed point of the
/// quantization gives exactly the glyph grid of the plain conversion: with
/// dithering on or off the output is the same.
#[verifier::rlimit(100)]
pub proof fn lemma_flat_dither_matches_convert(
    f: Font,
    chosen: Seq<char>,
    t: Seq<Char>,
    ramp: Seq<u8>,
    dith: Seq<Seq<u8>>,
    g: Seq<Seq<u8>>,
    art1: Seq<Seq<u8>>,
    art2: Seq<Seq<u8>>,
    a: u8,
)
    requires
        ramp_from_table(f, chosen, t, ramp),
        converted_via(f, chosen, ramp, g, art1),
        dither_converted_via(f, chosen, t, dith, g, art2),
        flat_grid(g, a),
        nearest_val(scaled_positions(t), table_intensities(t), a as int, a),
    ensures
        art1 == art2,
{
    assert(dith == g);
    lemma_scaled_axis_public(t);
    let j = choose|j: int|
        #[trigger] is_nearest(scaled_positions(t), a as int, j) && j < table_intensities(t).len()
            && a == table_intensities(t)[j];
    assert(nearest_val(scaled_positions(t), crate::ramp::table_ids(t), a as int, ramp[a as int]));
    let j2 = choose|j2: int|
        #[trigger] is_nearest(scaled_positions(t), a as int, j2) && j2 < crate::ramp::table_ids(
            t,
        ).len() && ramp[a as int] == crate::ramp::table_ids(t)[j2];
    crate::ramp::lemma_nearest_unique(scaled_positions(t), a as int, j, j2);
    assert(ramp[a as int] == t[j].id);
    assert forall|y: int, x: int|
        0 <= y < g.len() && 0 <= x < g[y].len() implies art1[y][x] == art2[y][x] by {
        assert(g[y][x] == a);
        assert(art1[y][x] == ramp[a as int]);
        assert(glyph_at(t, a, art2[y][x]));
        let k = choose|k: int| 0 <= k < t.len() && #[trigger] t[k].intensity == a && t[k].id
            == art2[y][x];
        if k < j {
            assert(t[k].intensity < t[j].intensity);
        } else if j < k {
            assert(t[j].intensity < t[k].intensity);
        }
        assert(art2[y][x] == t[j].id);
    };
    assert(art1 =~~= art2);
}

/// Every dithered cell holds a palette value, and every palette value is an
/// intensity of the table.
proof fn lemma_dith_cells_achievable(t: Seq<Char>, m: Seq<u8>, dith: Seq<Seq<u8>>)
    requires
        m.len() == 256,
        forall|g: int|
            0 <= g < 256 ==> nearest_val(scaled_positions(t), table_intensities(t), g, #[trigger] m[g]),
        forall|y: int, x: int|
            0 <= y < dith.len() && 0 <= x < dith[y].len() ==> in_palette(m, #[trigger] dith[y][x]),
    ensures
        forall|y: int, x: int|
            0 <= y < dith.len() && 0 <= x < dith[y].len() ==> has_intensity(
                t,
                #[trigger] dith[y][x] as int,
            ),
{
    assert forall|y: int, x: int|
        0 <= y < dith.len() && 0 <= x < dith[y].len() implies has_intensity(
        t,
        #[trigger] dith[y][x] as int,
    ) by {
        assert(in_palette(m, dith[y][x]));
        let k = choose|k: int| 0 <= k < m.len() && m[k] == dith[y][x];
        assert(nearest_val(scaled_positions(t), table_intensities(t), k, m[k]));
        let j = choose|j: int|
            #[trigger] is_nearest(scaled_positions(t), k, j) && j < table_intensities(t).len()
                && m[k] == table_intensities(t)[j];
        assert(t[j].intensity == dith[y][x]);
    };
}

/// If a gray level is its own nearest achievable intensity, the palette
/// fixes it.
proof fn lemma_palette_fixpoint(t: Seq<Char>, m: Seq<u8>, a: u8)
    requires
        m.len() == 256,
        2 <= t.len(),
        forall|k: int, l: int|
            0 <= k < l < t.len() ==> #[trigger] t[k].intensity < #[trigger] t[l].intensity,
        forall|g: int|
            0 <= g < 256 ==> nearest_val(scaled_positions(t), table_intensities(t), g, #[trigger] m[g]),
        nearest_val(scaled_positions(t), table_intensities(t), a as int, a),
    ensures
        m[a as int] == a,
{
    let j = choose|j: int|
        #[trigger] is_nearest(scaled_positions(t), a as int, j) && j < table_intensities(t).len()
            && a == table_intensities(t)[j];
    assert(nearest_val(scaled_positions(t), table_intensities(t), a as int, m[a as int]));
    let j2 = choose|j2: int|
        #[trigger] is_nearest(scaled_positions(t), a as int, j2) && j2 < table_intensities(t).len()
            && m[a as int] == table_intensities(t)[j2];
    assert(strictly_increasing(scaled_positions(t))) by {
        lemma_scaled_axis_public(t);
    };
    crate::ramp::lemma_nearest_unique(scaled_positions(t), a as int, j, j2);
}

/// The rescaled axis of a strictly sorted table is strictly increasing.
proof fn lemma_scaled_axis_public(t: Seq<Char>)
    requires
        2 <= t.len(),
        forall|k: int, l: int|
            0 <= k < l < t.len() ==> #[trigger] t[k].intensity < #[trigger] t[l].intensity,
    ensures
        strictly_increasing(scaled_positions(t)),
{
    let lo = t[0].intensity as int;
    let hi = t[t.len() - 1].intensity as int;
    let range = hi - lo;
    assert(t[0].intensity < t[t.len() - 1].intensity);
    assert forall|k: int, l: int| 0 <= k < l < t.len() implies #[trigger] scaled_positions(t)[k]
        < #[trigger] scaled_positions(t)[l] by {
        if 0 < k {
            assert(t[0].intensity < t[k].intensity);
        }
        if l < t.len() - 1 {
            assert(t[l].intensity < t[t.len() - 1].intensity);
        }
        assert(t[k].intensity < t[l].intensity);
        crate::scale::lemma_scale_strict_mono(
            t[k].intensity as int,
            t[l].intensity as int,
            lo,
            range,
        );
    };
}

} // verus!