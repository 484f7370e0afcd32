use vstd::prelude::*;

verus! {

use crate::AsciiArtError;
use crate::catalog::{AsciiGenerator, Font, find_font};
use crate::chars::Char;
use crate::scale::{lemma_scale_bounds, lemma_scale_strict_mono, scale, scale_intensity};
use crate::table::{has_intensity, is_candidate, table_wf};

/// Absolute distance on the intensity axis.
pub open spec fn adist(a: int, b: int) -> int {
    if a >= b {
        a - b
    } else {
        b - a
    }
}

pub open spec fn strictly_increasing(pos: Seq<int>) -> bool {
    forall|k: int, l: int| 0 <= k < l < pos.len() ==> #[trigger] pos[k] < #[trigger] pos[l]
}

/// Entry `j` is nearest to gray level `g` among all positions, with an exact
/// tie broken toward the higher (brighter) position.
pub open spec fn is_nearest(pos: Seq<int>, g: int, j: int) -> bool {
    &&& 0 <= j < pos.len()
    &&& forall|k: int|
        0 <= k < pos.len() ==> adist(g, pos[j]) < adist(g, #[trigger] pos[k]) || (adist(g, pos[j])
            == adist(g, pos[k]) && pos[j] >= pos[k])
}

/// `val` is the parallel value of the entry nearest to `g`.
pub open spec fn nearest_val(pos: Seq<int>, vals: Seq<u8>, g: int, val: u8) -> bool {
    exists|j: int| #[trigger] is_nearest(pos, g, j) && j < vals.len() && val == vals[j]
}

pub open spec fn as_ints(s: Seq<u8>) -> Seq<int> {
    Seq::new(s.len(), |k: int| s[k] as int)
}

/// The rescaled axis of a glyph table: each original intensity mapped by
/// `scale` onto 0..=255, anchored at the table's own minimum and maximum.
pub open spec fn scaled_positions(t: Seq<Char>) -> Seq<int> {
    Seq::new(
        t.len(),
        |k: int|
            scale(
                t[k].intensity as int,
                t[0].intensity as int,
                t[t.len() - 1].intensity as int - t[0].intensity as int,
            ),
    )
}

pub open spec fn table_ids(t: Seq<Char>) -> Seq<u8> {
    Seq::new(t.len(), |k: int| t[k].id)
}

pub open spec fn table_intensities(t: Seq<Char>) -> Seq<u8> {
    Seq::new(t.len(), |k: int| t[k].intensity)
}

/// The ramp is a total mapping: all 256 gray levels are covered, and every
/// ramp entry is the glyph id of a row of the filtered, deduplicated table.
pub proof fn lemma_ramp_total(f: Font, chosen: Seq<char>, t: Seq<Char>, ramp: Seq<u8>, g: int)
    requires
        ramp_from_table(f, chosen, t, ramp),
        0 <= g < 256,
    ensures
        ramp.len() == 256,
        exists|j: int| 0 <= j < t.len() && ramp[g] == #[trigger] t[j].id,
{
    assert(nearest_val(scaled_positions(t), table_ids(t), g, ramp[g]));
    let j = choose|j: int|
        #[trigger] is_nearest(scaled_positions(t), g, j) && j < table_ids(t).len() && ramp[g]
            == table_ids(t)[j];
    assert(0 <= j < t.len() && ramp[g] == t[j].id);
}

/// Only one entry can be nearest to a given gray level.
pub proof fn lemma_nearest_unique(pos: Seq<int>, g: int, j1: int, j2: int)
    requires
        strictly_increasing(pos),
        is_nearest(pos, g, j1),
        is_nearest(pos, g, j2),
    ensures
        j1 == j2,
{
    assert(adist(g, pos[j1]) < adist(g, pos[j2]) || (adist(g, pos[j1]) == adist(g, pos[j2])
        && pos[j1] >= pos[j2]));
    assert(adist(g, pos[j2]) < adist(g, pos[j1]) || (adist(g, pos[j2]) == adist(g, pos[j1])
        && pos[j2] >= pos[j1]));
    if j1 < j2 {
        assert(pos[j1] < pos[j2]);
    } else if j2 < j1 {
        assert(pos[j2] < pos[j1]);
    }
}

/// Ramp monotonicity: as the gray level increases, the rank of the selected
/// entry in the intensity-sorted table never decreases.
pub proof fn lemma_nearest_monotone(pos: Seq<int>, g1: int, g2: int, j1: int, j2: int)
    requires
        strictly_increasing(pos),
        g1 <= g2,
        is_nearest(pos, g1, j1),
        is_nearest(pos, g2, j2),
    ensures
        j1 <= j2,
{
    if j1 > j2 {
        assert(pos[j2] < pos[j1]);
        assert(adist(g1, pos[j1]) < adist(g1, pos[j2]) || (adist(g1, pos[j1]) == adist(
            g1,
            pos[j2],
        ) && pos[j1] >= pos[j2]));
        assert(adist(g2, pos[j2]) < adist(g2, pos[j1]) || (adist(g2, pos[j2]) == adist(
            g2,
            pos[j1],
        ) && pos[j2] >= pos[j1]));
        assert(2 * g1 >= pos[j1] + pos[j2]);
        assert(2 * g2 < pos[j1] + pos[j2]);
        assert(false);
    }
}

/// The cursor rule: between two neighbouring positions the nearer one wins,
/// an exact tie going to the upper neighbour.
proof fn lemma_local_nearest(pos: Seq<int>, g: int, cur: int)
    requires
        strictly_increasing(pos),
        1 <= cur < pos.len(),
        pos[cur - 1] <= g <= pos[cur],
    ensures
        g - pos[cur - 1] < pos[cur] - g ==> is_nearest(pos, g, cur - 1),
        g - pos[cur - 1] >= pos[cur] - g ==> is_nearest(pos, g, cur),
{
    if g - pos[cur - 1] < pos[cur] - g {
        assert forall|k: int| 0 <= k < pos.len() implies adist(g, pos[cur - 1]) < adist(
            g,
            #[trigger] pos[k],
        ) || (adist(g, pos[cur - 1]) == adist(g, pos[k]) && pos[cur - 1] >= pos[k]) by {
            if k < cur - 1 {
                assert(pos[k] < pos[cur - 1]);
            } else if k >= cur {
                assert(pos[cur] <= pos[k]);
            }
        };
    } else {
        assert forall|k: int| 0 <= k < pos.len() implies adist(g, pos[cur]) < adist(
            g,
            #[trigger] pos[k],
        ) || (adist(g, pos[cur]) == adist(g, pos[k]) && pos[cur] >= pos[k]) by {
            if k < cur - 1 {
                assert(pos[k] < pos[cur - 1]);
            } else if k > cur {
                assert(pos[cur] < pos[k]);
            }
        };
    }
}

/// The shared cursor walk: for every gray level 0..=255 pick the value of the
/// entry whose position is nearest, ties toward the higher position.
fn nearest_table(pos: &Vec<u8>, vals: &Vec<u8>) -> (r: Vec<u8>)
    requires
        pos@.len() == vals@.len(),
        2 <= pos@.len(),
        strictly_increasing(as_ints(pos@)),
        pos@[0] == 0,
        pos@[pos@.len() - 1] == 255,
    ensures
        r@.len() == 256,
        forall|g: int| 0 <= g < 256 ==> nearest_val(as_ints(pos@), vals@, g, #[trigger] r@[g]),
{
    let ghost pv = as_ints(pos@);
    let n = pos.len();
    let mut out: Vec<u8> = Vec::new();
    let mut cur: usize = 1;
    let mut g: usize = 0;
    while g < 256
        invariant
            pos@.len() == vals@.len(),
            2 <= n == pos@.len(),
            strictly_increasing(pv),
            pv == as_ints(pos@),
            pos@[0] == 0,
            pos@[n - 1] == 255,
            1 <= cur < n,
            g <= 256,
            pos@[cur - 1] <= g,
            g <= pos@[cur as int] + 1,
            out@.len() == g,
            forall|g2: int| 0 <= g2 < g ==> nearest_val(pv, vals@, g2, #[trigger] out@[g2]),
        decreases 256 - g,
    {
        if g > pos[cur] as usize {
            proof {
                assert(pv[cur as int] < 255);
                if cur == n - 1 {
                    assert(pv[cur as int] == 255);
                }
                assert(cur + 1 < n);
                assert(pv[cur as int] < pv[cur + 1]);
            }
            cur += 1;
        }
        let lower = pos[cur - 1] as usize;
        let upper = pos[cur] as usize;
        let ghost pre = out@;
        let ghost j: int;
        if g - lower < upper - g {
            out.push(vals[cur - 1]);
            proof {
                j = cur - 1;
            }
        } else {
            out.push(vals[cur]);
            proof {
                j = cur as int;
            }
        }
        proof {
            lemma_local_nearest(pv, g as int, cur as int);
            assert(is_nearest(pv, g as int, j) && j < vals@.len() && out@[g as int] == vals@[j]);
            assert(nearest_val(pv, vals@, g as int, out@[g as int]));
            assert forall|g2: int| 0 <= g2 < g + 1 implies nearest_val(
                pv,
                vals@,
                g2,
                #[trigger] out@[g2],
            ) by {
                if g2 < g {
                    assert(out@[g2] == pre[g2]);
                }
            };
        }
        g += 1;
    }
    out
}

/// The chosen characters leave only one achievable intensity, so the linear
/// rescale of the axis would be degenerate.
pub open spec fn degenerate_charset(f: Font, chosen: Seq<char>) -> bool {
    &&& exists|c: Char| is_candidate(f, chosen, c)
    &&& forall|c1: Char, c2: Char|
        #![trigger is_candidate(f, chosen, c1), is_candidate(f, chosen, c2)]
        is_candidate(f, chosen, c1) && is_candidate(f, chosen, c2) ==> c1.intensity == c2.intensity
}

/// `ramp` is the 256-entry direct lookup built from the glyph table `t`:
/// every gray level maps to the id of the nearest entry on the rescaled axis.
pub open spec fn ramp_from_table(f: Font, chosen: Seq<char>, t: Seq<Char>, ramp: Seq<u8>) -> bool {
    &&& table_wf(f, chosen, t)
    &&& 2 <= t.len()
    &&& ramp.len() == 256
    &&& forall|g: int|
        0 <= g < 256 ==> nearest_val(scaled_positions(t), table_ids(t), g, #[trigger] ramp[g])
}

pub open spec fn ramp_built(f: Font, chosen: Seq<char>, ramp: Seq<u8>) -> bool {
    exists|t: Seq<Char>| #[trigger] ramp_from_table(f, chosen, t, ramp)
}

/// `dist` maps every gray level to the original intensity of the nearest
/// table entry (distances taken on the rescaled axis); `cmap` maps each
/// achievable original intensity to its glyph id and everything else to None.
pub open spec fn quant_from_table(
    f: Font,
    chosen: Seq<char>,
    t: Seq<Char>,
    dist: Seq<u8>,
    cmap: Seq<Option<u8>>,
) -> bool {
    &&& table_wf(f, chosen, t)
    &&& 2 <= t.len()
    &&& dist.len() == 256
    &&& forall|g: int|
        0 <= g < 256 ==> nearest_val(
            scaled_positions(t),
            table_intensities(t),
            g,
            #[trigger] dist[g],
        )
    &&& cmap.len() == 256
    &&& forall|k: int| 0 <= k < t.len() ==> cmap[#[trigger] t[k].intensity as int] == Some(t[k].id)
    &&& forall|v: int| 0 <= v < 256 && !has_intensity(t, v) ==> #[trigger] cmap[v] is None
}

pub open spec fn quant_built(f: Font, chosen: Seq<char>, dist: Seq<u8>, cmap: Seq<Option<u8>>) -> bool {
    exists|t: Seq<Char>| #[trigger] quant_from_table(f, chosen, t, dist, cmap)
}

impl AsciiGenerator {
    /// Rescales a strictly sorted glyph table so that the least intensity
    /// maps to 0 and the greatest to 255.
    fn normalizeCharIntsy(&self, chars: &mut Vec<Char>)
        requires
            2 <= old(chars)@.len(),
            forall|k: int, l: int|
                0 <= k < l < old(chars)@.len() ==> #[trigger] old(chars)@[k].intensity
                    < #[trigger] old(chars)@[l].intensity,
        ensures
            final(chars)@.len() == old(chars)@.len(),
            forall|k: int|
                0 <= k < old(chars)@.len() ==> #[trigger] final(chars)@[k] == (Char {
                    intensity: scale(
                        old(chars)@[k].intensity as int,
                        old(chars)@[0].intensity as int,
                        old(chars)@[old(chars)@.len() - 1].intensity as int
                            - old(chars)@[0].intensity as int,
                    ) as u8,
                    deviation: old(chars)@[k].deviation,
                    id: old(chars)@[k].id,
                }),
    {
        let ghost orig = old(chars)@;
        let n = chars.len();
        let minI = chars[0].intensity;
        let maxI = chars[n - 1].intensity;
        proof {
            assert(orig[0].intensity < orig[n - 1].intensity);
        }
        let rangeI = maxI - minI;
        let mut i: usize = 0;
        while i < n
            invariant
                n == chars@.len() == orig.len(),
                2 <= n,
                i <= n,
                minI == orig[0].intensity,
                rangeI == orig[n - 1].intensity - orig[0].intensity,
                0 < rangeI,
                forall|k: int, l: int|
                    0 <= k < l < orig.len() ==> #[trigger] orig[k].intensity
                        < #[trigger] orig[l].intensity,
                forall|k: int| i <= k < n ==> #[trigger] chars@[k] == orig[k],
                forall|k: int|
                    0 <= k < i ==> #[trigger] chars@[k] == (Char {
                        intensity: scale(
                            orig[k].intensity as int,
                            minI as int,
                            rangeI as int,
                        ) as u8,
                        deviation: orig[k].deviation,
                        id: orig[k].id,
                    }),
            decreases n - i,
        {
            proof {
                if 0 < i {
                    assert(orig[0].intensity < orig[i as int].intensity);
                }
                if i < n - 1 {
                    assert(orig[i as int].intensity < orig[n - 1].intensity);
                }
                lemma_scale_bounds(orig[i as int].intensity as int, minI as int, rangeI as int);
            }
            let c = chars[i];
            let scaled = scale_intensity(c.intensity, minI, rangeI);
            chars.set(
                i,
                Char { intensity: scaled, deviation: c.deviation, id: c.id },
            );
            i += 1;
        }
    }

    /// Builds the 256-entry gray-to-glyph ramp for a font and chosen set.
    pub fn getWeightedRamp(&self, font: &str, chosenChars: &str) -> (r: Result<
        Vec<u8>,
        AsciiArtError,
    >)
        requires
            self.wf(),
        ensures
            match r {
                Ok(ramp) => find_font(self.fonts@, font@) is Some && ramp_built(
                    find_font(self.fonts@, font@)->Some_0,
                    chosenChars@,
                    ramp@,
                ),
                Err(e) => err_cases(self.fonts@, font@, chosenChars@, e),
            },
    {
        let mut table = match self.buildGlyphTable(font, chosenChars) {
            Ok(t) => t,
            Err(e) => { return Err(e); },
        };
        let ghost f = find_font(self.fonts@, font@)->Some_0;
        let ghost orig = table@;
        if table.len() < 2 {
            proof {
                lemma_single_intensity_degenerate(f, chosenChars@, orig);
            }
            return Err(AsciiArtError::DegenerateIntensityRange);
        }
        proof {
            lemma_scaled_axis(orig);
        }
        self.normalizeCharIntsy(&mut table);
        let n = table.len();
        let mut pos: Vec<u8> = Vec::new();
        let mut ids: Vec<u8> = Vec::new();
        let mut i: usize = 0;
        while i < n
            invariant
                n == table@.len() == orig.len(),
                i <= n,
                pos@.len() == i,
                ids@.len() == i,
                forall|k: int|
                    0 <= k < n ==> #[trigger] table@[k] == (Char {
                        intensity: scale(
                            orig[k].intensity as int,
                            orig[0].intensity as int,
                            orig[orig.len() - 1].intensity as int - orig[0].intensity as int,
                        ) as u8,
                        deviation: orig[k].deviation,
                        id: orig[k].id,
                    }),
                forall|k: int| 0 <= k < i ==> #[trigger] pos@[k] == table@[k].intensity,
                forall|k: int| 0 <= k < i ==> #[trigger] ids@[k] == table@[k].id,
            decreases n - i,
        {
            pos.push(table[i].intensity);
            ids.push(table[i].id);
            i += 1;
        }
        proof {
            assert(as_ints(pos@) =~= scaled_positions(orig));
            assert(ids@ =~= table_ids(orig));
            assert(pos@[0] as int == scaled_positions(orig)[0]);
            assert(pos@[n - 1] as int == scaled_positions(orig)[n - 1]);
        }
        let ramp = nearest_table(&pos, &ids);
        proof {
            assert(ramp_from_table(f, chosenChars@, orig, ramp@));
        }
        Ok(ramp)
    }

    /// Builds the quantization table (gray level to nearest achievable
    /// original intensity) and the intensity-to-glyph map used for dithering.
    #[verifier::rlimit(60)]
    pub fn getIntensityDistAndCharMap(&self, font: &str, chosenChars: &str) -> (r: Result<
        (Vec<u8>, Vec<Option<u8>>),
        AsciiArtError,
    >)
        requires
            self.wf(),
        ensures
            match r {
                Ok(p) => find_font(self.fonts@, font@) is Some && quant_built(
                    find_font(self.fonts@, font@)->Some_0,
                    chosenChars@,
                    p.0@,
                    p.1@,
                ),
                Err(e) => err_cases(self.fonts@, font@, chosenChars@, e),
            },
    {
        let table = match self.buildGlyphTable(font, chosenChars) {
            Ok(t) => t,
            Err(e) => { return Err(e); },
        };
        let ghost f = find_font(self.fonts@, font@)->Some_0;
        let ghost tb = table@;
        if table.len() < 2 {
            proof {
                lemma_single_intensity_degenerate(f, chosenChars@, tb);
            }
            return Err(AsciiArtError::DegenerateIntensityRange);
        }
        proof {
            lemma_scaled_axis(tb);
        }
        let n = table.len();

        // Intensity-to-glyph map: one entry per surviving table row.
        let mut cmap: Vec<Option<u8>> = Vec::new();
        let mut v: usize = 0;
        while v < 256
            invariant
                cmap@.len() == v <= 256,
                forall|w: int| 0 <= w < v ==> #[trigger] cmap@[w] is None,
            decreases 256 - v,
        {
            cmap.push(None);
            v += 1;
        }
        let mut k: usize = 0;
        while k < n
            invariant
                n == tb.len() == table@.len(),
                tb == table@,
                k <= n,
                cmap@.len() == 256,
                forall|k2: int, l2: int|
                    0 <= k2 < l2 < tb.len() ==> #[trigger] tb[k2].intensity
                        < #[trigger] tb[l2].intensity,
                forall|k2: int|
                    0 <= k2 < k ==> cmap@[#[trigger] tb[k2].intensity as int] == Some(tb[k2].id),
                forall|w: int|
                    0 <= w < 256 && (forall|k2: int| 0 <= k2 < k ==> #[trigger] tb[k2].intensity
                        != w) ==> #[trigger] cmap@[w] is None,
            decreases n - k,
        {
            let c = table[k];
            let ghost pre = cmap@;
            cmap.set(c.intensity as usize, Some(c.id));
            proof {
                assert forall|k2: int|
                    0 <= k2 < k + 1 implies cmap@[#[trigger] tb[k2].intensity as int] == Some(
                    tb[k2].id,
                ) by {
                    if k2 < k {
                        assert(tb[k2].intensity < tb[k as int].intensity);
                        assert(cmap@[tb[k2].intensity as int] == pre[tb[k2].intensity as int]);
                    }
                };
            }
            k += 1;
        }

        // Rescaled axis paired with the original intensities.
        let minI = table[0].intensity;
        let maxI = table[n - 1].intensity;
        proof {
            assert(tb[0].intensity < tb[n - 1].intensity);
        }
        let rangeI = maxI - minI;
        let mut pos: Vec<u8> = Vec::new();
        let mut vals: Vec<u8> = Vec::new();
        let mut i: usize = 0;
        while i < n
            invariant
                n == tb.len() == table@.len(),
                tb == table@,
                i <= n,
                pos@.len() == i,
                vals@.len() == i,
                minI == tb[0].intensity,
                rangeI == tb[n - 1].intensity - tb[0].intensity,
                0 < rangeI,
                forall|k2: int, l2: int|
                    0 <= k2 < l2 < tb.len() ==> #[trigger] tb[k2].intensity
                        < #[trigger] tb[l2].intensity,
                forall|k2: int|
                    0 <= k2 < i ==> #[trigger] pos@[k2] as int == scaled_positions(tb)[k2],
                forall|k2: int| 0 <= k2 < i ==> #[trigger] vals@[k2] == tb[k2].intensity,
            decreases n - i,
        {
            proof {
                if 0 < i {
                    assert(tb[0].intensity < tb[i as int].intensity);
                }
                if i < n - 1 {
                    assert(tb[i as int].intensity < tb[n - 1].intensity);
                }
                lemma_scale_bounds(tb[i as int].intensity as int, minI as int, rangeI as int);
            }
            let c = table[i];
            pos.push(scale_intensity(c.intensity, minI, rangeI));
            vals.push(c.intensity);
            i += 1;
        }
        proof {
            assert(as_ints(pos@) =~= scaled_positions(tb));
            assert(vals@ =~= table_intensities(tb));
            assert(pos@[0] as int == scaled_positions(tb)[0]);
            assert(pos@[n - 1] as int == scaled_positions(tb)[n - 1]);
        }
        let dist = nearest_table(&pos, &vals);
        proof {
            assert(quant_from_table(f, chosenChars@, tb, dist@, cmap@));
        }
        Ok((dist, cmap))
    }
}

/// How each error of the ramp and quantizer builders relates to the inputs.
pub open spec fn err_cases(fonts: Seq<Font>, font: Seq<char>, chosen: Seq<char>, e: AsciiArtError) -> bool {
    match e {
        AsciiArtError::FontNotFound => find_font(fonts, font) is None,
        AsciiArtError::EmptyCharset => find_font(fonts, font) is Some && forall|c: Char|
            !is_candidate(find_font(fonts, font)->Some_0, chosen, c),
        AsciiArtError::DegenerateIntensityRange => find_font(fonts, font) is Some
            && degenerate_charset(find_font(fonts, font)->Some_0, chosen),
        _ => false,
    }
}

/// A one-entry table means every candidate shares that entry's intensity.
proof fn lemma_single_intensity_degenerate(f: Font, chosen: Seq<char>, t: Seq<Char>)
    requires
        table_wf(f, chosen, t),
        t.len() == 1,
    ensures
        degenerate_charset(f, chosen),
{
    assert(is_candidate(f, chosen, t[0]));
    assert forall|c1: Char, c2: Char|
        #![trigger is_candidate(f, chosen, c1), is_candidate(f, chosen, c2)]
        is_candidate(f, chosen, c1) && is_candidate(f, chosen, c2) implies c1.intensity
        == c2.intensity by {
        assert(has_intensity(t, c1.intensity as int));
        assert(has_intensity(t, c2.intensity as int));
        let k1 = choose|k: int| 0 <= k < t.len() && #[trigger] t[k].intensity == c1.intensity as int;
        let k2 = choose|k: int| 0 <= k < t.len() && #[trigger] t[k].intensity == c2.intensity as int;
        assert(k1 == 0 && k2 == 0);
    };
}

/// The rescaled axis of a strictly sorted table is strictly increasing and
/// spans 0..=255.
proof fn lemma_scaled_axis(t: Seq<Char>)
    requires
        2 <= t.len(),
        forall|k: int, l: int|
            0 <= k < l < t.len() ==> #[trigger] t[k].intensity < #[trigger] t[l].intensity,
    ensures
        strictly_increasing(scaled_positions(t)),
        scaled_positions(t)[0] == 0,
        scaled_positions(t)[t.len() - 1] == 255,
        forall|k: int| 0 <= k < t.len() ==> 0 <= #[trigger] scaled_positions(t)[k] <= 255,
{
    let lo = t[0].intensity as int;
    let hi = t[t.len() - 1].intensity as int;
    let range = hi - lo;
    assert(t[0].intensity < t[t.len() - 1].intensity);
    assert forall|k: int| 0 <= k < t.len() implies 0 <= #[trigger] scaled_positions(t)[k]
        <= 255 by {
        if 0 < k {
            assert(t[0].intensity < t[k].intensity);
        }
        if k < t.len() - 1 {
            assert(t[k].intensity < t[t.len() - 1].intensity);
        }
        lemma_scale_bounds(t[k].intensity as int, lo, range);
    };
    assert forall|k: int, l: int| 0 <= k < l < t.len() implies #[trigger] scaled_positions(t)[k]
        < #[trigger] scaled_positions(t)[l] by {
        if 0 < k {
            assert(t[0].intensity < t[k].intensity);
        }
        if l < t.len() - 1 {
            assert(t[l].intensity < t[t.len() - 1].intensity);
        }
        assert(t[k].intensity < t[l].intensity);
        lemma_scale_strict_mono(t[k].intensity as int, t[l].intensity as int, lo, range);
    };
    lemma_scale_bounds(lo, lo, range);
    lemma_scale_bounds(hi, lo, range);
}

} // verus!
