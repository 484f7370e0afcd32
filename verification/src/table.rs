use vstd::prelude::*;

verus! {

use crate::AsciiArtError;
use crate::catalog::{AsciiGenerator, Font, find_font, font_wf};
use crate::chars::{Char, char_le, sort_chars, sorted_chars};
use crate::text::contains_char;

/// The glyph a font assigns to ASCII code `32 + i`.
pub open spec fn glyph_of(f: Font, i: int) -> Char {
    Char {
        intensity: f.charIntensity@[i],
        deviation: f.charDeviation@[i],
        id: (32 + i) as u8,
    }
}

/// `c` is a candidate glyph: drawn from the font's table and whitelisted by
/// the chosen-characters string.
pub open spec fn is_candidate(f: Font, chosen: Seq<char>, c: Char) -> bool {
    &&& 32 <= c.id < 127
    &&& c == glyph_of(f, c.id - 32)
    &&& chosen.contains(c.id as char)
}

/// Some entry of the table has intensity `v`.
pub open spec fn has_intensity(t: Seq<Char>, v: int) -> bool {
    exists|k: int| 0 <= k < t.len() && #[trigger] t[k].intensity == v
}

/// The finished glyph table: strictly increasing intensities, every entry a
/// candidate that is least (by deviation, then id) among the candidates of
/// its intensity, and every candidate intensity represented.
pub open spec fn table_wf(f: Font, chosen: Seq<char>, t: Seq<Char>) -> bool {
    &&& forall|k: int| 0 <= k < t.len() ==> is_candidate(f, chosen, #[trigger] t[k])
    &&& forall|k: int, l: int|
        0 <= k < l < t.len() ==> #[trigger] t[k].intensity < #[trigger] t[l].intensity
    &&& forall|k: int, c: Char|
        #![trigger t[k], is_candidate(f, chosen, c)]
        0 <= k < t.len() && is_candidate(f, chosen, c) && c.intensity == t[k].intensity
            ==> char_le(t[k], c)
    &&& forall|c: Char|
        #[trigger] is_candidate(f, chosen, c) ==> has_intensity(t, c.intensity as int)
}

proof fn lemma_find_font_member(fonts: Seq<Font>, name: Seq<char>)
    requires
        find_font(fonts, name) is Some,
    ensures
        fonts.contains(find_font(fonts, name)->Some_0),
    decreases fonts.len(),
{
    if fonts.len() > 0 {
        if fonts[0].name@ == name {
        } else {
            lemma_find_font_member(fonts.drop_first(), name);
            let g = find_font(fonts, name)->Some_0;
            let j = choose|j: int| 0 <= j < fonts.drop_first().len() && fonts.drop_first()[j] == g;
            assert(fonts[j + 1] == g);
        }
    }
}

/// Some entry of `t` has the same intensity as `c` and is at most `c` in the
/// (intensity, deviation, id) order.
pub open spec fn has_rep(t: Seq<Char>, c: Char) -> bool {
    exists|l: int| 0 <= l < t.len() && #[trigger] t[l].intensity == c.intensity && char_le(t[l], c)
}

proof fn lemma_has_rep_extend(pre: Seq<Char>, cur: Seq<Char>, c: Char)
    requires
        has_rep(pre, c),
        pre.len() <= cur.len(),
        forall|l: int| 0 <= l < pre.len() ==> #[trigger] cur[l] == pre[l],
    ensures
        has_rep(cur, c),
{
    let l = choose|l: int| 0 <= l < pre.len() && #[trigger] pre[l].intensity == c.intensity
        && char_le(pre[l], c);
    assert(cur[l].intensity == c.intensity && char_le(cur[l], c));
}

impl AsciiGenerator {
    /// All 95 glyphs of the named font, sorted by (intensity, deviation, id).
    pub fn getChars(&self, font: &str) -> (r: Result<Vec<Char>, AsciiArtError>)
        requires
            self.wf(),
        ensures
            match r {
                Ok(v) => {
                    let f = find_font(self.fonts@, font@)->Some_0;
                    &&& find_font(self.fonts@, font@) is Some
                    &&& sorted_chars(v@)
                    &&& v@.len() == 95
                    &&& forall|c: Char|
                        v@.contains(c) <==> (32 <= c.id < 127 && c == glyph_of(f, c.id - 32))
                },
                Err(e) => e == AsciiArtError::FontNotFound && find_font(self.fonts@, font@)
                    is None,
            },
    {
        broadcast use vstd::seq_lib::group_to_multiset_ensures;

        let f = match self.find(font) {
            Ok(f) => f,
            Err(e) => { return Err(e); },
        };
        proof {
            lemma_find_font_member(self.fonts@, font@);
        }
        let mut raw: Vec<Char> = Vec::new();
        for i in 0..95usize
            invariant
                raw@.len() == i,
                font_wf(*f),
                forall|k: int| 0 <= k < i ==> #[trigger] raw@[k] == glyph_of(*f, k),
        {
            raw.push(
                Char {
                    intensity: f.charIntensity[i],
                    deviation: f.charDeviation[i],
                    id: 32 + i as u8,
                },
            );
        }
        let ghost rawseq = raw@;
        let sorted = sort_chars(raw);
        proof {
            assert forall|c: Char| sorted@.contains(c) <==> (32 <= c.id < 127 && c == glyph_of(
                *f,
                c.id - 32,
            )) by {
                vstd::seq_lib::to_multiset_contains(sorted@, c);
                vstd::seq_lib::to_multiset_contains(rawseq, c);
                assert(sorted@.contains(c) <==> rawseq.contains(c));
                if rawseq.contains(c) {
                    let k = choose|k: int| 0 <= k < rawseq.len() && rawseq[k] == c;
                    assert(c == glyph_of(*f, k));
                }
                if 32 <= c.id < 127 && c == glyph_of(*f, c.id - 32) {
                    assert(rawseq[c.id - 32] == c);
                }
            };
        }
        Ok(sorted)
    }

    /// Keeps the sorted glyphs whose character occurs in `chosen`.
    fn filter_chosen(&self, v: Vec<Char>, chosen: &str) -> (r: Vec<Char>)
        requires
            sorted_chars(v@),
        ensures
            sorted_chars(r@),
            forall|l: int|
                0 <= l < r@.len() ==> v@.contains(#[trigger] r@[l]) && chosen@.contains(
                    r@[l].id as char,
                ),
            forall|j: int|
                0 <= j < v@.len() && chosen@.contains(#[trigger] v@[j].id as char) ==> r@.contains(
                    v@[j],
                ),
    {
        let n = v.len();
        let mut out: Vec<Char> = Vec::new();
        let mut i: usize = 0;
        while i < n
            invariant
                i <= n,
                n == v@.len(),
                sorted_chars(v@),
                sorted_chars(out@),
                forall|l: int|
                    0 <= l < out@.len() ==> v@.take(i as int).contains(#[trigger] out@[l])
                        && chosen@.contains(out@[l].id as char),
                forall|j: int|
                    0 <= j < i && chosen@.contains(#[trigger] v@[j].id as char) ==> out@.contains(
                        v@[j],
                    ),
            decreases n - i,
        {
            let c = v[i];
            let keep = contains_char(chosen, c.id as char);
            let ghost pre = out@;
            if keep {
                out.push(c);
            }
            proof {
                assert(v@.take(i + 1).drop_last() =~= v@.take(i as int));
                assert(v@.take(i + 1).last() == v@[i as int]);
                if keep {
                    assert forall|s: int, t: int| 0 <= s <= t < out@.len() implies char_le(
                        out@[s],
                        out@[t],
                    ) by {
                        if t == out@.len() - 1 && s < t {
                            assert(v@.take(i as int).contains(pre[s]));
                            let j = choose|j: int| 0 <= j < i && v@.take(i as int)[j] == pre[s];
                            assert(char_le(v@[j], v@[i as int]));
                        }
                    };
                }
                assert forall|l: int| 0 <= l < out@.len() implies v@.take(i + 1).contains(
                    #[trigger] out@[l],
                ) && chosen@.contains(out@[l].id as char) by {
                    if l < pre.len() {
                        assert(out@[l] == pre[l]);
                        assert(v@.take(i as int).contains(pre[l]));
                        let j = choose|j: int| 0 <= j < i && v@.take(i as int)[j] == pre[l];
                        assert(v@.take(i + 1)[j] == out@[l]);
                    } else {
                        assert(out@[l] == v@[i as int]);
                        assert(v@.take(i + 1)[i as int] == out@[l]);
                    }
                };
                assert forall|j: int|
                    0 <= j < i + 1 && chosen@.contains(#[trigger] v@[j].id as char) implies out@
                    .contains(v@[j]) by {
                    if j < i {
                        assert(pre.contains(v@[j]));
                        let k = choose|k: int| 0 <= k < pre.len() && pre[k] == v@[j];
                        assert(out@[k] == v@[j]);
                    } else {
                        assert(out@[out@.len() - 1] == v@[j]);
                    }
                };
            }
            i += 1;
        }
        proof {
            assert(v@.take(n as int) =~= v@);
            assert forall|l: int| 0 <= l < out@.len() implies v@.contains(#[trigger] out@[l])
                && chosen@.contains(out@[l].id as char) by {
                assert(v@.take(n as int).contains(out@[l]));
            };
        }
        out
    }

    /// Keeps the first glyph of each run of equal intensities; with the sort
    /// order this is the glyph with the least deviation at that intensity.
    fn dedup_intensity(&self, v: Vec<Char>) -> (r: Vec<Char>)
        requires
            sorted_chars(v@),
        ensures
            forall|k: int, l: int|
                0 <= k < l < r@.len() ==> #[trigger] r@[k].intensity < #[trigger] r@[l].intensity,
            forall|l: int| 0 <= l < r@.len() ==> v@.contains(#[trigger] r@[l]),
            forall|j: int| 0 <= j < v@.len() ==> has_rep(r@, #[trigger] v@[j]),
            r@.len() > 0 <==> v@.len() > 0,
    {
        let n = v.len();
        let mut out: Vec<Char> = Vec::new();
        let mut i: usize = 0;
        while i < n
            invariant
                i <= n,
                n == v@.len(),
                sorted_chars(v@),
                out@.len() > 0 <==> i > 0,
                forall|k: int, l: int|
                    0 <= k < l < out@.len() ==> #[trigger] out@[k].intensity
                        < #[trigger] out@[l].intensity,
                forall|l: int| 0 <= l < out@.len() ==> v@.take(i as int).contains(#[trigger] out@[l]),
                forall|j: int| 0 <= j < i ==> has_rep(out@, #[trigger] v@[j]),
            decreases n - i,
        {
            let c = v[i];
            let ghost pre = out@;
            let mut push_new = true;
            if out.len() > 0 {
                let last = out[out.len() - 1];
                proof {
                    assert(v@.take(i as int).contains(pre[pre.len() - 1]));
                    let j0 = choose|j: int|
                        0 <= j < i && v@.take(i as int)[j] == pre[pre.len() - 1];
                    assert(char_le(v@[j0], v@[i as int]));
                    assert(char_le(pre[pre.len() - 1], v@[i as int]));
                }
                if c.intensity == last.intensity {
                    push_new = false;
                }
            }
            if push_new {
                out.push(c);
            }
            proof {
                assert(v@.take(i + 1).drop_last() =~= v@.take(i as int));
                assert(v@.take(i + 1).last() == v@[i as int]);
                if push_new {
                    assert forall|k: int, l: int| 0 <= k < l < out@.len() implies out@[k].intensity
                        < out@[l].intensity by {
                        if l == out@.len() - 1 {
                            assert(out@[k] == pre[k]);
                            if k < pre.len() - 1 {
                                assert(pre[k].intensity < pre[pre.len() - 1].intensity);
                            }
                        }
                    };
                }
                assert forall|l: int| 0 <= l < out@.len() implies v@.take(i + 1).contains(
                    #[trigger] out@[l],
                ) by {
                    if l < pre.len() {
                        assert(out@[l] == pre[l]);
                        assert(v@.take(i as int).contains(pre[l]));
                        let j = choose|j: int| 0 <= j < i && v@.take(i as int)[j] == pre[l];
                        assert(v@.take(i + 1)[j] == out@[l]);
                    } else {
                        assert(v@.take(i + 1)[i as int] == out@[l]);
                    }
                };
                assert forall|j: int| 0 <= j < i + 1 implies has_rep(out@, #[trigger] v@[j]) by {
                    if j < i {
                        lemma_has_rep_extend(pre, out@, v@[j]);
                    } else {
                        if push_new {
                            assert(out@[out@.len() - 1] == v@[j]);
                            assert(has_rep(out@, v@[j]));
                        } else {
                            assert(out@[out@.len() - 1].intensity == v@[j].intensity && char_le(
                                out@[out@.len() - 1],
                                v@[j],
                            ));
                            assert(has_rep(out@, v@[j]));
                        }
                    }
                };
            }
            i += 1;
        }
        proof {
            assert(v@.take(n as int) =~= v@);
            assert forall|l: int| 0 <= l < out@.len() implies v@.contains(#[trigger] out@[l]) by {
                assert(v@.take(n as int).contains(out@[l]));
            };
        }
        out
    }

    pub fn buildGlyphTable(&self, font: &str, chosenChars: &str) -> (r: Result<
        Vec<Char>,
        AsciiArtError,
    >)
        requires
            self.wf(),
        ensures
            match r {
                Ok(t) => {
                    let f = find_font(self.fonts@, font@)->Some_0;
                    &&& find_font(self.fonts@, font@) is Some
                    &&& table_wf(f, chosenChars@, t@)
                    &&& t@.len() > 0
                    &&& exists|c: Char| is_candidate(f, chosenChars@, c)
                },
                Err(e) => match e {
                    AsciiArtError::FontNotFound => find_font(self.fonts@, font@) is None,
                    AsciiArtError::EmptyCharset => {
                        &&& find_font(self.fonts@, font@) is Some
                        &&& forall|c: Char|
                            !is_candidate(find_font(self.fonts@, font@)->Some_0, chosenChars@, c)
                    },
                    _ => false,
                },
            },
    {
        let all = match self.getChars(font) {
            Ok(v) => v,
            Err(e) => { return Err(e); },
        };
        let ghost f = find_font(self.fonts@, font@)->Some_0;
        let ghost allseq = all@;
        let filtered = self.filter_chosen(all, chosenChars);
        proof {
            assert forall|c: Char| filtered@.contains(c) implies is_candidate(
                f,
                chosenChars@,
                c,
            ) by {
                let l = choose|l: int| 0 <= l < filtered@.len() && filtered@[l] == c;
                assert(allseq.contains(c) && chosenChars@.contains(c.id as char));
            };
            assert forall|c: Char| is_candidate(f, chosenChars@, c) implies filtered@.contains(
                c,
            ) by {
                assert(allseq.contains(c));
                let j = choose|j: int| 0 <= j < allseq.len() && allseq[j] == c;
                assert(chosenChars@.contains(allseq[j].id as char));
            };
        }
        if filtered.len() == 0 {
            proof {
                assert forall|c: Char| !is_candidate(f, chosenChars@, c) by {
                    if is_candidate(f, chosenChars@, c) {
                        assert(filtered@.contains(c));
                    }
                };
            }
            return Err(AsciiArtError::EmptyCharset);
        }
        let ghost filt = filtered@;
        let table = self.dedup_intensity(filtered);
        proof {
            assert forall|k: int| 0 <= k < table@.len() implies is_candidate(
                f,
                chosenChars@,
                #[trigger] table@[k],
            ) by {
                assert(filt.contains(table@[k]));
            };
            assert forall|k: int, c: Char|
                0 <= k < table@.len() && #[trigger] is_candidate(f, chosenChars@, c) && c.intensity
                    == #[trigger] table@[k].intensity implies char_le(table@[k], c) by {
                assert(filt.contains(c));
                let j = choose|j: int| 0 <= j < filt.len() && filt[j] == c;
                assert(has_rep(table@, c));
                let l = choose|l: int|
                    0 <= l < table@.len() && #[trigger] table@[l].intensity == c.intensity
                        && char_le(table@[l], c);
                if l < k {
                    assert(table@[l].intensity < table@[k].intensity);
                } else if k < l {
                    assert(table@[k].intensity < table@[l].intensity);
                }
            };
            assert forall|c: Char| #[trigger] is_candidate(f, chosenChars@, c) implies has_intensity(
                table@,
                c.intensity as int,
            ) by {
                assert(filt.contains(c));
                let j = choose|j: int| 0 <= j < filt.len() && filt[j] == c;
                assert(has_rep(table@, c));
                let l = choose|l: int|
                    0 <= l < table@.len() && #[trigger] table@[l].intensity == c.intensity
                        && char_le(table@[l], c);
                assert(0 <= l < table@.len() && table@[l].intensity == c.intensity as int);
            };
            assert(is_candidate(f, chosenChars@, filt[0]));
        }
        Ok(table)
    }
}

} // verus!
