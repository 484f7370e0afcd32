use vstd::prelude::*;

verus! {

use crate::raster::Rgb;
use crate::text::{dec_str, push_char, u8_to_decimal};

pub open spec fn row_chars(row: Seq<u8>) -> Seq<char> {
    Seq::new(row.len(), |i: int| row[i] as char)
}

/// The rows of the grid as text, joined with a newline between rows and no
/// trailing separator.
pub open spec fn join_rows(art: Seq<Seq<u8>>) -> Seq<char>
    decreases art.len(),
{
    if art.len() == 0 {
        Seq::empty()
    } else if art.len() == 1 {
        row_chars(art[0])
    } else {
        row_chars(art[0]) + seq!['\n'] + join_rows(art.drop_first())
    }
}

/// Index of the first newline, or the length when there is none.
pub open spec fn find_nl(s: Seq<char>) -> int
    decreases s.len(),
{
    if s.len() == 0 {
        0
    } else if s[0] == '\n' {
        0
    } else {
        1 + find_nl(s.drop_first())
    }
}

/// Splitting on newlines: the inverse reading of `join_rows`.
pub open spec fn split_lines(s: Seq<char>) -> Seq<Seq<char>>
    decreases s.len(),
{
    let i = find_nl(s);
    if 0 <= i < s.len() {
        seq![s.take(i)] + split_lines(s.skip(i + 1))
    } else {
        seq![s]
    }
}

proof fn lemma_find_nl_range(s: Seq<char>)
    ensures
        0 <= find_nl(s) <= s.len(),
        forall|k: int| 0 <= k < find_nl(s) ==> s[k] != '\n',
        find_nl(s) < s.len() ==> s[find_nl(s)] == '\n',
    decreases s.len(),
{
    if s.len() > 0 && s[0] != '\n' {
        lemma_find_nl_range(s.drop_first());
        assert forall|k: int| 0 <= k < find_nl(s) implies s[k] != '\n' by {
            if k > 0 {
                assert(s.drop_first()[k - 1] != '\n');
            }
        };
    }
}

proof fn lemma_find_nl_concat(p: Seq<char>, rest: Seq<char>)
    requires
        forall|k: int| 0 <= k < p.len() ==> p[k] != '\n',
    ensures
        find_nl(p + rest) == p.len() + find_nl(rest),
    decreases p.len(),
{
    if p.len() == 0 {
        assert(p + rest =~= rest);
    } else {
        assert((p + rest).drop_first() =~= p.drop_first() + rest);
        lemma_find_nl_concat(p.drop_first(), rest);
    }
}

/// Pushing one more row onto a non-empty grid appends a newline and the row.
proof fn lemma_join_push(art: Seq<Seq<u8>>, row: Seq<u8>)
    ensures
        art.len() == 0 ==> join_rows(art.push(row)) == row_chars(row),
        art.len() > 0 ==> join_rows(art.push(row)) == join_rows(art) + seq!['\n'] + row_chars(row),
    decreases art.len(),
{
    if art.len() == 0 {
        assert(art.push(row)[0] == row);
        assert(join_rows(art.push(row)) == row_chars(row));
    } else {
        lemma_join_push(art.drop_first(), row);
        assert(art.push(row).drop_first() =~= art.drop_first().push(row));
        if art.len() == 1 {
            assert(join_rows(art.push(row)) == row_chars(art[0]) + seq!['\n'] + join_rows(
                art.drop_first().push(row),
            ));
            assert(join_rows(art.drop_first().push(row)) == row_chars(row));
        } else {
            assert(join_rows(art) + seq!['\n'] + row_chars(row) =~= row_chars(art[0]) + seq!['\n']
                + (join_rows(art.drop_first()) + seq!['\n'] + row_chars(row)));
        }
    }
}

/// Serializes the glyph grid: rows of raw glyph bytes joined by newlines.
pub fn to_string(art: &Vec<Vec<u8>>) -> (r: String)
    ensures
        r@ == join_rows(art.deep_view()),
{
    let ghost g = art.deep_view();
    let h = art.len();
    let mut s = String::new();
    let mut y: usize = 0;
    while y < h
        invariant
            h == art@.len() == g.len(),
            g == art.deep_view(),
            y <= h,
            s@ == join_rows(g.take(y as int)),
        decreases h - y,
    {
        if y > 0 {
            push_char(&mut s, '\n');
        }
        let w = art[y].len();
        let ghost srow = s@;
        let mut x: usize = 0;
        while x < w
            invariant
                h == art@.len() == g.len(),
                g == art.deep_view(),
                y < h,
                w == art@[y as int]@.len(),
                x <= w,
                s@ == srow + row_chars(g[y as int]).take(x as int),
            decreases w - x,
        {
            let b = art[y][x];
            push_char(&mut s, b as char);
            proof {
                assert(g[y as int][x as int] == art@[y as int]@[x as int]);
                assert(srow + row_chars(g[y as int]).take(x + 1) =~= (srow + row_chars(
                    g[y as int],
                ).take(x as int)).push(g[y as int][x as int] as char));
            }
            x += 1;
        }
        proof {
            assert(row_chars(g[y as int]).take(w as int) =~= row_chars(g[y as int]));
            lemma_join_push(g.take(y as int), g[y as int]);
            assert(g.take(y as int).push(g[y as int]) =~= g.take(y + 1));
            if y == 0 {
                assert(srow =~= join_rows(g.take(0)) + seq!['\n'].take(0));
                assert(s@ =~= join_rows(g.take(1)));
            } else {
                assert(s@ =~= join_rows(g.take(y + 1)));
            }
        }
        y += 1;
    }
    proof {
        assert(g.take(h as int) =~= g);
    }
    s
}

/// Round trip: splitting the serialized text on newlines gives back exactly
/// the rows of the grid, provided the grid is non-empty and no glyph byte is
/// itself the newline byte.
pub proof fn lemma_serialize_round_trip(art: Seq<Seq<u8>>)
    requires
        art.len() > 0,
        forall|y: int, x: int|
            0 <= y < art.len() && 0 <= x < art[y].len() ==> #[trigger] art[y][x] != 10,
    ensures
        split_lines(join_rows(art)) == art.map_values(|r: Seq<u8>| row_chars(r)),
    decreases art.len(),
{
    let s = join_rows(art);
    let r0 = row_chars(art[0]);
    assert forall|k: int| 0 <= k < r0.len() implies r0[k] != '\n' by {
        assert(art[0][k] != 10);
        assert((10u8 as char) == '\n');
    };
    if art.len() == 1 {
        lemma_find_nl_concat(r0, Seq::<char>::empty());
        assert(r0 + Seq::<char>::empty() =~= s);
        assert(find_nl(s) == s.len());
        assert(split_lines(s) =~= seq![s]);
        assert(art.map_values(|r: Seq<u8>| row_chars(r)) =~= seq![row_chars(art[0])]);
    } else {
        let rest = join_rows(art.drop_first());
        assert(s == r0 + seq!['\n'] + rest);
        lemma_find_nl_concat(r0, seq!['\n'] + rest);
        assert(s =~= r0 + (seq!['\n'] + rest));
        assert(find_nl(seq!['\n'] + rest) == 0);
        assert(find_nl(s) == r0.len());
        assert(s.take(r0.len() as int) =~= r0);
        assert(s.skip(r0.len() as int + 1) =~= rest);
        assert forall|y: int, x: int|
            0 <= y < art.drop_first().len() && 0 <= x < art.drop_first()[y].len()
                implies #[trigger] art.drop_first()[y][x] != 10 by {
            assert(art[y + 1][x] != 10);
        };
        lemma_serialize_round_trip(art.drop_first());
        assert(split_lines(s) =~= seq![r0] + split_lines(rest));
        assert(art.map_values(|r: Seq<u8>| row_chars(r)) =~= seq![r0] + art.drop_first().map_values(
            |r: Seq<u8>| row_chars(r),
        ));
    }
}

/// One color-tagged cell: the 24-bit foreground escape followed by the glyph,
/// with no trailing reset.
pub open spec fn ansi_cell(p: Rgb, glyph: u8) -> Seq<char> {
    seq!['\u{1b}', '[', '3', '8', ';', '2', ';'] + dec_str(p.r as int) + seq![';'] + dec_str(
        p.g as int,
    ) + seq![';'] + dec_str(p.b as int) + seq!['m', glyph as char]
}

/// Pairs every glyph with the co-located source pixel as a 24-bit color
/// escape; callers that need a reset must append one themselves.
pub fn addAnsiTrueColor(art: &Vec<Vec<u8>>, img: &Vec<Vec<Rgb>>) -> (r: Vec<Vec<String>>)
    requires
        art.deep_view().len() == img@.len(),
        forall|y: int|
            0 <= y < img@.len() ==> art.deep_view()[y].len() == (#[trigger] img@[y]@).len(),
    ensures
        r@.len() == img@.len(),
        forall|y: int| 0 <= y < img@.len() ==> (#[trigger] r@[y]@).len() == img@[y]@.len(),
        forall|y: int, x: int|
            0 <= y < img@.len() && 0 <= x < img@[y]@.len() ==> (#[trigger] r@[y]@[x])@ == ansi_cell(
                img@[y]@[x],
                art.deep_view()[y][x],
            ),
{
    let h = img.len();
    let mut out: Vec<Vec<String>> = Vec::new();
    let mut y: usize = 0;
    while y < h
        invariant
            h == img@.len(),
            art.deep_view().len() == img@.len(),
            forall|y2: int|
                0 <= y2 < img@.len() ==> art.deep_view()[y2].len() == (#[trigger] img@[y2]@).len(),
            y <= h,
            out@.len() == y,
            forall|y2: int| 0 <= y2 < y ==> (#[trigger] out@[y2]@).len() == img@[y2]@.len(),
            forall|y2: int, x2: int|
                0 <= y2 < y && 0 <= x2 < img@[y2]@.len() ==> (#[trigger] out@[y2]@[x2])@
                    == ansi_cell(img@[y2]@[x2], art.deep_view()[y2][x2]),
        decreases h - y,
    {
        let w = img[y].len();
        let mut row: Vec<String> = Vec::new();
        let mut x: usize = 0;
        while x < w
            invariant
                h == img@.len(),
                art.deep_view().len() == img@.len(),
                forall|y2: int|
                    0 <= y2 < img@.len() ==> art.deep_view()[y2].len() == (
                    #[trigger] img@[y2]@).len(),
                y < h,
                w == img@[y as int]@.len(),
                x <= w,
                row@.len() == x,
                forall|x2: int|
                    0 <= x2 < x ==> (#[trigger] row@[x2])@ == ansi_cell(
                        img@[y as int]@[x2],
                        art.deep_view()[y as int][x2],
                    ),
            decreases w - x,
        {
            let p = img[y][x];
            proof {
                assert(art.deep_view()[y as int].len() == img@[y as int]@.len());
                assert(art.deep_view()[y as int] =~= art@[y as int]@);
            }
            let glyph = art[y][x];
            let mut cell = String::new();
            push_char(&mut cell, '\u{1b}');
            push_char(&mut cell, '[');
            push_char(&mut cell, '3');
            push_char(&mut cell, '8');
            push_char(&mut cell, ';');
            push_char(&mut cell, '2');
            push_char(&mut cell, ';');
            proof {
                assert(cell@ =~= seq!['\u{1b}', '[', '3', '8', ';', '2', ';']);
            }
            let rs = u8_to_decimal(p.r);
            cell.append(rs.as_str());
            push_char(&mut cell, ';');
            let gs = u8_to_decimal(p.g);
            cell.append(gs.as_str());
            push_char(&mut cell, ';');
            let bs = u8_to_decimal(p.b);
            cell.append(bs.as_str());
            push_char(&mut cell, 'm');
            push_char(&mut cell, glyph as char);
            proof {
                assert(cell@ =~= ansi_cell(img@[y as int]@[x as int], glyph));
            }
            row.push(cell);
            x += 1;
        }
        out.push(row);
        proof {
            assert(out@[y as int]@ =~= row@);
        }
        y += 1;
    }
    out
}

} // verus!
