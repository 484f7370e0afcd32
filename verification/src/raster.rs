use vstd::prelude::*;

verus! {

use vstd::arithmetic::div_mod::{
    lemma_div_is_ordered,
    lemma_div_multiples_vanish_fancy,
    lemma_div_pos_is_pos,
};
use vstd::arithmetic::mul::lemma_mul_inequality;
use crate::scale::{lemma_scale_bounds, lemma_scale_mono, scale, scale_intensity};

/// One true-color pixel.
#[derive(Clone, Copy, Debug, PartialEq, Eq, Structural)]
pub struct Rgb {
    pub r: u8,
    pub g: u8,
    pub b: u8,
}

/// A rectangular grid: every row has the width of the first row.
pub open spec fn grid_wf(g: Seq<Seq<u8>>) -> bool {
    forall|y: int| 0 <= y < g.len() ==> (#[trigger] g[y]).len() == grid_w(g)
}

pub open spec fn grid_w(g: Seq<Seq<u8>>) -> int {
    if g.len() == 0 {
        0
    } else {
        g[0].len() as int
    }
}

/// The value `v` occurs somewhere in the grid.
pub open spec fn cell_in(g: Seq<Seq<u8>>, v: u8) -> bool {
    exists|y: int, x: int| 0 <= y < g.len() && 0 <= x < g[y].len() && #[trigger] g[y][x] == v
}

/// Every cell is at least `m`.
pub open spec fn grid_lb(g: Seq<Seq<u8>>, m: u8) -> bool {
    forall|y: int, x: int| 0 <= y < g.len() && 0 <= x < g[y].len() ==> #[trigger] g[y][x] >= m
}

/// Every cell is at most `m`.
pub open spec fn grid_ub(g: Seq<Seq<u8>>, m: u8) -> bool {
    forall|y: int, x: int| 0 <= y < g.len() && 0 <= x < g[y].len() ==> #[trigger] g[y][x] <= m
}

/// `mn` and `mx` are the attained minimum and maximum of the grid.
pub open spec fn bounds_of(g: Seq<Seq<u8>>, mn: u8, mx: u8) -> bool {
    cell_in(g, mn) && grid_lb(g, mn) && cell_in(g, mx) && grid_ub(g, mx)
}

pub open spec fn row_sum(row: Seq<u8>, x0: int, x1: int) -> int
    decreases x1 - x0,
{
    if x1 <= x0 {
        0
    } else {
        row_sum(row, x0, x1 - 1) + row[x1 - 1]
    }
}

/// Sum of the rectangle with columns [x0, x1) and rows [y0, y1).
pub open spec fn block_sum(g: Seq<Seq<u8>>, x0: int, x1: int, y0: int, y1: int) -> int
    decreases y1 - y0,
{
    if y1 <= y0 {
        0
    } else {
        block_sum(g, x0, x1, y0, y1 - 1) + row_sum(g[y1 - 1], x0, x1)
    }
}

proof fn lemma_row_sum_bound(row: Seq<u8>, x0: int, x1: int)
    ensures
        0 <= row_sum(row, x0, x1),
        row_sum(row, x0, x1) <= 255 * (if x1 >= x0 {
            x1 - x0
        } else {
            0
        }),
    decreases x1 - x0,
{
    if x1 > x0 {
        lemma_row_sum_bound(row, x0, x1 - 1);
    }
}

proof fn lemma_block_sum_bound(g: Seq<Seq<u8>>, x0: int, x1: int, y0: int, y1: int)
    requires
        x0 <= x1,
    ensures
        0 <= block_sum(g, x0, x1, y0, y1),
        block_sum(g, x0, x1, y0, y1) <= 255 * (x1 - x0) * (if y1 >= y0 {
            y1 - y0
        } else {
            0
        }),
    decreases y1 - y0,
{
    if y1 > y0 {
        lemma_block_sum_bound(g, x0, x1, y0, y1 - 1);
        lemma_row_sum_bound(g[y1 - 1], x0, x1);
        assert(255 * (x1 - x0) * (y1 - y0) == 255 * (x1 - x0) * (y1 - 1 - y0) + 255 * (x1 - x0))
            by (nonlinear_arith);
    }
}

/// The rounded (half up) mean of the block: round(sum / count).
pub open spec fn block_mean(g: Seq<Seq<u8>>, x0: int, x1: int, y0: int, y1: int) -> int {
    (2 * block_sum(g, x0, x1, y0, y1) + (x1 - x0) * (y1 - y0)) / (2 * (x1 - x0) * (y1 - y0))
}

pub open spec fn min_int(a: int, b: int) -> int {
    if a <= b {
        a
    } else {
        b
    }
}

/// What downsampling promises of each output cell, with a 7 x 14 cell size:
/// the rounded mean of the source block that the cell covers.
pub open spec fn downsampled(g: Seq<Seq<u8>>, o: Seq<Seq<u8>>) -> bool {
    let h = g.len() as int;
    let w = grid_w(g);
    &&& o.len() == (h + 13) / 14
    &&& forall|y: int| 0 <= y < o.len() ==> (#[trigger] o[y]).len() == (w + 6) / 7
    &&& forall|y: int, x: int|
        0 <= y < o.len() && 0 <= x < o[y].len() ==> #[trigger] o[y][x] == block_mean(
            g,
            7 * x,
            min_int(7 * x + 7, w),
            14 * y,
            min_int(14 * y + 14, h),
        )
}

/// The rounded mean of one source block, as executable code.
fn block_mean_exec(img: &Vec<Vec<u8>>, x0: usize, x1: usize, y0: usize, y1: usize) -> (m: u8)
    requires
        grid_wf(img.deep_view()),
        x0 < x1 <= grid_w(img.deep_view()),
        x1 - x0 <= 7,
        y0 < y1 <= img.deep_view().len(),
        y1 - y0 <= 14,
    ensures
        m == block_mean(img.deep_view(), x0 as int, x1 as int, y0 as int, y1 as int),
{
    let ghost g = img.deep_view();
    let mut sum: u32 = 0;
    let mut y = y0;
    while y < y1
        invariant
            grid_wf(g),
            g == img.deep_view(),
            x0 < x1 <= grid_w(g),
            x1 - x0 <= 7,
            y0 <= y <= y1 <= g.len(),
            y1 - y0 <= 14,
            sum == block_sum(g, x0 as int, x1 as int, y0 as int, y as int),
            sum <= 24990,
        decreases y1 - y,
    {
        proof {
            lemma_block_sum_bound(g, x0 as int, x1 as int, y0 as int, y as int);
        }
        let mut x = x0;
        while x < x1
            invariant
                grid_wf(g),
                g == img.deep_view(),
                x0 <= x <= x1 <= grid_w(g),
                x1 - x0 <= 7,
                y0 <= y < y1 <= g.len(),
                y1 - y0 <= 14,
                sum == block_sum(g, x0 as int, x1 as int, y0 as int, y as int) + row_sum(
                    g[y as int],
                    x0 as int,
                    x as int,
                ),
                sum <= 26775,
            decreases x1 - x,
        {
            proof {
                lemma_block_sum_bound(g, x0 as int, x1 as int, y0 as int, y as int);
                lemma_row_sum_bound(g[y as int], x0 as int, x as int);
                assert(255 * (x1 - x0) * (y - y0) <= 23205) by (nonlinear_arith)
                    requires 0 <= x1 - x0 <= 7, 0 <= y - y0 <= 13;
                assert(255 * (x - x0) <= 1530) by (nonlinear_arith)
                    requires 0 <= x - x0 <= 6;
                assert(g[y as int].len() == grid_w(g));
            }
            sum = sum + img[y][x] as u32;
            proof {
                assert(g[y as int][x as int] == img@[y as int]@[x as int]);
            }
            x += 1;
        }
        proof {
            lemma_block_sum_bound(g, x0 as int, x1 as int, y0 as int, y as int + 1);
            assert(255 * (x1 - x0) * (y + 1 - y0) <= 24990) by (nonlinear_arith)
                requires 0 <= x1 - x0 <= 7, 0 <= y + 1 - y0 <= 14;
        }
        y += 1;
    }
    proof {
        lemma_block_sum_bound(g, x0 as int, x1 as int, y0 as int, y1 as int);
        assert(255 * (x1 - x0) * (y1 - y0) <= 24990) by (nonlinear_arith)
            requires 0 <= x1 - x0 <= 7, 0 <= y1 - y0 <= 14;
        assert((x1 - x0) * (y1 - y0) >= 1) by (nonlinear_arith)
            requires x0 < x1, y0 < y1;
        assert((x1 - x0) * (y1 - y0) <= 98) by (nonlinear_arith)
            requires 0 <= x1 - x0 <= 7, 0 <= y1 - y0 <= 14;
    }
    let cnt: u32 = ((x1 - x0) * (y1 - y0)) as u32;
    let num: u32 = 2 * sum + cnt;
    let den: u32 = 2 * cnt;
    proof {
        let s = block_sum(g, x0 as int, x1 as int, y0 as int, y1 as int);
        let c = cnt as int;
        assert(255 * (x1 - x0) * (y1 - y0) == 255 * ((x1 - x0) * (y1 - y0))) by (nonlinear_arith);
        assert(sum as int <= 255 * c);
        lemma_div_pos_is_pos(num as int, den as int);
        assert(num <= den * 255 + cnt) by (nonlinear_arith)
            requires
                num == 2 * sum + cnt,
                den == 2 * cnt,
                0 < cnt,
                sum as int <= 255 * c,
                c == cnt as int;
        lemma_div_is_ordered(num as int, den as int * 255 + cnt as int, den as int);
        lemma_div_multiples_vanish_fancy(255, cnt as int, den as int);
        assert(2 * (x1 - x0) * (y1 - y0) == 2 * ((x1 - x0) * (y1 - y0))) by (nonlinear_arith);
        assert(num as int == 2 * s + (x1 - x0) * (y1 - y0));
        assert(num as int / (den as int) == block_mean(g, x0 as int, x1 as int, y0 as int, y1 as int));
    }
    (num / den) as u8
}

/// Block-average downsampling onto a 7 x 14 character cell, the output
/// having ceil(w / 7) columns and ceil(h / 14) rows.
pub fn downsample(img: &Vec<Vec<u8>>) -> (r: Vec<Vec<u8>>)
    requires
        grid_wf(img.deep_view()),
        img.deep_view().len() < 0x4000_0000,
        grid_w(img.deep_view()) < 0x4000_0000,
    ensures
        downsampled(img.deep_view(), r.deep_view()),
        grid_wf(r.deep_view()),
{
    let ghost g = img.deep_view();
    let h = img.len();
    let w = if h == 0 {
        0
    } else {
        img[0].len()
    };
    proof {
        assert(w == grid_w(g));
    }
    let out_h = (h + 13) / 14;
    let out_w = (w + 6) / 7;
    let mut out: Vec<Vec<u8>> = Vec::new();
    let mut yy: usize = 0;
    while yy < out_h
        invariant
            grid_wf(g),
            g == img.deep_view(),
            h == g.len() < 0x4000_0000,
            w == grid_w(g) < 0x4000_0000,
            out_h == (h + 13) / 14,
            out_w == (w + 6) / 7,
            yy <= out_h,
            out.deep_view().len() == yy,
            forall|y: int| 0 <= y < yy ==> (#[trigger] out.deep_view()[y]).len() == out_w,
            forall|y: int, x: int|
                0 <= y < yy && 0 <= x < out_w ==> #[trigger] out.deep_view()[y][x] == block_mean(
                    g,
                    7 * x,
                    min_int(7 * x + 7, w as int),
                    14 * y,
                    min_int(14 * y + 14, h as int),
                ),
        decreases out_h - yy,
    {
        proof {
            lemma_div_multiples_vanish_fancy(yy as int, 0, 14);
            assert(14 * yy <= 14 * ((h + 13) / 14 - 1) < h) by {
                vstd::arithmetic::div_mod::lemma_fundamental_div_mod(h as int + 13, 14);
                assert(14 * ((h as int + 13) / 14) <= h + 13);
                assert(14 * ((h as int + 13) / 14 - 1) == 14 * ((h as int + 13) / 14) - 14)
                    by (nonlinear_arith);
                assert(yy <= (h as int + 13) / 14 - 1);
                lemma_mul_inequality(yy as int, (h as int + 13) / 14 - 1, 14);
                assert(yy as int * 14 == 14 * yy) by (nonlinear_arith);
            };
        }
        let y0 = 14 * yy;
        let y1 = if y0 + 14 <= h {
            y0 + 14
        } else {
            h
        };
        let mut row_out: Vec<u8> = Vec::new();
        let mut xx: usize = 0;
        while xx < out_w
            invariant
                grid_wf(g),
                g == img.deep_view(),
                h == g.len() < 0x4000_0000,
                w == grid_w(g) < 0x4000_0000,
                out_w == (w + 6) / 7,
                xx <= out_w,
                y0 == 14 * yy,
                y0 < y1 <= h,
                y1 as int == min_int(14 * yy + 14, h as int),
                y1 - y0 <= 14,
                row_out@.len() == xx,
                forall|x: int|
                    0 <= x < xx ==> #[trigger] row_out@[x] == block_mean(
                        g,
                        7 * x,
                        min_int(7 * x + 7, w as int),
                        y0 as int,
                        y1 as int,
                    ),
            decreases out_w - xx,
        {
            proof {
                assert(7 * xx <= 7 * ((w + 6) / 7 - 1) < w) by {
                    vstd::arithmetic::div_mod::lemma_fundamental_div_mod(w as int + 6, 7);
                    assert(7 * ((w as int + 6) / 7 - 1) == 7 * ((w as int + 6) / 7) - 7)
                        by (nonlinear_arith);
                    assert(xx <= (w as int + 6) / 7 - 1);
                    lemma_mul_inequality(xx as int, (w as int + 6) / 7 - 1, 7);
                    assert(xx as int * 7 == 7 * xx) by (nonlinear_arith);
                };
            }
            let x0 = 7 * xx;
            let x1 = if x0 + 7 <= w {
                x0 + 7
            } else {
                w
            };
            let m = block_mean_exec(img, x0, x1, y0, y1);
            row_out.push(m);
            xx += 1;
        }
        let ghost preo = out.deep_view();
        out.push(row_out);
        proof {
            assert forall|y: int| 0 <= y < yy implies #[trigger] out.deep_view()[y] == preo[y] by {};
            assert(out.deep_view()[yy as int] =~= row_out@);
            assert forall|y: int, x: int|
                0 <= y < yy + 1 && 0 <= x < out_w implies #[trigger] out.deep_view()[y][x]
                == block_mean(
                g,
                7 * x,
                min_int(7 * x + 7, w as int),
                14 * y,
                min_int(14 * y + 14, h as int),
            ) by {
                if y < yy {
                } else {
                    assert(out.deep_view()[y][x] == row_out@[x]);
                }
            };
        }
        yy += 1;
    }
    out
}

/// Min-max contrast stretch: rescales every pixel so the attained minimum
/// maps to 0 and the attained maximum to 255, order preserved. A flat or
/// empty image is returned unchanged instead of dividing by zero.
pub fn stretchContrast(img: Vec<Vec<u8>>) -> (r: Vec<Vec<u8>>)
    requires
        grid_wf(img.deep_view()),
    ensures
        r.deep_view().len() == img.deep_view().len(),
        forall|y: int|
            0 <= y < r.deep_view().len() ==> (#[trigger] r.deep_view()[y]).len()
                == img.deep_view()[y].len(),
        forall|mn: u8, mx: u8|
            #[trigger] bounds_of(img.deep_view(), mn, mx) && mn == mx ==> r.deep_view()
                == img.deep_view(),
        forall|mn: u8, mx: u8|
            #[trigger] bounds_of(img.deep_view(), mn, mx) && mn != mx ==> forall|y: int, x: int|
                0 <= y < r.deep_view().len() && 0 <= x < r.deep_view()[y].len()
                    ==> #[trigger] r.deep_view()[y][x] == scale(
                    img.deep_view()[y][x] as int,
                    mn as int,
                    mx - mn,
                ),
{
    let ghost g = img.deep_view();
    let h = img.len();
    if h == 0 {
        return img;
    }
    let w = img[0].len();
    if w == 0 {
        proof {
            assert forall|mn: u8, mx: u8| !bounds_of(g, mn, mx) by {
                if cell_in(g, mn) {
                    let (a, b) = choose|a: int, b: int|
                        0 <= a < g.len() && 0 <= b < g[a].len() && g[a][b] == mn;
                    assert(g[a].len() == 0);
                }
            };
        }
        return img;
    }
    let mut minP: u8 = img[0][0];
    let mut maxP: u8 = img[0][0];
    let ghost mut wy: int = 0;
    let ghost mut wx: int = 0;
    let ghost mut zy: int = 0;
    let ghost mut zx: int = 0;
    let mut y: usize = 0;
    while y < h
        invariant
            grid_wf(g),
            g == img.deep_view(),
            h == g.len(),
            w == grid_w(g),
            0 < h,
            0 < w,
            y <= h,
            0 <= wy < h && 0 <= wx < g[wy].len() && g[wy][wx] == minP,
            0 <= zy < h && 0 <= zx < g[zy].len() && g[zy][zx] == maxP,
            forall|a: int, b: int|
                0 <= a < y && 0 <= b < g[a].len() ==> minP <= #[trigger] g[a][b] <= maxP,
        decreases h - y,
    {
        let mut x: usize = 0;
        while x < w
            invariant
                grid_wf(g),
                g == img.deep_view(),
                h == g.len(),
                w == grid_w(g),
                0 < h,
                0 < w,
                y < h,
                x <= w,
                0 <= wy < h && 0 <= wx < g[wy].len() && g[wy][wx] == minP,
                0 <= zy < h && 0 <= zx < g[zy].len() && g[zy][zx] == maxP,
                forall|a: int, b: int|
                    0 <= a < y && 0 <= b < g[a].len() ==> minP <= #[trigger] g[a][b] <= maxP,
                forall|b: int| 0 <= b < x ==> minP <= #[trigger] g[y as int][b] <= maxP,
            decreases w - x,
        {
            proof {
                assert(g[y as int].len() == grid_w(g));
            }
            let p = img[y][x];
            if p < minP {
                minP = p;
                proof {
                    wy = y as int;
                    wx = x as int;
                }
            }
            if p > maxP {
                maxP = p;
                proof {
                    zy = y as int;
                    zx = x as int;
                }
            }
            x += 1;
        }
        y += 1;
    }
    proof {
        assert(bounds_of(g, minP, maxP));
    }
    if maxP == minP {
        proof {
            assert forall|mn: u8, mx: u8| #[trigger] bounds_of(g, mn, mx) implies mn == mx by {
                lemma_bounds_unique(g, mn, mx, minP, maxP);
            };
        }
        return img;
    }
    let rangeP = maxP - minP;
    let mut out: Vec<Vec<u8>> = Vec::new();
    let mut y: usize = 0;
    while y < h
        invariant
            grid_wf(g),
            g == img.deep_view(),
            h == g.len(),
            w == grid_w(g),
            y <= h,
            grid_lb(g, minP),
            grid_ub(g, maxP),
            0 < rangeP == maxP - minP,
            out.deep_view().len() == y,
            forall|a: int|
                0 <= a < y ==> (#[trigger] out.deep_view()[a]).len() == g[a].len(),
            forall|a: int, b: int|
                0 <= a < y && 0 <= b < g[a].len() ==> #[trigger] out.deep_view()[a][b] == scale(
                    g[a][b] as int,
                    minP as int,
                    rangeP as int,
                ),
        decreases h - y,
    {
        let mut row: Vec<u8> = Vec::new();
        let mut x: usize = 0;
        while x < w
            invariant
                grid_wf(g),
                g == img.deep_view(),
                h == g.len(),
                w == grid_w(g),
                y < h,
                x <= w,
                grid_lb(g, minP),
                grid_ub(g, maxP),
                0 < rangeP == maxP - minP,
                row@.len() == x,
                forall|b: int|
                    0 <= b < x ==> #[trigger] row@[b] == scale(
                        g[y as int][b] as int,
                        minP as int,
                        rangeP as int,
                    ),
            decreases w - x,
        {
            proof {
                assert(g[y as int].len() == grid_w(g));
            }
            let p = img[y][x];
            proof {
                assert(minP <= g[y as int][x as int] <= maxP);
            }
            row.push(scale_intensity(p, minP, rangeP));
            x += 1;
        }
        let ghost preo = out.deep_view();
        out.push(row);
        proof {
            assert forall|a: int| 0 <= a < y implies #[trigger] out.deep_view()[a] == preo[a] by {};
            assert(out.deep_view()[y as int] =~= row@);
        }
        y += 1;
    }
    proof {
        assert forall|mn: u8, mx: u8| #[trigger] bounds_of(g, mn, mx) implies mn == minP && mx
            == maxP by {
            lemma_bounds_unique(g, mn, mx, minP, maxP);
        };
    }
    out
}

/// The attained minimum and maximum of a grid are unique.
proof fn lemma_bounds_unique(g: Seq<Seq<u8>>, mn1: u8, mx1: u8, mn2: u8, mx2: u8)
    requires
        bounds_of(g, mn1, mx1),
        bounds_of(g, mn2, mx2),
    ensures
        mn1 == mn2,
        mx1 == mx2,
{
    let (a1, b1) = choose|a: int, b: int|
        0 <= a < g.len() && 0 <= b < g[a].len() && #[trigger] g[a][b] == mn1;
    let (a2, b2) = choose|a: int, b: int|
        0 <= a < g.len() && 0 <= b < g[a].len() && #[trigger] g[a][b] == mn2;
    assert(mn2 <= g[a1][b1]);
    assert(mn1 <= g[a2][b2]);
    let (c1, d1) = choose|a: int, b: int|
        0 <= a < g.len() && 0 <= b < g[a].len() && #[trigger] g[a][b] == mx1;
    let (c2, d2) = choose|a: int, b: int|
        0 <= a < g.len() && 0 <= b < g[a].len() && #[trigger] g[a][b] == mx2;
    assert(g[c1][d1] <= mx2);
    assert(g[c2][d2] <= mx1);
}

/// The contrast stretch keeps the order of pixel values, sends the attained
/// minimum to 0 and the attained maximum to 255, and stays within 0..=255.
pub proof fn lemma_stretch_extremes(g: Seq<Seq<u8>>, o: Seq<Seq<u8>>, mn: u8, mx: u8)
    requires
        bounds_of(g, mn, mx),
        mn != mx,
        o.len() == g.len(),
        forall|y: int| 0 <= y < o.len() ==> (#[trigger] o[y]).len() == g[y].len(),
        forall|y: int, x: int|
            0 <= y < o.len() && 0 <= x < o[y].len() ==> #[trigger] o[y][x] == scale(
                g[y][x] as int,
                mn as int,
                mx - mn,
            ),
    ensures
        cell_in(o, 0),
        cell_in(o, 255),
        forall|y1: int, x1: int, y2: int, x2: int|
            0 <= y1 < g.len() && 0 <= x1 < g[y1].len() && 0 <= y2 < g.len() && 0 <= x2
                < g[y2].len() && #[trigger] g[y1][x1] <= #[trigger] g[y2][x2] ==> o[y1][x1]
                <= o[y2][x2],
{
    let range = mx - mn;
    let (a, b) = choose|a: int, b: int|
        0 <= a < g.len() && 0 <= b < g[a].len() && #[trigger] g[a][b] == mn;
    lemma_scale_bounds(mn as int, mn as int, range as int);
    assert(o[a][b] == 0);
    let (c, d) = choose|a: int, b: int|
        0 <= a < g.len() && 0 <= b < g[a].len() && #[trigger] g[a][b] == mx;
    lemma_scale_bounds(mx as int, mn as int, range as int);
    assert(o[c][d] == 255);
    assert forall|y1: int, x1: int, y2: int, x2: int|
        0 <= y1 < g.len() && 0 <= x1 < g[y1].len() && 0 <= y2 < g.len() && 0 <= x2 < g[y2].len()
            && #[trigger] g[y1][x1] <= #[trigger] g[y2][x2] implies o[y1][x1] <= o[y2][x2] by {
        lemma_scale_mono(g[y1][x1] as int, g[y2][x2] as int, mn as int, range as int);
        lemma_scale_bounds(g[y1][x1] as int, mn as int, range as int);
        lemma_scale_bounds(g[y2][x2] as int, mn as int, range as int);
    };
}

/// The linear-luminance weight formula, rounded half up:
/// round((2126 r + 7152 g + 722 b) / 10000).
pub open spec fn luma_of(p: Rgb) -> int {
    (2 * (2126 * p.r + 7152 * p.g + 722 * p.b) + 10000) / 20000
}

fn luma(p: Rgb) -> (l: u8)
    ensures
        l == luma_of(p),
{
    let s: u32 = 2126 * p.r as u32 + 7152 * p.g as u32 + 722 * p.b as u32;
    let num: u32 = 2 * s + 10000;
    proof {
        lemma_div_pos_is_pos(num as int, 20000);
        lemma_div_is_ordered(num as int, (20000 * 255 + 10000) as int, 20000int);
        lemma_div_multiples_vanish_fancy(255, 10000, 20000);
    }
    (num / 20000) as u8
}

/// Converts a true-color raster to grayscale with the weighted luminance mix.
pub fn grayscale(img: &Vec<Vec<Rgb>>) -> (r: Vec<Vec<u8>>)
    ensures
        r.deep_view().len() == img@.len(),
        forall|y: int| 0 <= y < img@.len() ==> (#[trigger] r.deep_view()[y]).len() == img@[y]@.len(),
        forall|y: int, x: int|
            0 <= y < img@.len() && 0 <= x < img@[y]@.len() ==> #[trigger] r.deep_view()[y][x]
                == luma_of(img@[y]@[x]),
{
    let h = img.len();
    let mut out: Vec<Vec<u8>> = Vec::new();
    let mut y: usize = 0;
    while y < h
        invariant
            h == img@.len(),
            y <= h,
            out.deep_view().len() == y,
            forall|a: int| 0 <= a < y ==> (#[trigger] out.deep_view()[a]).len() == img@[a]@.len(),
            forall|a: int, b: int|
                0 <= a < y && 0 <= b < img@[a]@.len() ==> #[trigger] out.deep_view()[a][b]
                    == luma_of(img@[a]@[b]),
        decreases h - y,
    {
        let w = img[y].len();
        let mut row: Vec<u8> = Vec::new();
        let mut x: usize = 0;
        while x < w
            invariant
                h == img@.len(),
                y < h,
                w == img@[y as int]@.len(),
                x <= w,
                row@.len() == x,
                forall|b: int| 0 <= b < x ==> #[trigger] row@[b] == luma_of(img@[y as int]@[b]),
            decreases w - x,
        {
            let p = img[y][x];
            row.push(luma(p));
            x += 1;
        }
        let ghost preo = out.deep_view();
        out.push(row);
        proof {
            assert forall|a: int| 0 <= a < y implies #[trigger] out.deep_view()[a] == preo[a] by {};
            assert(out.deep_view()[y as int] =~= row@);
        }
        y += 1;
    }
    out
}

} // verus!
