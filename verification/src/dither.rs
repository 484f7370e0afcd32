use vstd::prelude::*;

verus! {

use crate::raster::grid_wf;
use crate::utils::AsciiColorMap;

/// The value `v` is one of the palette's entries.
pub open spec fn in_palette(m: Seq<u8>, v: u8) -> bool {
    exists|k: int| 0 <= k < m.len() && m[k] == v
}

/// Every cell of the grid holds the value `a`.
pub open spec fn flat_grid(g: Seq<Seq<u8>>, a: u8) -> bool {
    forall|y: int, x: int| 0 <= y < g.len() && 0 <= x < g[y].len() ==> #[trigger] g[y][x] == a
}

/// All cells before row `y`, and the cells of row `y` before column `x`,
/// hold palette values.
pub open spec fn quantized_upto(m: Seq<u8>, g: Seq<Seq<u8>>, y: int, x: int) -> bool {
    forall|a: int, b: int|
        0 <= a < g.len() && 0 <= b < g[a].len() && (a < y || (a == y && b < x)) ==> in_palette(
            m,
            #[trigger] g[a][b],
        )
}

/// The error share a neighbour receives: its value plus err * factor / 16
/// (truncated toward zero), clamped to 0..=255.
pub open spec fn diffused(c: u8, err: int, factor: int) -> u8 {
    let d = err * factor;
    let q = if d >= 0 {
        d / 16
    } else {
        -((-d) / 16)
    };
    let v = c + q;
    if v < 0 {
        0u8
    } else if v > 255 {
        255u8
    } else {
        v as u8
    }
}

fn diffuse_err(img: &mut Vec<Vec<u8>>, y: usize, x: usize, err: i32, factor: i32)
    requires
        y < old(img).deep_view().len(),
        x < old(img).deep_view()[y as int].len(),
        -255 <= err <= 255,
        1 <= factor <= 7,
    ensures
        final(img).deep_view() == old(img).deep_view().update(
            y as int,
            old(img).deep_view()[y as int].update(
                x as int,
                diffused(old(img).deep_view()[y as int][x as int], err as int, factor as int),
            ),
        ),
{
    proof {
        assert(-1785 <= err * factor <= 1785) by (nonlinear_arith)
            requires -255 <= err <= 255, 1 <= factor <= 7;
    }
    let d: i32 = err * factor;
    let q: i32 = if d >= 0 {
        d / 16
    } else {
        -((-d) / 16)
    };
    let c = img[y][x];
    let v: i32 = c as i32 + q;
    let nv: u8 = if v < 0 {
        0
    } else if v > 255 {
        255
    } else {
        v as u8
    };
    let row = &mut img[y];
    row.set(x, nv);
    proof {
        assert(final(img).deep_view() =~~= old(img).deep_view().update(
            y as int,
            old(img).deep_view()[y as int].update(
                x as int,
                diffused(old(img).deep_view()[y as int][x as int], err as int, factor as int),
            ),
        ));
    }
}

/// Floyd-Steinberg error diffusion over the raster in scan order: each pixel
/// is replaced by its nearest palette value and the residual is spread to the
/// unprocessed neighbours with weights 7/16, 3/16, 5/16 and 1/16.
///
/// A uniform raster whose value the palette maps to itself is left unchanged.
pub fn dither(img: &mut Vec<Vec<u8>>, map: &AsciiColorMap)
    requires
        map@.len() == 256,
        grid_wf(old(img).deep_view()),
    ensures
        final(img).deep_view().len() == old(img).deep_view().len(),
        forall|y: int|
            0 <= y < old(img).deep_view().len() ==> (#[trigger] final(img).deep_view()[y]).len()
                == old(img).deep_view()[y].len(),
        forall|y: int, x: int|
            0 <= y < final(img).deep_view().len() && 0 <= x < final(img).deep_view()[y].len()
                ==> in_palette(map@, #[trigger] final(img).deep_view()[y][x]),
        forall|a: u8|
            flat_grid(old(img).deep_view(), a) && map@[a as int] == a ==> final(img).deep_view()
                == old(img).deep_view(),
{
    let ghost g0 = old(img).deep_view();
    let h = img.len();
    let mut y: usize = 0;
    while y < h
        invariant
            map@.len() == 256,
            grid_wf(g0),
            h == g0.len() == img.deep_view().len(),
            y <= h,
            forall|r: int|
                0 <= r < h ==> (#[trigger] img.deep_view()[r]).len() == g0[r].len(),
            quantized_upto(map@, img.deep_view(), y as int, 0),
            forall|a: u8|
                flat_grid(g0, a) && map@[a as int] == a ==> img.deep_view() == g0,
        decreases h - y,
    {
        proof {
            assert(img.deep_view()[y as int] =~= img@[y as int]@);
        }
        let w = img[y].len();
        let mut x: usize = 0;
        while x < w
            invariant
                map@.len() == 256,
                grid_wf(g0),
                h == g0.len() == img.deep_view().len(),
                y < h,
                x <= w,
                w == g0[y as int].len(),
                forall|r: int|
                    0 <= r < h ==> (#[trigger] img.deep_view()[r]).len() == g0[r].len(),
                quantized_upto(map@, img.deep_view(), y as int, x as int),
                forall|a: u8|
                    flat_grid(g0, a) && map@[a as int] == a ==> img.deep_view() == g0,
            decreases w - x,
        {
            let ghost s0 = img.deep_view();
            proof {
                assert(img.deep_view()[y as int] =~= img@[y as int]@);
            }
            let old_p = img[y][x];
            let mut new_p = old_p;
            map.map_color(&mut new_p);
            let row = &mut img[y];
            row.set(x, new_p);
            let ghost s1 = img.deep_view();
            proof {
                assert(s1 =~~= s0.update(y as int, s0[y as int].update(x as int, new_p)));
            }
            let err: i32 = old_p as i32 - new_p as i32;
            if err != 0 {
                if x + 1 < w {
                    diffuse_err(img, y, x + 1, err, 7);
                }
                if y + 1 < h {
                    proof {
                        assert(img.deep_view()[y + 1].len() == g0[y + 1].len());
                        assert(g0[y + 1].len() == crate::raster::grid_w(g0));
                        assert(g0[y as int].len() == crate::raster::grid_w(g0));
                    }
                    if x > 0 {
                        diffuse_err(img, y + 1, x - 1, err, 3);
                    }
                    diffuse_err(img, y + 1, x, err, 5);
                    if x + 1 < w {
                        proof {
                            assert(img.deep_view()[y + 1].len() == g0[y + 1].len());
                        }
                        diffuse_err(img, y + 1, x + 1, err, 1);
                    }
                }
            }
            proof {
                let s2 = img.deep_view();
                // Shapes are preserved: every step was an update of one cell.
                assert forall|r: int| 0 <= r < h implies (#[trigger] s2[r]).len()
                    == g0[r].len() by {};
                // Cells at or before (y, x) were not touched by the diffusion.
                assert forall|a: int, b: int|
                    0 <= a < s2.len() && 0 <= b < s2[a].len() && (a < y || (a == y && b <= x))
                        implies s2[a][b] == s1[a][b] by {};
                assert(s1[y as int][x as int] == new_p);
                assert(in_palette(map@, new_p)) by {
                    assert(map@[old_p as int] == new_p);
                };
                assert(quantized_upto(map@, s2, y as int, x as int + 1)) by {
                    assert forall|a: int, b: int|
                        0 <= a < s2.len() && 0 <= b < s2[a].len() && (a < y as int || (a == y as int
                            && b < x as int + 1)) implies in_palette(map@, #[trigger] s2[a][b]) by {
                        assert(s2[a][b] == s1[a][b]);
                        if a < y as int || (a == y as int && b < x as int) {
                            assert(s1[a][b] == s0[a][b]);
                            assert(in_palette(map@, s0[a][b]));
                        } else {
                            assert(s1[a][b] == new_p);
                        }
                    };
                };
                // A flat raster at a palette fixed point is left unchanged.
                assert forall|a: u8|
                    flat_grid(g0, a) && map@[a as int] == a implies img.deep_view() == g0 by {
                    assert(s0 == g0);
                    assert(old_p == g0[y as int][x as int]);
                    assert(old_p == a);
                    assert(new_p == a);
                    assert(err == 0);
                    assert(s1 =~~= g0);
                };
            }
            x += 1;
        }
        proof {
            assert(quantized_upto(map@, img.deep_view(), y as int + 1, 0)) by {
                assert forall|a: int, b: int|
                    0 <= a < img.deep_view().len() && 0 <= b < img.deep_view()[a].len() && (a < y
                        as int + 1 || (a == y as int + 1 && b < 0)) implies in_palette(
                    map@,
                    #[trigger] img.deep_view()[a][b],
                ) by {
                    if a == y as int {
                        assert(b < g0[y as int].len());
                    }
                };
            };
        }
        y += 1;
    }
    proof {
        assert forall|y2: int, x2: int|
            0 <= y2 < img.deep_view().len() && 0 <= x2 < img.deep_view()[y2].len() implies
            in_palette(map@, #[trigger] img.deep_view()[y2][x2]) by {
            assert(quantized_upto(map@, img.deep_view(), h as int, 0));
        };
    }
}

} // verus!
