//! Decisions of the painting pipeline that do not depend on pixel values.

use vstd::prelude::*;

use vstd::arithmetic::div_mod::{lemma_fundamental_div_mod, lemma_fundamental_div_mod_converse};

use crate::buf::{image_overlay, RgbBuf};

verus! {

/// Strokes between two progress snapshots when `total` strokes are painted:
/// about 120 snapshots over the whole painting, at least one stroke apart.
pub open spec fn frame_interval(total: int) -> int {
    if total / 120 >= 1 { total / 120 } else { 1 }
}

/// Whether a progress snapshot is taken after the `done`-th stroke of `total`:
/// every `frame_interval(total)` strokes, and always after the last one.
pub fn frame_due(done: usize, total: usize) -> (due: bool)
    ensures
        due == (done % (frame_interval(total as int) as usize) == 0 || done == total),
{
    let every: usize = if total / 120 >= 1 { total / 120 } else { 1 };
    done % every == 0 || done == total
}

/// Widest tile (1 when there is none).
pub open spec fn max_width(tiles: Seq<RgbBuf>) -> int
    decreases tiles.len(),
{
    if tiles.len() == 0 {
        1
    } else if tiles.len() == 1 {
        tiles[0].width as int
    } else {
        let m = max_width(tiles.drop_last());
        if tiles.last().width > m { tiles.last().width as int } else { m }
    }
}

/// Width of the overview sheet for tiles at most `tw` wide: four columns, 12 px gaps.
pub open spec fn sheet_width(tw: int) -> int {
    4 * (tw + 12) + 12
}

/// Height of the overview sheet for `n` tiles: rows of 260 px, 12 px gaps.
pub open spec fn sheet_height(n: int) -> int {
    ((n + 3) / 4) * 272 + 12
}

/// Pixel `(x, y)` of the overview sheet: tile `i` sits in column `i % 4`, row `i / 4`,
/// horizontally centred in its `tw`-wide cell; everything else is dark grey (34, 34, 34).
pub open spec fn overview_pixel(tiles: Seq<RgbBuf>, tw: int, x: int, y: int) -> (u8, u8, u8) {
    if x >= 12 && y >= 12 {
        let c = (x - 12) / (tw + 12);
        let ox = (x - 12) % (tw + 12);
        let r = (y - 12) / 272;
        let oy = (y - 12) % 272;
        let i = r * 4 + c;
        let t = tiles[i];
        let off = (tw - t.width) / 2;
        if c < 4 && i < tiles.len() && oy < 260 && off <= ox < off + t.width {
            t.pixel(t.index(ox - off, oy))
        } else {
            (34u8, 34u8, 34u8)
        }
    } else {
        (34u8, 34u8, 34u8)
    }
}

/// Top-left corner of tile `k` on the sheet.
pub open spec fn tile_origin(tiles: Seq<RgbBuf>, tw: int, k: int) -> (int, int) {
    (12 + (k % 4) * (tw + 12) + (tw - tiles[k].width) / 2, 12 + (k / 4) * 272)
}

proof fn lemma_max_width_bounds(tiles: Seq<RgbBuf>, k: int)
    requires
        0 <= k < tiles.len(),
    ensures
        tiles[k].width <= max_width(tiles),
        max_width(tiles) >= 0,
    decreases tiles.len(),
{
    if tiles.len() > 1 {
        if k < tiles.len() - 1 {
            lemma_max_width_bounds(tiles.drop_last(), k);
        } else {
            lemma_max_width_bounds(tiles.drop_last(), 0);
        }
    }
}

/// Placing tile `k` changes exactly the pixels of its rectangle, and only in the way the
/// sheet formula says.
proof fn lemma_overview_step(tiles: Seq<RgbBuf>, tw: int, k: int, x: int, y: int)
    requires
        0 <= k < tiles.len(),
        0 <= tiles[k].width <= tw,
        tiles[k].height == 260,
        x >= 0,
        y >= 0,
    ensures
        overview_pixel(tiles.take(k + 1), tw, x, y) == (if tile_origin(tiles, tw, k).0 <= x
            < tile_origin(tiles, tw, k).0 + tiles[k].width && tile_origin(tiles, tw, k).1 <= y
            < tile_origin(tiles, tw, k).1 + tiles[k].height {
            tiles[k].pixel(
                tiles[k].index(x - tile_origin(tiles, tw, k).0, y - tile_origin(tiles, tw, k).1),
            )
        } else {
            overview_pixel(tiles.take(k), tw, x, y)
        }),
{
    let p = tw + 12;
    let t = tiles[k];
    let off = (tw - t.width) / 2;
    let (x0, y0) = tile_origin(tiles, tw, k);
    lemma_fundamental_div_mod(k, 4);
    assert(tiles.take(k + 1)[k] == t);
    assert(0 <= off && off + t.width <= tw) by (nonlinear_arith)
        requires off == (tw - t.width) / 2, 0 <= t.width <= tw;
    if x >= 12 && y >= 12 {
        lemma_fundamental_div_mod(x - 12, p);
        lemma_fundamental_div_mod(y - 12, 272);
        let c = (x - 12) / p;
        let ox = (x - 12) % p;
        let r = (y - 12) / 272;
        let oy = (y - 12) % 272;
        let i = r * 4 + c;
        assert(0 <= c) by (nonlinear_arith) requires x - 12 >= 0, p > 0, c == (x - 12) / p;
        assert(0 <= r) by (nonlinear_arith) requires y - 12 >= 0, r == (y - 12) / 272;
        if x0 <= x < x0 + t.width && y0 <= y < y0 + t.height {
            lemma_fundamental_div_mod_converse(x - 12, p, k % 4, off + (x - x0));
            lemma_fundamental_div_mod_converse(y - 12, 272, k / 4, y - y0);
            assert(i == k);
        } else {
            if c < 4 && i == k {
                lemma_fundamental_div_mod_converse(k, 4, r, c);
                assert(x == x0 + (ox - off)) by (nonlinear_arith)
                    requires x - 12 == p * c + ox, c == k % 4, x0 == 12 + (k % 4) * p + off;
                assert(y == y0 + oy) by (nonlinear_arith)
                    requires y - 12 == 272 * r + oy, r == k / 4, y0 == 12 + (k / 4) * 272;
            }
            if i < k {
                assert(tiles.take(k + 1)[i] == tiles.take(k)[i]);
            }
        }
    } else {
        assert(x0 >= 12 && y0 >= 12) by (nonlinear_arith)
            requires x0 == 12 + (k % 4) * p + off, y0 == 12 + (k / 4) * 272, k % 4 >= 0, k / 4 >= 0, p > 0, off >= 0;
    }
}

/// The overview sheet: tiles (each 260 px high) in rows of four, 12 px apart, each
/// centred in a cell as wide as the widest tile, on dark grey.
pub fn overview_sheet(tiles: &Vec<RgbBuf>) -> (sheet: RgbBuf)
    requires
        forall|i: int| 0 <= i < tiles@.len() ==> (#[trigger] tiles@[i]).wf() && tiles@[i].height == 260,
        sheet_width(max_width(tiles@)) <= u32::MAX,
        sheet_height(tiles@.len() as int) <= u32::MAX,
        3 * sheet_width(max_width(tiles@)) * sheet_height(tiles@.len() as int) <= usize::MAX,
    ensures
        sheet.wf(),
        sheet.width == sheet_width(max_width(tiles@)),
        sheet.height == sheet_height(tiles@.len() as int),
        forall|x: int, y: int|
            0 <= x < sheet.width && 0 <= y < sheet.height ==> #[trigger] sheet.pixel(sheet.index(x, y))
                == overview_pixel(tiles@, max_width(tiles@), x, y),
{
    let n = tiles.len();
    let mut tw: u32 = 1;
    if n > 0 {
        tw = tiles[0].width;
        let mut i: usize = 1;
        while i < n
            invariant
                n == tiles@.len(),
                1 <= i <= n,
                tw == max_width(tiles@.take(i as int)),
            decreases n - i,
        {
            assert(tiles@.take(i + 1).drop_last() == tiles@.take(i as int));
            if tiles[i].width > tw {
                tw = tiles[i].width;
            }
            i = i + 1;
        }
        assert(tiles@.take(n as int) == tiles@);
    }
    let ghost gtw = max_width(tiles@);
    proof {
        if n > 0 {
            lemma_max_width_bounds(tiles@, 0);
        }
    }
    let width: u32 = 4 * (tw + 12) + 12;
    let rows: u32 = ((n + 3) / 4) as u32;
    let height: u32 = rows * 272 + 12;
    let mut sheet = RgbBuf::from_pixel(width, height, [34u8, 34u8, 34u8]);
    proof {
        assert forall|x: int, y: int| 0 <= x < width && 0 <= y < height implies #[trigger] sheet.pixel(
            sheet.index(x, y),
        ) == overview_pixel(tiles@.take(0), gtw, x, y) by {
            crate::buf::lemma_grid_index(x, y, width as int, height as int);
        }
    }
    let mut k: usize = 0;
    while k < n
        invariant
            n == tiles@.len(),
            forall|i: int| 0 <= i < tiles@.len() ==> (#[trigger] tiles@[i]).wf() && tiles@[i].height == 260,
            tw == gtw,
            gtw == max_width(tiles@),
            gtw >= 0,
            width == sheet_width(gtw),
            height == sheet_height(n as int),
            rows == (n + 3) / 4,
            k <= n,
            sheet.wf(),
            sheet.width == width,
            sheet.height == height,
            forall|x: int, y: int|
                0 <= x < width && 0 <= y < height ==> #[trigger] sheet.pixel(sheet.index(x, y))
                    == overview_pixel(tiles@.take(k as int), gtw, x, y),
        decreases n - k,
    {
        let t = &tiles[k];
        proof {
            lemma_max_width_bounds(tiles@, k as int);
        }
        let c = (k % 4) as u32;
        let r = (k / 4) as u32;
        assert(r < rows);
        assert(c * (tw + 12) <= 3 * (tw + 12)) by (nonlinear_arith)
            requires c <= 3, tw >= 0;
        let x0: u32 = 12 + c * (tw + 12) + (tw - t.width) / 2;
        let y0: u32 = 12 + r * 272;
        let ghost before = sheet;
        image_overlay(&mut sheet, t, x0, y0);
        proof {
            assert forall|x: int, y: int| 0 <= x < width && 0 <= y < height implies #[trigger] sheet.pixel(
                sheet.index(x, y),
            ) == overview_pixel(tiles@.take(k + 1), gtw, x, y) by {
                lemma_overview_step(tiles@, gtw, k as int, x, y);
                assert(before.pixel(before.index(x, y)) == overview_pixel(tiles@.take(k as int), gtw, x, y));
            }
        }
        k = k + 1;
    }
    assert(tiles@.take(n as int) == tiles@);
    sheet
}

} // verus!
