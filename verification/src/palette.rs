//! Label-map logic of colour quantisation: boundaries between colour regions,
//! majority smoothing of labels, nearest-palette snapping and the palette swatch.

use vstd::prelude::*;

use vstd::arithmetic::div_mod::lemma_fundamental_div_mod_converse;
use vstd::relations::{sorted_by, total_ordering};

use crate::buf::{
    lemma_grid_index, lemma_pixel_offset, lemma_reflect101_identity, lemma_reflect101_range,
    lemma_three_wh, pixel_of, reflect101, reflect101_spec, rgb, RgbBuf,
};

verus! {

/// Pixel `i` of a `w`-wide label map lies on a region boundary: its label differs
/// from the left neighbour or from the neighbour above.
pub open spec fn is_edge(labels: Seq<u16>, w: int, i: int) -> bool {
    (i % w > 0 && labels[i - 1] != labels[i]) || (i >= w && labels[i - w] != labels[i])
}

/// Row-major position arithmetic: `(y * w + x) % w == x` and `(y * w + x) / w == y`.
pub proof fn lemma_flat_index(x: int, y: int, w: int)
    requires
        0 <= x < w,
        0 <= y,
    ensures
        (y * w + x) % w == x,
        (y * w + x) / w == y,
        y * w + x >= w <==> y > 0,
        y * w + x - w == (y - 1) * w + x,
{
    lemma_fundamental_div_mod_converse(y * w + x, w, y, x);
    assert(y * w + x >= w <==> y > 0) by (nonlinear_arith)
        requires 0 <= x < w, 0 <= y;
    assert(y * w + x - w == (y - 1) * w + x) by (nonlinear_arith);
}

/// Next row-major position after the last column.
pub proof fn lemma_row_step(y: int, w: int, h: int)
    requires
        0 <= y < h,
        w >= 0,
    ensures
        y * w + w == (y + 1) * w,
        (y + 1) * w <= w * h,
        h * w == w * h,
{
    assert(y * w + w == (y + 1) * w) by (nonlinear_arith);
    assert((y + 1) * w <= w * h) by (nonlinear_arith)
        requires y + 1 <= h, w >= 0;
    assert(h * w == w * h) by (nonlinear_arith);
}

/// Region-boundary mask of a `w` x `h` label map (row-major): `true` where the label
/// differs from the left or upper neighbour.
pub fn edge_mask(labels: &[u16], w: usize, h: usize) -> (mask: Vec<bool>)
    requires
        w * h <= labels@.len(),
    ensures
        mask@ == edge_mask_spec(labels@, w as int, h as int),
        forall|i: int| 0 <= i < w * h ==> #[trigger] mask@[i] == is_edge(labels@, w as int, i),
{
    let n = labels.len(); // bounds the indices below by `usize::MAX`
    let mut mask: Vec<bool> = Vec::new();
    let mut y: usize = 0;
    while y < h
        invariant
            y <= h,
            n == labels@.len(),
            w * h <= labels@.len(),
            mask@.len() == y * w,
            forall|i: int| 0 <= i < y * w ==> #[trigger] mask@[i] == is_edge(labels@, w as int, i),
        decreases h - y,
    {
        proof {
            lemma_row_step(y as int, w as int, h as int);
        }
        let mut x: usize = 0;
        while x < w
            invariant
                y < h,
                x <= w,
                n == labels@.len(),
                w * h <= labels@.len(),
                (y + 1) * w <= w * h,
                y * w + w == (y + 1) * w,
                mask@.len() == y * w + x,
                forall|i: int| 0 <= i < y * w + x ==> #[trigger] mask@[i] == is_edge(labels@, w as int, i),
            decreases w - x,
        {
            let i = y * w + x;
            proof {
                lemma_flat_index(x as int, y as int, w as int);
            }
            let l = labels[i];
            let e = (x > 0 && labels[i - 1] != l) || (y > 0 && labels[i - w] != l);
            mask.push(e);
            x = x + 1;
        }
        y = y + 1;
    }
    proof {
        if h > 0 {
            lemma_row_step((h - 1) as int, w as int, h as int);
        } else {
            assert(w * h == 0) by (nonlinear_arith) requires h == 0;
        }
    }
    mask
}

/// The order used to rank labels.
pub open spec fn label_le() -> spec_fn(u16, u16) -> bool {
    |a: u16, b: u16| a <= b
}

proof fn lemma_label_le_total()
    ensures
        total_ordering(label_le()),
{
}

/// `v` sorted in ascending order.
pub fn sort_labels(v: &Vec<u16>) -> (s: Vec<u16>)
    ensures
        s@ == v@.sort_by(label_le()),
{
    let mut s: Vec<u16> = Vec::new();
    let mut i: usize = 0;
    assert(s@ == v@.take(0));
    while i < v.len()
        invariant
            i <= v@.len(),
            sorted_by(s@, label_le()),
            s@.to_multiset() == v@.take(i as int).to_multiset(),
        decreases v@.len() - i,
    {
        let e = v[i];
        let mut p: usize = 0;
        while p < s.len() && s[p] <= e
            invariant
                p <= s@.len(),
                forall|k: int| 0 <= k < p ==> s@[k] <= e,
            decreases s@.len() - p,
        {
            p = p + 1;
        }
        let ghost before = s@;
        proof {
            if p < before.len() {
                assert forall|k: int| p <= k < before.len() implies before[k] > e by {
                    if k > p {
                        assert(label_le()(before[p as int], before[k]));
                    }
                }
            }
        }
        s.insert(p, e);
        assert(s@ == before.insert(p as int, e));
        assert forall|a: int, b: int| 0 <= a < b < s@.len() implies #[trigger] label_le()(s@[a], s@[b]) by {
            if b < p {
                assert(label_le()(before[a], before[b]));
            } else if b == p {
            } else if a < p {
                assert(before[a] <= e);
            } else if a == p {
            } else {
                assert(label_le()(before[a - 1], before[b - 1]));
            }
        }
        assert(v@.take(i + 1) == v@.take(i as int).push(e));
        proof {
            vstd::seq_lib::to_multiset_insert(before, p as int, e);
            vstd::seq_lib::to_multiset_build(v@.take(i as int), e);
        }
        i = i + 1;
    }
    assert(v@.take(v@.len() as int) == v@);
    proof {
        lemma_label_le_total();
        v@.lemma_sort_by_ensures(label_le());
        vstd::seq_lib::lemma_sorted_unique(s@, v@.sort_by(label_le()), label_le());
    }
    s
}

/// The 3x3 neighbourhood of `(x, y)` in a `w` x `h` label map, rows top to bottom,
/// columns left to right, folded at the borders with BORDER_REFLECT_101.
pub open spec fn neighbourhood(labels: Seq<u16>, w: int, h: int, x: int, y: int) -> Seq<u16> {
    Seq::new(
        9,
        |k: int| labels[reflect101_spec(y + k / 3 - 1, h) * w + reflect101_spec(x + k % 3 - 1, w)],
    )
}

/// Majority label at `(x, y)`: the median (fifth smallest) of its 3x3 neighbourhood.
pub open spec fn majority_at(labels: Seq<u16>, w: int, h: int, x: int, y: int) -> u16 {
    neighbourhood(labels, w, h, x, y).sort_by(label_le())[4]
}

/// 3x3 majority filter over a `w` x `h` label map (row-major), removing isolated
/// speckles: each label becomes the median of its neighbourhood.
pub fn majority_vote_3x3(labels: &[u16], w: usize, h: usize) -> (out: Vec<u16>)
    requires
        w * h <= labels@.len(),
        w < isize::MAX,
        h < isize::MAX,
    ensures
        out@.len() == w * h,
        forall|i: int|
            0 <= i < w * h ==> #[trigger] out@[i] == majority_at(
                labels@,
                w as int,
                h as int,
                i % (w as int),
                i / (w as int),
            ),
{
    let n = labels.len();
    let mut out: Vec<u16> = Vec::new();
    let mut y: usize = 0;
    while y < h
        invariant
            y <= h,
            n == labels@.len(),
            w * h <= labels@.len(),
            w < isize::MAX,
            h < isize::MAX,
            out@.len() == y * w,
            forall|i: int|
                0 <= i < y * w ==> #[trigger] out@[i] == majority_at(
                    labels@,
                    w as int,
                    h as int,
                    i % (w as int),
                    i / (w as int),
                ),
        decreases h - y,
    {
        proof {
            lemma_row_step(y as int, w as int, h as int);
        }
        let mut x: usize = 0;
        while x < w
            invariant
                y < h,
                x <= w,
                n == labels@.len(),
                w * h <= labels@.len(),
                w < isize::MAX,
                h < isize::MAX,
                y * w + w == (y + 1) * w,
                (y + 1) * w <= w * h,
                out@.len() == y * w + x,
                forall|i: int|
                    0 <= i < y * w + x ==> #[trigger] out@[i] == majority_at(
                        labels@,
                        w as int,
                        h as int,
                        i % (w as int),
                        i / (w as int),
                    ),
            decreases w - x,
        {
            let ghost nb = neighbourhood(labels@, w as int, h as int, x as int, y as int);
            let mut vals: Vec<u16> = Vec::new();
            let mut dy: isize = -1;
            while dy <= 1
                invariant
                    -1 <= dy <= 2,
                    y < h,
                    x < w,
                    n == labels@.len(),
                    w * h <= labels@.len(),
                    w < isize::MAX,
                    h < isize::MAX,
                    nb == neighbourhood(labels@, w as int, h as int, x as int, y as int),
                    vals@ == nb.take(3 * (dy + 1)),
                decreases 2 - dy,
            {
                let yy = reflect101(y as isize + dy, h as isize);
                let mut dx: isize = -1;
                while dx <= 1
                    invariant
                        -1 <= dy <= 1,
                        -1 <= dx <= 2,
                        y < h,
                        x < w,
                        yy < h,
                        yy as int == reflect101_spec(y + dy, h as int),
                        n == labels@.len(),
                        w * h <= labels@.len(),
                        w < isize::MAX,
                        h < isize::MAX,
                        nb == neighbourhood(labels@, w as int, h as int, x as int, y as int),
                        vals@ == nb.take(3 * (dy + 1) + dx + 1),
                    decreases 2 - dx,
                {
                    let xx = reflect101(x as isize + dx, w as isize);
                    proof {
                        lemma_grid_index(xx as int, yy as int, w as int, h as int);
                    }
                    let ghost k = 3 * (dy + 1) + dx + 1;
                    assert(k / 3 == dy + 1 && k % 3 == dx + 1);
                    assert(nb[k] == labels@[yy * w + xx]);
                    vals.push(labels[yy * w + xx]);
                    assert(vals@ == nb.take(k + 1));
                    dx = dx + 1;
                }
                dy = dy + 1;
            }
            assert(vals@ == nb);
            let sorted = sort_labels(&vals);
            proof {
                broadcast use vstd::seq_lib::group_to_multiset_ensures;

                lemma_label_le_total();
                nb.lemma_sort_by_ensures(label_le());
                lemma_flat_index(x as int, y as int, w as int);
                assert(nb.to_multiset().len() == nb.len());
                assert(sorted@.to_multiset().len() == sorted@.len());
            }
            out.push(sorted[4]);
            x = x + 1;
        }
        y = y + 1;
    }
    proof {
        if h > 0 {
            lemma_row_step((h - 1) as int, w as int, h as int);
        } else {
            assert(w * h == 0) by (nonlinear_arith) requires h == 0;
        }
    }
    out
}

/// The majority label of a pixel is one of the labels around it.
pub proof fn lemma_majority_in_neighbourhood(labels: Seq<u16>, w: int, h: int, x: int, y: int)
    ensures
        neighbourhood(labels, w, h, x, y).contains(majority_at(labels, w, h, x, y)),
{
    broadcast use vstd::seq_lib::group_to_multiset_ensures;

    let nb = neighbourhood(labels, w, h, x, y);
    lemma_label_le_total();
    nb.lemma_sort_by_ensures(label_le());
    let sorted = nb.sort_by(label_le());
    assert(nb.to_multiset().len() == nb.len());
    assert(sorted.to_multiset().len() == sorted.len());
    assert(sorted.contains(sorted[4]));
}

/// The neighbourhood of a pixel inside the map reads only pixels of the map.
pub proof fn lemma_neighbourhood_inside(labels: Seq<u16>, w: int, h: int, x: int, y: int, k: int)
    requires
        0 <= x < w,
        0 <= y < h,
        0 <= k < 9,
    ensures
        0 <= reflect101_spec(y + k / 3 - 1, h) * w + reflect101_spec(x + k % 3 - 1, w) < w * h,
{
    lemma_reflect101_range(y + k / 3 - 1, h);
    lemma_reflect101_range(x + k % 3 - 1, w);
    lemma_grid_index(reflect101_spec(x + k % 3 - 1, w), reflect101_spec(y + k / 3 - 1, h), w, h);
}

/// Smoothing never invents a label: if every label of the map is below `k`, so is
/// every majority label.
pub proof fn lemma_majority_bounded(labels: Seq<u16>, w: int, h: int, k: int, x: int, y: int)
    requires
        w * h <= labels.len(),
        forall|i: int| 0 <= i < w * h ==> labels[i] < k,
        0 <= x < w,
        0 <= y < h,
    ensures
        majority_at(labels, w, h, x, y) < k,
{
    let nb = neighbourhood(labels, w, h, x, y);
    lemma_majority_in_neighbourhood(labels, w, h, x, y);
    let j = choose|j: int| 0 <= j < nb.len() && nb[j] == majority_at(labels, w, h, x, y);
    lemma_neighbourhood_inside(labels, w, h, x, y, j);
}

/// A uniform region stays uniform: a pixel whose whole neighbourhood carries label `c`
/// keeps `c`.
pub proof fn lemma_majority_uniform(labels: Seq<u16>, w: int, h: int, c: u16, x: int, y: int)
    requires
        w * h <= labels.len(),
        forall|i: int| 0 <= i < w * h ==> labels[i] == c,
        0 <= x < w,
        0 <= y < h,
    ensures
        majority_at(labels, w, h, x, y) == c,
{
    let nb = neighbourhood(labels, w, h, x, y);
    lemma_majority_in_neighbourhood(labels, w, h, x, y);
    let j = choose|j: int| 0 <= j < nb.len() && nb[j] == majority_at(labels, w, h, x, y);
    lemma_neighbourhood_inside(labels, w, h, x, y, j);
}

/// Squared Euclidean distance between colour `c` and palette colour `p`.
pub open spec fn dist2(c: (u8, u8, u8), p: [u8; 3]) -> int {
    (c.0 - p[0]) * (c.0 - p[0]) + (c.1 - p[1]) * (c.1 - p[1]) + (c.2 - p[2]) * (c.2 - p[2])
}

/// Index of the palette colour nearest to `c` among the first `n` entries; on equal
/// distances the earliest entry wins.
pub open spec fn nearest_index(palette: Seq<[u8; 3]>, c: (u8, u8, u8), n: int) -> int
    decreases n,
{
    if n <= 1 {
        0
    } else {
        let j = nearest_index(palette, c, n - 1);
        if dist2(c, palette[n - 1]) < dist2(c, palette[j]) { n - 1 } else { j }
    }
}

/// The palette colour that `c` snaps to.
pub open spec fn snap(palette: Seq<[u8; 3]>, c: (u8, u8, u8)) -> (u8, u8, u8) {
    rgb(palette[nearest_index(palette, c, palette.len() as int)])
}

/// `nearest_index` is the first entry of minimal distance.
pub proof fn lemma_nearest_is_first_minimum(palette: Seq<[u8; 3]>, c: (u8, u8, u8), n: int)
    requires
        1 <= n <= palette.len(),
    ensures
        0 <= nearest_index(palette, c, n) < n,
        forall|k: int|
            0 <= k < n ==> dist2(c, palette[nearest_index(palette, c, n)]) <= dist2(c, #[trigger] palette[k]),
        forall|k: int|
            0 <= k < nearest_index(palette, c, n) ==> dist2(c, palette[nearest_index(palette, c, n)]) < dist2(
                c,
                #[trigger] palette[k],
            ),
    decreases n,
{
    if n > 1 {
        lemma_nearest_is_first_minimum(palette, c, n - 1);
    }
}

/// Snapping a palette colour gives it back: a colour already in the palette is at
/// distance zero from itself, and zero distance means the same colour.
pub proof fn lemma_snap_fixes_palette_colours(palette: Seq<[u8; 3]>, j: int)
    requires
        0 <= j < palette.len(),
    ensures
        snap(palette, rgb(palette[j])) == rgb(palette[j]),
{
    let c = rgb(palette[j]);
    let n = palette.len() as int;
    lemma_nearest_is_first_minimum(palette, c, n);
    let m = nearest_index(palette, c, n);
    let p = palette[m];
    let q = palette[j];
    assert(c.0 == q[0] && c.1 == q[1] && c.2 == q[2]);
    assert(dist2(c, q) == 0) by (nonlinear_arith)
        requires c.0 == q[0], c.1 == q[1], c.2 == q[2];
    assert(dist2(c, p) <= 0);
    assert((c.0 - p[0]) * (c.0 - p[0]) >= 0 && (c.1 - p[1]) * (c.1 - p[1]) >= 0 && (c.2 - p[2]) * (c.2 - p[2]) >= 0) by (nonlinear_arith);
    assert(c.0 == p[0] && c.1 == p[1] && c.2 == p[2]) by (nonlinear_arith)
        requires
            (c.0 - p[0]) * (c.0 - p[0]) + (c.1 - p[1]) * (c.1 - p[1]) + (c.2 - p[2]) * (c.2 - p[2]) <= 0,
            (c.0 - p[0]) * (c.0 - p[0]) >= 0,
            (c.1 - p[1]) * (c.1 - p[1]) >= 0,
            (c.2 - p[2]) * (c.2 - p[2]) >= 0;
}

/// Snapping is idempotent: a snapped colour snaps to itself.
pub proof fn lemma_snap_idempotent(palette: Seq<[u8; 3]>, c: (u8, u8, u8))
    requires
        palette.len() > 0,
    ensures
        snap(palette, snap(palette, c)) == snap(palette, c),
{
    lemma_nearest_is_first_minimum(palette, c, palette.len() as int);
    lemma_snap_fixes_palette_colours(palette, nearest_index(palette, c, palette.len() as int));
}

/// Squared channel difference, as computed in `i32`.
fn channel_dist2(a: u8, b: u8) -> (d: i32)
    ensures
        d == (a - b) * (a - b),
        0 <= d <= 65025,
{
    let t = a as i32 - b as i32;
    assert(0 <= t * t <= 65025) by (nonlinear_arith)
        requires -255 <= t <= 255;
    t * t
}

/// Snaps every pixel of `img` to its nearest palette colour (squared RGB distance,
/// earliest entry on ties).
pub fn apply_palette(img: &RgbBuf, palette: &[[u8; 3]]) -> (out: RgbBuf)
    requires
        img.wf(),
        img.num_pixels() > 0 ==> palette@.len() > 0,
    ensures
        out.wf(),
        out.width == img.width,
        out.height == img.height,
        forall|i: int| 0 <= i < img.num_pixels() ==> #[trigger] out.pixel(i) == snap(palette@, img.pixel(i)),
{
    proof {
        lemma_three_wh(img.width as int, img.height as int);
    }
    let len = img.data.len();
    let n: usize = img.width as usize * img.height as usize;
    let mut data: Vec<u8> = Vec::new();
    let mut i: usize = 0;
    while i < n
        invariant
            img.wf(),
            len == img.data@.len(),
            n == img.num_pixels(),
            3 * n == len,
            n > 0 ==> palette@.len() > 0,
            i <= n,
            data@.len() == 3 * i,
            forall|j: int| 0 <= j < i ==> #[trigger] pixel_of(data@, j) == snap(palette@, img.pixel(j)),
        decreases n - i,
    {
        proof {
            lemma_pixel_offset(i as int, n as int);
        }
        let c = (img.data[3 * i], img.data[3 * i + 1], img.data[3 * i + 2]);
        let ghost cs = img.pixel(i as int);
        assert(c == cs);
        let mut bi: usize = 0;
        let mut bd: i32 = i32::MAX;
        let mut j: usize = 0;
        while j < palette.len()
            invariant
                j <= palette@.len(),
                palette@.len() > 0,
                c == cs,
                j == 0 ==> bd == i32::MAX,
                j > 0 ==> bi == nearest_index(palette@, cs, j as int) && bd == dist2(cs, palette@[bi as int]),
                j > 0 ==> bi < j,
            decreases palette@.len() - j,
        {
            let p = palette[j];
            let d = channel_dist2(c.0, p[0]) + channel_dist2(c.1, p[1]) + channel_dist2(c.2, p[2]);
            if d < bd {
                bd = d;
                bi = j;
            }
            j = j + 1;
        }
        let best = palette[bi];
        let ghost before = data@;
        data.push(best[0]);
        data.push(best[1]);
        data.push(best[2]);
        assert forall|k: int| 0 <= k < i + 1 implies #[trigger] pixel_of(data@, k) == snap(palette@, img.pixel(k)) by {
            if k < i {
                assert(pixel_of(before, k) == snap(palette@, img.pixel(k)));
            }
        }
        i = i + 1;
    }
    RgbBuf { width: img.width, height: img.height, data }
}

/// The boundary mask of a `w` x `h` label map.
pub open spec fn edge_mask_spec(labels: Seq<u16>, w: int, h: int) -> Seq<bool> {
    Seq::new((w * h) as nat, |i: int| is_edge(labels, w, i))
}

/// Pixel `i` of the posterize-edge view: the quantized colour on region boundaries,
/// black elsewhere.
pub open spec fn posterized_pixel(labels: Seq<u16>, quantized: RgbBuf, i: int) -> (u8, u8, u8) {
    if is_edge(labels, quantized.width as int, i) { quantized.pixel(i) } else { (0u8, 0u8, 0u8) }
}

/// The posterize-edge view shows exactly the pixels of the boundary mask.
pub proof fn lemma_posterize_follows_mask(labels: Seq<u16>, quantized: RgbBuf, i: int)
    requires
        0 <= i < quantized.num_pixels(),
    ensures
        posterized_pixel(labels, quantized, i) == (if edge_mask_spec(
            labels,
            quantized.width as int,
            quantized.height as int,
        )[i] {
            quantized.pixel(i)
        } else {
            (0u8, 0u8, 0u8)
        }),
{
}

/// Region boundaries drawn in their own colour on black: pixels whose label differs
/// from the left or upper neighbour keep their colour from `quantized`, the rest is black.
pub fn posterize_edges(labels: &[u16], quantized: &RgbBuf) -> (out: RgbBuf)
    requires
        quantized.wf(),
        quantized.num_pixels() <= labels@.len(),
    ensures
        out.wf(),
        out.width == quantized.width,
        out.height == quantized.height,
        forall|i: int|
            0 <= i < quantized.num_pixels() ==> #[trigger] out.pixel(i) == posterized_pixel(
                labels@,
                *quantized,
                i,
            ),
{
    proof {
        lemma_three_wh(quantized.width as int, quantized.height as int);
    }
    let _len = quantized.data.len();
    let nl = labels.len();
    let w = quantized.width;
    let h = quantized.height;
    let wu = w as usize;
    let mut out = RgbBuf::new(w, h);
    let mut y: u32 = 0;
    while y < h
        invariant
            quantized.wf(),
            w == quantized.width,
            h == quantized.height,
            wu == w,
            nl == labels@.len(),
            quantized.num_pixels() <= labels@.len(),
            out.wf(),
            out.width == w,
            out.height == h,
            y <= h,
            forall|i: int|
                0 <= i < quantized.num_pixels() ==> #[trigger] out.pixel(i) == (if i < y * w
                    && is_edge(labels@, w as int, i) {
                    quantized.pixel(i)
                } else {
                    (0u8, 0u8, 0u8)
                }),
        decreases h - y,
    {
        proof {
            lemma_row_step(y as int, w as int, h as int);
        }
        let mut x: u32 = 0;
        while x < w
            invariant
                quantized.wf(),
                w == quantized.width,
                h == quantized.height,
                wu == w,
                nl == labels@.len(),
                quantized.num_pixels() <= labels@.len(),
                out.wf(),
                out.width == w,
                out.height == h,
                y < h,
                x <= w,
                y * w + w == (y + 1) * w,
                (y + 1) * w <= w * h,
                forall|i: int|
                    0 <= i < quantized.num_pixels() ==> #[trigger] out.pixel(i) == (if i < y * w + x
                        && is_edge(labels@, w as int, i) {
                        quantized.pixel(i)
                    } else {
                        (0u8, 0u8, 0u8)
                    }),
            decreases w - x,
        {
            proof {
                lemma_flat_index(x as int, y as int, w as int);
                lemma_grid_index(x as int, y as int, w as int, h as int);
            }
            let i = y as usize * wu + x as usize;
            let l = labels[i];
            let e = (x > 0 && labels[i - 1] != l) || (y > 0 && labels[i - wu] != l);
            if e {
                let c = quantized.get_pixel(x, y);
                out.put_pixel(x, y, c);
            }
            x = x + 1;
        }
        y = y + 1;
    }
    assert(h * w == w * h) by (nonlinear_arith);
    out
}

/// Number of occurrences of label `j` in `s`.
pub open spec fn count_of(s: Seq<u16>, j: int) -> nat
    decreases s.len(),
{
    if s.len() == 0 {
        0
    } else {
        count_of(s.drop_last(), j) + (if s.last() == j { 1nat } else { 0nat })
    }
}

/// Sum of a sequence of pixel counts.
pub open spec fn sum_counts(c: Seq<u32>) -> int
    decreases c.len(),
{
    if c.len() == 0 { 0 } else { sum_counts(c.drop_last()) + c.last() }
}

/// Occurrences of the labels `0..k` together.
pub open spec fn total_below(s: Seq<u16>, k: int) -> int
    decreases k,
{
    if k <= 0 { 0 } else { total_below(s, k - 1) + count_of(s, k - 1) }
}

proof fn lemma_total_below_push(s: Seq<u16>, l: u16, k: int)
    requires
        k >= 0,
    ensures
        total_below(s.push(l), k) == total_below(s, k) + (if l < k { 1int } else { 0int }),
    decreases k,
{
    assert(s.push(l).drop_last() == s);
    if k > 0 {
        lemma_total_below_push(s, l, k - 1);
    }
}

proof fn lemma_total_below_all(s: Seq<u16>, k: int)
    requires
        k >= 0,
        forall|i: int| 0 <= i < s.len() ==> s[i] < k,
    ensures
        total_below(s, k) == s.len(),
    decreases s.len(),
{
    if s.len() == 0 {
        lemma_total_below_empty(s, k);
    } else {
        let t = s.drop_last();
        assert(t.push(s.last()) == s);
        lemma_total_below_all(t, k);
        lemma_total_below_push(t, s.last(), k);
    }
}

proof fn lemma_total_below_empty(s: Seq<u16>, k: int)
    requires
        s.len() == 0,
        k >= 0,
    ensures
        total_below(s, k) == 0,
    decreases k,
{
    if k > 0 {
        lemma_total_below_empty(s, k - 1);
    }
}

proof fn lemma_sum_counts_prefix(labels: Seq<u16>, counts: Seq<u32>, k: int)
    requires
        0 <= k <= counts.len(),
        forall|j: int| 0 <= j < counts.len() ==> counts[j] == count_of(labels, j),
    ensures
        sum_counts(counts.take(k)) == total_below(labels, k),
    decreases k,
{
    if k > 0 {
        assert(counts.take(k).drop_last() == counts.take(k - 1));
        lemma_sum_counts_prefix(labels, counts, k - 1);
    }
}

/// The per-label counts account for every pixel exactly once.
pub proof fn lemma_counts_cover_all_pixels(labels: Seq<u16>, counts: Seq<u32>)
    requires
        forall|i: int| 0 <= i < labels.len() ==> labels[i] < counts.len(),
        forall|j: int| 0 <= j < counts.len() ==> counts[j] == count_of(labels, j),
    ensures
        sum_counts(counts) == labels.len(),
{
    lemma_sum_counts_prefix(labels, counts, counts.len() as int);
    assert(counts.take(counts.len() as int) == counts);
    lemma_total_below_all(labels, counts.len() as int);
}

proof fn lemma_count_of_le_len(s: Seq<u16>, j: int)
    ensures
        count_of(s, j) <= s.len(),
    decreases s.len(),
{
    if s.len() > 0 {
        lemma_count_of_le_len(s.drop_last(), j);
    }
}

/// A quantized image: per-pixel palette labels, the palette, the painted image and
/// how many pixels use each palette entry.
pub struct QuantizeResult {
    pub quantized: RgbBuf,
    pub labels: Vec<u16>,
    pub palette: Vec<[u8; 3]>,
    pub counts: Vec<u32>,
}

impl QuantizeResult {
    /// Builds the quantized image of a `w` x `h` label map: each pixel takes the colour
    /// of its label, and each palette entry is counted.
    pub fn from_labels(labels: Vec<u16>, palette: Vec<[u8; 3]>, w: u32, h: u32) -> (r: QuantizeResult)
        requires
            labels@.len() == w * h,
            3 * w * h <= usize::MAX,
            w * h <= u32::MAX,
            forall|i: int| 0 <= i < labels@.len() ==> labels@[i] < palette@.len(),
        ensures
            r.labels@ == labels@,
            r.palette@ == palette@,
            r.quantized.width == w,
            r.quantized.height == h,
            r.quantized.wf(),
            forall|i: int|
                0 <= i < w * h ==> #[trigger] r.quantized.pixel(i) == rgb(palette@[labels@[i] as int]),
            r.counts@.len() == palette@.len(),
            forall|j: int| 0 <= j < palette@.len() ==> #[trigger] r.counts@[j] == count_of(labels@, j),
    {
        proof {
            lemma_three_wh(w as int, h as int);
        }
        let n = labels.len();
        let k = palette.len();
        let mut counts: Vec<u32> = Vec::new();
        let mut j: usize = 0;
        while j < k
            invariant
                k == palette@.len(),
                j <= k,
                counts@.len() == j,
                forall|t: int| 0 <= t < j ==> #[trigger] counts@[t] == 0,
            decreases k - j,
        {
            counts.push(0);
            j = j + 1;
        }
        let mut data: Vec<u8> = Vec::new();
        let mut i: usize = 0;
        assert(labels@.take(0) == Seq::<u16>::empty());
        while i < n
            invariant
                n == labels@.len(),
                n == w * h,
                3 * n <= usize::MAX,
                n <= u32::MAX,
                k == palette@.len(),
                forall|t: int| 0 <= t < labels@.len() ==> labels@[t] < palette@.len(),
                i <= n,
                counts@.len() == k,
                forall|t: int| 0 <= t < k ==> #[trigger] counts@[t] == count_of(labels@.take(i as int), t),
                data@.len() == 3 * i,
                forall|t: int| 0 <= t < i ==> #[trigger] pixel_of(data@, t) == rgb(palette@[labels@[t] as int]),
            decreases n - i,
        {
            let l = labels[i] as usize;
            let c = palette[l];
            let ghost before = data@;
            data.push(c[0]);
            data.push(c[1]);
            data.push(c[2]);
            assert forall|t: int| 0 <= t < i + 1 implies #[trigger] pixel_of(data@, t) == rgb(
                palette@[labels@[t] as int],
            ) by {
                if t < i {
                    assert(pixel_of(before, t) == rgb(palette@[labels@[t] as int]));
                }
            }
            let ghost prev = counts@;
            proof {
                lemma_count_of_le_len(labels@.take(i as int), l as int);
            }
            let old_count = counts[l];
            counts.set(l, old_count + 1);
            assert(labels@.take(i + 1).drop_last() == labels@.take(i as int));
            assert forall|t: int| 0 <= t < k implies #[trigger] counts@[t] == count_of(labels@.take(i + 1), t) by {
                assert(prev[t] == count_of(labels@.take(i as int), t));
            }
            i = i + 1;
        }
        assert(labels@.take(n as int) == labels@);
        QuantizeResult { quantized: RgbBuf { width: w, height: h, data }, labels, palette, counts }
    }
}

/// Side of a swatch cell in pixels; cells hold a one-pixel border.
pub const SWATCH_CELL: u32 = 22;

/// Swatch cells per row.
pub const SWATCH_COLS: u32 = 12;

/// Number of swatch rows for `n` colours.
pub open spec fn swatch_rows(n: int) -> int {
    (n + 11) / 12
}

/// Colour of pixel `(x, y)` of the swatch that shows `palette[order[t]]` in cell `t`
/// (cells row-major, 12 per row, 22 px square with a 1 px border) on dark grey.
pub open spec fn swatch_pixel(palette: Seq<[u8; 3]>, order: Seq<usize>, x: int, y: int) -> (u8, u8, u8) {
    let t = (y / 22) * 12 + x / 22;
    if t < order.len() && 1 <= x % 22 <= 20 && 1 <= y % 22 <= 20 {
        rgb(palette[order[t] as int])
    } else {
        (45u8, 45u8, 45u8)
    }
}

/// Palette swatch image: colour `palette[order[t]]` fills the inside of cell `t`
/// (12 cells of 22 x 22 px per row, 1 px border), the rest is dark grey (45, 45, 45).
pub fn paint_swatch(palette: &[[u8; 3]], order: &[usize]) -> (img: RgbBuf)
    requires
        forall|t: int| 0 <= t < order@.len() ==> order@[t] < palette@.len(),
        swatch_rows(order@.len() as int) * 22 <= u32::MAX,
        3 * 264 * (swatch_rows(order@.len() as int) * 22) <= usize::MAX,
    ensures
        img.wf(),
        img.width == SWATCH_COLS * SWATCH_CELL,
        img.height == swatch_rows(order@.len() as int) * 22,
        forall|i: int|
            0 <= i < img.num_pixels() ==> #[trigger] img.pixel(i) == swatch_pixel(palette@, order@, i % 264, i / 264),
{
    let n = order.len();
    let rows = (n + 11) / 12;
    let width: u32 = SWATCH_COLS * SWATCH_CELL;
    let height: u32 = (rows * 22) as u32;
    let mut data: Vec<u8> = Vec::new();
    let mut y: u32 = 0;
    while y < height
        invariant
            n == order@.len(),
            forall|t: int| 0 <= t < order@.len() ==> order@[t] < palette@.len(),
            width == 264,
            height == swatch_rows(n as int) * 22,
            3 * 264 * height <= usize::MAX,
            y <= height,
            data@.len() == 3 * (y * 264),
            forall|i: int| 0 <= i < y * 264 ==> #[trigger] pixel_of(data@, i) == swatch_pixel(palette@, order@, i % 264, i / 264),
        decreases height - y,
    {
        let mut x: u32 = 0;
        while x < width
            invariant
                n == order@.len(),
                forall|t: int| 0 <= t < order@.len() ==> order@[t] < palette@.len(),
                width == 264,
                height == swatch_rows(n as int) * 22,
                3 * 264 * height <= usize::MAX,
                y < height,
                x <= width,
                data@.len() == 3 * (y * 264 + x),
                forall|i: int| 0 <= i < y * 264 + x ==> #[trigger] pixel_of(data@, i) == swatch_pixel(palette@, order@, i % 264, i / 264),
            decreases width - x,
        {
            let t = (y / 22) as usize * 12 + (x / 22) as usize;
            let inside = 1 <= x % 22 && x % 22 <= 20 && 1 <= y % 22 && y % 22 <= 20;
            let c: [u8; 3] = if t < n && inside { palette[order[t]] } else { [45u8, 45u8, 45u8] };
            proof {
                lemma_flat_index(x as int, y as int, 264);
            }
            let ghost before = data@;
            data.push(c[0]);
            data.push(c[1]);
            data.push(c[2]);
            assert forall|i: int| 0 <= i < y * 264 + x + 1 implies #[trigger] pixel_of(data@, i) == swatch_pixel(
                palette@,
                order@,
                i % 264,
                i / 264,
            ) by {
                if i < y * 264 + x {
                    assert(pixel_of(before, i) == swatch_pixel(palette@, order@, i % 264, i / 264));
                }
            }
            x = x + 1;
        }
        y = y + 1;
    }
    assert(3 * (width as int) * (height as int) == 3 * (height * 264)) by (nonlinear_arith)
        requires width == 264;
    assert((width as int) * (height as int) == height * 264) by (nonlinear_arith)
        requires width == 264;
    RgbBuf { width, height, data }
}

proof fn lemma_count_of_multiset(s: Seq<u16>, c: u16)
    ensures
        count_of(s, c as int) == s.to_multiset().count(c),
    decreases s.len(),
{
    broadcast use vstd::multiset::group_multiset_axioms;

    if s.len() == 0 {
        assert(s.to_multiset() =~= vstd::multiset::Multiset::<u16>::empty()) by {
            broadcast use vstd::seq_lib::group_to_multiset_ensures;
        }
    } else {
        let t = s.drop_last();
        assert(t.push(s.last()) == s);
        vstd::seq_lib::to_multiset_build(t, s.last());
        lemma_count_of_multiset(t, c);
    }
}

proof fn lemma_count_outside(s: Seq<u16>, c: int, lo: int, hi: int)
    requires
        0 <= lo <= hi <= s.len(),
        forall|j: int| lo <= j < hi ==> s[j] != c,
    ensures
        count_of(s, c) <= s.len() - (hi - lo),
    decreases s.len(),
{
    if s.len() > 0 {
        let t = s.drop_last();
        let n = s.len() as int;
        if lo == hi {
            lemma_count_of_le_len(s, c);
        } else if hi == n {
            lemma_count_outside(t, c, lo, n - 1);
        } else {
            lemma_count_outside(t, c, lo, hi);
        }
    }
}

/// Majority vote: a label held by at least five of the nine pixels of a neighbourhood
/// is the label the pixel takes (the median of nine values is then that label).
pub proof fn lemma_majority_wins(labels: Seq<u16>, w: int, h: int, x: int, y: int, c: u16)
    requires
        count_of(neighbourhood(labels, w, h, x, y), c as int) >= 5,
    ensures
        majority_at(labels, w, h, x, y) == c,
{
    broadcast use vstd::seq_lib::group_to_multiset_ensures;

    let nb = neighbourhood(labels, w, h, x, y);
    lemma_label_le_total();
    nb.lemma_sort_by_ensures(label_le());
    let s = nb.sort_by(label_le());
    assert(nb.to_multiset().len() == nb.len());
    assert(s.to_multiset().len() == s.len());
    lemma_count_of_multiset(nb, c);
    lemma_count_of_multiset(s, c);
    assert(count_of(s, c as int) >= 5);
    if s[4] < c {
        assert forall|j: int| 0 <= j < 5 implies s[j] != c as int by {
            if j < 4 {
                assert(label_le()(s[j], s[4]));
            }
        }
        lemma_count_outside(s, c as int, 0, 5);
    } else if s[4] > c {
        assert forall|j: int| 4 <= j < 9 implies s[j] != c as int by {
            if j > 4 {
                assert(label_le()(s[4], s[j]));
            }
        }
        lemma_count_outside(s, c as int, 4, 9);
    }
}

/// A map of one label has no region boundaries.
pub proof fn lemma_uniform_has_no_edges(labels: Seq<u16>, w: int, h: int, c: u16)
    requires
        0 <= w,
        0 <= h,
        w * h <= labels.len(),
        forall|i: int| 0 <= i < labels.len() ==> labels[i] == c,
    ensures
        forall|i: int| 0 <= i < w * h ==> !#[trigger] edge_mask_spec(labels, w, h)[i],
{
    if w > 0 {
        lemma_fundamental_div_mod_converse(0, w, 0, 0);
    }
    assert forall|i: int| 0 <= i < w * h implies !#[trigger] edge_mask_spec(labels, w, h)[i] by {
        if i % w > 0 {
            assert(labels[i - 1] == c);
        }
        if i >= w {
            assert(labels[i - w] == c);
        }
    }
}

/// Boundaries run both ways: a pixel whose label differs from the pixel directly above
/// it, or from the pixel directly left of it in the same row, is on a boundary, and the
/// posterize view shows its quantized colour there. A pixel whose label equals both
/// neighbours (or that has none) is not on a boundary and is black in the posterize view.
pub proof fn lemma_boundary_neighbours(labels: Seq<u16>, quantized: RgbBuf, x: int, y: int)
    requires
        quantized.width > 0,
        0 <= x < quantized.width,
        0 <= y < quantized.height,
    ensures
        ({
            let w = quantized.width as int;
            let h = quantized.height as int;
            let i = y * w + x;
            let up = y > 0 && labels[(y - 1) * w + x] != labels[i];
            let left = x > 0 && labels[y * w + x - 1] != labels[i];
            &&& edge_mask_spec(labels, w, h)[i] == (up || left)
            &&& (up || left) ==> posterized_pixel(labels, quantized, i) == quantized.pixel(i)
            &&& !(up || left) ==> posterized_pixel(labels, quantized, i) == (0u8, 0u8, 0u8)
        }),
{
    let w = quantized.width as int;
    let h = quantized.height as int;
    lemma_flat_index(x, y, w);
    crate::buf::lemma_grid_index(x, y, w, h);
}

/// Cells are numbered row-major over all rows, twelve per row: the inside of cell `t`
/// (its 20 x 20 px interior starting one pixel in from `(22 * (t % 12), 22 * (t / 12))`)
/// shows `palette[order[t]]`, every border pixel of a cell is dark grey, and so is every
/// pixel of a cell past the last colour.
pub proof fn lemma_swatch_cells(palette: Seq<[u8; 3]>, order: Seq<usize>, t: int, a: int, b: int)
    requires
        0 <= t,
        0 <= a < 22,
        0 <= b < 22,
    ensures
        (t < order.len() && 1 <= a <= 20 && 1 <= b <= 20) ==> swatch_pixel(palette, order, 22 * (t % 12) + a, 22 * (t / 12) + b)
            == rgb(palette[order[t] as int]),
        !(t < order.len() && 1 <= a <= 20 && 1 <= b <= 20) ==> swatch_pixel(palette, order, 22 * (t % 12) + a, 22 * (t / 12) + b)
            == (45u8, 45u8, 45u8),
{
    let x = 22 * (t % 12) + a;
    let y = 22 * (t / 12) + b;
    vstd::arithmetic::div_mod::lemma_fundamental_div_mod(t, 12);
    lemma_fundamental_div_mod_converse(x, 22, t % 12, a);
    lemma_fundamental_div_mod_converse(y, 22, t / 12, b);
    assert((y / 22) * 12 + x / 22 == t);
}

/// The window is centred on the pixel: element `k` of the neighbourhood of `(x, y)` is
/// the label at column `x + k % 3 - 1` and row `y + k / 3 - 1`, each folded into the map;
/// its middle element (`k == 4`) is the pixel's own label, and away from the borders
/// the window reads the eight surrounding pixels unfolded.
pub proof fn lemma_neighbourhood_centred(labels: Seq<u16>, w: int, h: int, x: int, y: int, k: int)
    requires
        0 <= x < w,
        0 <= y < h,
        0 <= k < 9,
    ensures
        neighbourhood(labels, w, h, x, y).len() == 9,
        neighbourhood(labels, w, h, x, y)[k] == labels[reflect101_spec(y + k / 3 - 1, h) * w
            + reflect101_spec(x + k % 3 - 1, w)],
        neighbourhood(labels, w, h, x, y)[4] == labels[y * w + x],
        (1 <= x < w - 1 && 1 <= y < h - 1) ==> neighbourhood(labels, w, h, x, y)[k] == labels[(y
            + k / 3 - 1) * w + (x + k % 3 - 1)],
{
    lemma_reflect101_identity(x, w);
    lemma_reflect101_identity(y, h);
    if 1 <= x < w - 1 && 1 <= y < h - 1 {
        lemma_reflect101_identity(x + k % 3 - 1, w);
        lemma_reflect101_identity(y + k / 3 - 1, h);
    }
}

proof fn lemma_count_of_take(s: Seq<u16>, c: int, m: int)
    requires
        0 < m <= s.len(),
    ensures
        count_of(s.take(m), c) == count_of(s.take(m - 1), c) + (if s[m - 1] == c { 1int } else { 0int }),
{
    assert(s.take(m).drop_last() == s.take(m - 1));
}

/// A window holding `c` in its middle column and in one of its side columns holds `c`
/// six times.
proof fn lemma_count_two_columns(s: Seq<u16>, c: int)
    requires
        s.len() == 9,
        s[1] == c && s[4] == c && s[7] == c,
        (s[0] == c && s[3] == c && s[6] == c) || (s[2] == c && s[5] == c && s[8] == c),
    ensures
        count_of(s, c) >= 6,
{
    lemma_count_of_take(s, c, 1);
    lemma_count_of_take(s, c, 2);
    lemma_count_of_take(s, c, 3);
    lemma_count_of_take(s, c, 4);
    lemma_count_of_take(s, c, 5);
    lemma_count_of_take(s, c, 6);
    lemma_count_of_take(s, c, 7);
    lemma_count_of_take(s, c, 8);
    lemma_count_of_take(s, c, 9);
    assert(s.take(9) == s);
    assert(s.take(0).len() == 0);
}

/// In a map whose every row reads `cols`, window element `k` of `(x, y)` is the label
/// of its (folded) column.
proof fn lemma_stripe_window(labels: Seq<u16>, w: int, h: int, cols: Seq<u16>, x: int, y: int, k: int)
    requires
        cols.len() == w,
        forall|r: int, q: int| 0 <= r < h && 0 <= q < w ==> #[trigger] labels[r * w + q] == cols[q],
        0 <= x < w,
        0 <= y < h,
        0 <= k < 9,
    ensures
        neighbourhood(labels, w, h, x, y)[k] == cols[reflect101_spec(x + k % 3 - 1, w)],
{
    lemma_reflect101_range(y + k / 3 - 1, h);
    lemma_reflect101_range(x + k % 3 - 1, w);
    let r = reflect101_spec(y + k / 3 - 1, h);
    let q = reflect101_spec(x + k % 3 - 1, w);
    assert(labels[r * w + q] == cols[q]);
}

/// A map of vertical stripes, each at least two pixels wide, is left unchanged by the
/// majority filter: if every row of the map reads `cols`, and every column has a
/// horizontal neighbour (folded at the borders) of the same label, each pixel keeps its
/// label. A clean step edge between two regions is thus a fixed point of the filter.
pub proof fn lemma_majority_keeps_wide_stripes(
    labels: Seq<u16>,
    w: int,
    h: int,
    cols: Seq<u16>,
    x: int,
    y: int,
)
    requires
        w * h <= labels.len(),
        cols.len() == w,
        forall|r: int, q: int| 0 <= r < h && 0 <= q < w ==> #[trigger] labels[r * w + q] == cols[q],
        forall|q: int|
            0 <= q < w ==> cols[reflect101_spec(q - 1, w)] == #[trigger] cols[q] || cols[reflect101_spec(
                q + 1,
                w,
            )] == cols[q],
        0 <= x < w,
        0 <= y < h,
    ensures
        majority_at(labels, w, h, x, y) == labels[y * w + x],
{
    let nb = neighbourhood(labels, w, h, x, y);
    let c = cols[x];
    assert(labels[y * w + x] == c);
    lemma_reflect101_identity(x, w);
    lemma_stripe_window(labels, w, h, cols, x, y, 0);
    lemma_stripe_window(labels, w, h, cols, x, y, 1);
    lemma_stripe_window(labels, w, h, cols, x, y, 2);
    lemma_stripe_window(labels, w, h, cols, x, y, 3);
    lemma_stripe_window(labels, w, h, cols, x, y, 4);
    lemma_stripe_window(labels, w, h, cols, x, y, 5);
    lemma_stripe_window(labels, w, h, cols, x, y, 6);
    lemma_stripe_window(labels, w, h, cols, x, y, 7);
    lemma_stripe_window(labels, w, h, cols, x, y, 8);
    lemma_count_two_columns(nb, c as int);
    lemma_majority_wins(labels, w, h, x, y, c);
}

} // verus!
