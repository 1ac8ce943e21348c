use painterly::buf::RgbBuf;
use painterly::palette::{
    apply_palette, edge_mask, majority_vote_3x3, paint_swatch, posterize_edges, sort_labels,
    QuantizeResult,
};

fn img_from(w: u32, h: u32, px: &[[u8; 3]]) -> RgbBuf {
    let mut data = Vec::new();
    for p in px {
        data.extend_from_slice(p);
    }
    RgbBuf { width: w, height: h, data }
}

#[test]
fn edge_mask_marks_left_and_upper_changes() {
    // 3 x 2
    // 0 0 1
    // 0 2 1
    let labels = [0u16, 0, 1, 0, 2, 1];
    let m = edge_mask(&labels, 3, 2);
    assert_eq!(m, vec![false, false, true, false, true, true]);
}

#[test]
fn edge_mask_uniform_is_empty() {
    let labels = [7u16; 12];
    assert!(edge_mask(&labels, 4, 3).iter().all(|&e| !e));
    assert!(edge_mask(&[], 0, 5).is_empty());
}

#[test]
fn posterize_keeps_boundary_colours_only() {
    let labels = [0u16, 0, 1, 0, 2, 1];
    let q = img_from(3, 2, &[[10, 10, 10], [10, 10, 10], [200, 0, 0], [10, 10, 10], [0, 200, 0], [200, 0, 0]]);
    let out = posterize_edges(&labels, &q);
    assert_eq!((out.width, out.height), (3, 2));
    let mask = edge_mask(&labels, 3, 2);
    for i in 0..6 {
        let expect = if mask[i] { [q.data[3 * i], q.data[3 * i + 1], q.data[3 * i + 2]] } else { [0, 0, 0] };
        assert_eq!(&out.data[3 * i..3 * i + 3], &expect);
    }
    assert_eq!(out.get_pixel(2, 0), [200, 0, 0]);
    assert_eq!(out.get_pixel(1, 1), [0, 200, 0]);
    assert_eq!(out.get_pixel(0, 0), [0, 0, 0]);
}

#[test]
fn sort_labels_sorts() {
    assert_eq!(sort_labels(&vec![5, 1, 4, 1, 9, 0, 3, 3, 2]), vec![0, 1, 1, 2, 3, 3, 4, 5, 9]);
    assert_eq!(sort_labels(&vec![]), Vec::<u16>::new());
}

#[test]
fn majority_removes_isolated_speckle() {
    let mut labels = vec![3u16; 25];
    labels[12] = 9; // centre of a 5 x 5 map
    let out = majority_vote_3x3(&labels, 5, 5);
    assert_eq!(out, vec![3u16; 25]);
}

#[test]
fn majority_uses_reflected_border() {
    // 3 x 1 row: 1 2 2 ; neighbourhood of x=0 reflects to columns 1,0,1 in rows 1,0,1
    let labels = [1u16, 2, 2];
    let out = majority_vote_3x3(&labels, 3, 1);
    // x = 0: {2,1,2} x 3 rows -> sorted 1 1 1 2 2 2 2 2 2, median 2
    // x = 1: {1,2,2} -> median 2 ; x = 2: {2,2,2} -> 2
    assert_eq!(out, vec![2, 2, 2]);
    let labels = [1u16, 1, 2];
    assert_eq!(majority_vote_3x3(&labels, 3, 1), vec![1, 1, 1]);
}

#[test]
fn majority_single_pixel() {
    assert_eq!(majority_vote_3x3(&[4u16], 1, 1), vec![4]);
}

#[test]
fn apply_palette_snaps_to_nearest() {
    let pal = [[0u8, 0, 0], [255, 255, 255], [250, 0, 0]];
    let img = img_from(2, 2, &[[10, 10, 10], [200, 200, 200], [200, 30, 20], [128, 128, 128]]);
    let out = apply_palette(&img, &pal);
    assert_eq!(out.get_pixel(0, 0), [0, 0, 0]);
    assert_eq!(out.get_pixel(1, 0), [255, 255, 255]);
    assert_eq!(out.get_pixel(0, 1), [250, 0, 0]);
    // 128 grey: black 49152, white 48387, red 122^2 + 2 * 128^2 = 47652 -> red
    assert_eq!(out.get_pixel(1, 1), [250, 0, 0]);
}

#[test]
fn apply_palette_first_entry_wins_ties() {
    let pal = [[0u8, 0, 0], [2, 0, 0]];
    let img = img_from(1, 1, &[[1, 0, 0]]);
    assert_eq!(apply_palette(&img, &pal).get_pixel(0, 0), [0, 0, 0]);
    let pal = [[2u8, 0, 0], [0, 0, 0]];
    assert_eq!(apply_palette(&img, &pal).get_pixel(0, 0), [2, 0, 0]);
}

#[test]
fn apply_palette_is_idempotent() {
    let pal = [[12u8, 40, 200], [240, 240, 30], [90, 90, 90], [0, 0, 0]];
    let mut px = Vec::new();
    for i in 0..64u32 {
        px.push([(i * 37 % 256) as u8, (i * 91 % 256) as u8, (i * 13 % 256) as u8]);
    }
    let img = img_from(8, 8, &px);
    let once = apply_palette(&img, &pal);
    let twice = apply_palette(&once, &pal);
    assert_eq!(once.data, twice.data);
    for p in once.data.chunks(3) {
        assert!(pal.iter().any(|c| c == p));
    }
}

#[test]
fn apply_palette_empty_image_needs_no_palette() {
    let img = RgbBuf::new(0, 3);
    let out = apply_palette(&img, &[]);
    assert!(out.data.is_empty());
    assert_eq!((out.width, out.height), (0, 3));
}

#[test]
fn quantize_result_counts_and_paints() {
    let labels = vec![0u16, 2, 2, 1, 2, 0];
    let pal = vec![[1u8, 2, 3], [4, 5, 6], [7, 8, 9]];
    let r = QuantizeResult::from_labels(labels.clone(), pal.clone(), 3, 2);
    assert_eq!(r.counts, vec![2, 1, 3]);
    assert_eq!(r.counts.iter().sum::<u32>(), 6);
    assert_eq!(r.labels, labels);
    assert_eq!(r.palette, pal);
    assert_eq!(r.quantized.get_pixel(1, 0), [7, 8, 9]);
    assert_eq!(r.quantized.get_pixel(0, 1), [4, 5, 6]);
    assert_eq!(r.quantized.get_pixel(2, 1), [1, 2, 3]);
}

#[test]
fn quantize_result_unused_entry_counts_zero() {
    let r = QuantizeResult::from_labels(vec![1u16; 4], vec![[0u8, 0, 0], [9, 9, 9], [5, 5, 5]], 2, 2);
    assert_eq!(r.counts, vec![0, 4, 0]);
}

#[test]
fn swatch_layout() {
    let pal: Vec<[u8; 3]> = (0..13u8).map(|i| [i, 100 + i, 200]).collect();
    let order: Vec<usize> = (0..13).rev().collect();
    let img = paint_swatch(&pal, &order);
    assert_eq!((img.width, img.height), (264, 44));
    // border of the first cell and the gap are dark grey
    assert_eq!(img.get_pixel(0, 0), [45, 45, 45]);
    assert_eq!(img.get_pixel(21, 5), [45, 45, 45]);
    // first cell shows palette[order[0]] = palette[12]
    assert_eq!(img.get_pixel(1, 1), [12, 112, 200]);
    assert_eq!(img.get_pixel(20, 20), [12, 112, 200]);
    // cell 11 (last of the first row) shows palette[1]
    assert_eq!(img.get_pixel(11 * 22 + 5, 10), [1, 101, 200]);
    // cell 12 starts the second row and shows palette[0]
    assert_eq!(img.get_pixel(3, 22 + 3), [0, 100, 200]);
    // cell 13 is empty
    assert_eq!(img.get_pixel(22 + 3, 22 + 3), [45, 45, 45]);
}

#[test]
fn swatch_empty_palette() {
    let img = paint_swatch(&[], &[]);
    assert_eq!((img.width, img.height), (264, 0));
    assert!(img.data.is_empty());
}

#[test]
fn majority_five_of_nine_wins() {
    // 3 x 3, label 1 on five pixels, label 2 on four: the centre takes 1
    let labels = [1u16, 2, 1, 2, 1, 2, 1, 2, 1];
    let out = majority_vote_3x3(&labels, 3, 3);
    assert_eq!(out[4], 1);
    // higher labels in the majority win too
    let labels = [7u16, 0, 7, 0, 7, 0, 7, 0, 7];
    assert_eq!(majority_vote_3x3(&labels, 3, 3)[4], 7);
}
