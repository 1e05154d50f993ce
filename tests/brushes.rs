use inverse_design::brushes::{
    apply_brush, compute_big_brush, compute_big_square_brush, compute_very_big_square_brush, multi_apply_brush,
    notched_square_brush, Brush,
};
use inverse_design::bytes::chunks_4;
use inverse_design::grid::{apply_touch, multi_apply_touch, new_array, subtract};

#[test]
fn notched_square_has_twenty_one_offsets() {
    let brush = Brush::notched_square(5, 1);
    assert_eq!(brush.shape, (5, 5));
    assert_eq!(brush.brush.len(), 21);
    assert_eq!(brush.brush[0], (-2, -1));
    assert_eq!(brush.brush[20], (2, 1));
    assert!(!brush.brush.contains(&(-2, -2)));
    assert!(!brush.brush.contains(&(2, 2)));
    assert!(brush.brush.contains(&(0, 0)));
}

#[test]
fn notched_square_brush_without_notch_is_full_square() {
    let offsets = notched_square_brush(3, 0);
    assert_eq!(offsets, vec![(-1, -1), (-1, 0), (-1, 1), (0, -1), (0, 0), (0, 1), (1, -1), (1, 0), (1, 1)]);
}

#[test]
fn notched_square_even_width_is_centred_by_floor() {
    let offsets = notched_square_brush(2, 0);
    assert_eq!(offsets, vec![(-1, -1), (-1, 0), (0, -1), (0, 0)]);
}

#[test]
fn mask_clears_the_corners() {
    let brush = Brush::notched_square(5, 1);
    let mask = brush.mask();
    assert_eq!(mask.len(), 25);
    for k in [0usize, 4, 20, 24] {
        assert!(!mask[k]);
    }
    assert_eq!(mask.iter().filter(|b| **b).count(), 21);
}

#[test]
fn at_clips_to_the_grid() {
    let brush = Brush::notched_square(5, 1);
    let cells = brush.at((0, 6), (6, 8));
    assert_eq!(
        cells,
        vec![(0, 4), (0, 5), (0, 6), (0, 7), (1, 4), (1, 5), (1, 6), (1, 7), (2, 5), (2, 6), (2, 7)]
    );
}

#[test]
fn big_brush_is_the_self_dilation() {
    let brush = Brush::notched_square(5, 1);
    let big = compute_big_brush(&brush);
    assert_eq!(big.shape, (9, 9));
    assert_eq!(big.brush.len(), 69);
    assert_eq!(big.brush[0], (-4, -2));
    assert_eq!(big.brush[68], (4, 2));
    assert!(big.brush.contains(&(0, 0)));
    assert!(big.brush.contains(&(3, 3)));
    assert!(!big.brush.contains(&(4, 3)));
    assert!(!big.brush.contains(&(4, 4)));
}

#[test]
fn big_brush_of_even_square_is_recentred() {
    let brush = Brush::notched_square(2, 0);
    let big = compute_big_brush(&brush);
    assert_eq!(big.shape, (3, 3));
    assert_eq!(big.brush, vec![(-1, -1), (-1, 0), (-1, 1), (0, -1), (0, 0), (0, 1), (1, -1), (1, 0), (1, 1)]);
}

#[test]
fn very_big_brush_is_a_triple_square() {
    let brush = Brush::notched_square(5, 1);
    let vb = compute_very_big_square_brush(&brush);
    assert_eq!(vb.shape, (15, 15));
    assert_eq!(vb.brush.len(), 225);
    assert_eq!(vb.brush[0], (-7, -7));
    assert_eq!(vb.brush[224], (7, 7));
}

#[test]
fn big_square_brush_starts_rows_left() {
    let brush = Brush::notched_square(3, 0);
    let sq = compute_big_square_brush(&brush);
    assert_eq!(sq.shape, (6, 6));
    assert_eq!(sq.brush.len(), 36);
    assert_eq!(sq.brush[0], (-3, -3));
    assert_eq!(sq.brush[35], (2, 2));
}

#[test]
fn from_mask_centres_the_set_cells() {
    let mask = vec![false, true, false, true, true, true, false, true, false];
    let brush = Brush::from_mask((3, 3), &mask);
    assert_eq!(brush.brush, vec![(-1, 0), (0, -1), (0, 0), (0, 1), (1, 0)]);
}

#[test]
fn apply_brush_paints_clipped_cells() {
    let brush = Brush::notched_square(3, 0);
    let mut plane = new_array(12, 0u8);
    apply_brush((3, 4), &mut plane, &brush, (0, 0), 7);
    assert_eq!(plane, vec![7, 7, 0, 0, 7, 7, 0, 0, 0, 0, 0, 0]);
}

#[test]
fn multi_apply_brush_writes_each_plane() {
    let brush = Brush::notched_square(3, 0);
    let mut planes = vec![new_array(4, false), new_array(4, true), new_array(4, false)];
    multi_apply_brush((2, 2), &mut planes, &brush, (1, 1), &vec![true, false]);
    assert_eq!(planes[0], vec![true; 4]);
    assert_eq!(planes[1], vec![false; 4]);
    assert_eq!(planes[2], vec![false; 4]);
}

#[test]
fn apply_touch_sets_one_cell() {
    let mut plane = new_array(6, false);
    apply_touch((2, 3), &mut plane, (1, 2), true);
    assert_eq!(plane, vec![false, false, false, false, false, true]);
}

#[test]
fn multi_apply_touch_sets_one_cell_per_plane() {
    let mut planes = vec![new_array(4, 0i32), new_array(4, 0i32)];
    multi_apply_touch((2, 2), &mut planes, (1, 0), &vec![3, 4, 5]);
    assert_eq!(planes[0], vec![0, 0, 3, 0]);
    assert_eq!(planes[1], vec![0, 0, 4, 0]);
}

#[test]
fn subtract_keeps_order() {
    let v = subtract(&vec![1, 2, 3, 2, 4], &vec![2, 5]);
    assert_eq!(v, vec![1, 3, 4]);
    assert_eq!(subtract(&Vec::<u8>::new(), &vec![1]), Vec::<u8>::new());
}

#[test]
fn new_array_repeats_the_default() {
    assert_eq!(new_array(3, 9u16), vec![9, 9, 9]);
    assert!(new_array(0, 1u8).is_empty());
}

#[test]
fn chunks_4_groups_bytes() {
    let c = chunks_4(&vec![1, 2, 3, 4, 5, 6, 7, 8]);
    assert_eq!(c, vec![[1, 2, 3, 4], [5, 6, 7, 8]]);
    assert!(chunks_4(&Vec::new()).is_empty());
}
