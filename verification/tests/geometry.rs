use tilesat::grid_mask_str2bool;
use tilesat::Piece;

fn piece(cells: &[(usize, usize)]) -> Piece {
    Piece::new(cells.to_vec())
}

#[test]
fn rotate_four_times_returns_original() {
    let p = piece(&[(0, 0), (0, 1), (1, 1)]);
    let r = p.rotate90().rotate90().rotate90().rotate90();
    assert!(r.eq(&p));
    let q = piece(&[(3, 5), (4, 5), (4, 6), (5, 5)]);
    let r = q.rotate90().rotate90().rotate90().rotate90();
    assert!(r.eq(&q));
}

#[test]
fn flip_x_twice_returns_original() {
    let p = piece(&[(0, 0), (0, 1), (1, 1), (2, 1)]);
    assert!(p.flip_x().flip_x().eq(&p));
    let q = piece(&[(7, 2), (8, 2), (8, 3)]);
    assert!(q.flip_x().flip_x().eq(&q));
}

#[test]
fn flip_y_twice_returns_original() {
    let p = piece(&[(0, 0), (1, 0), (1, 1), (1, 2)]);
    assert!(p.flip_y().flip_y().eq(&p));
}

#[test]
fn rotate_quarter_turn_of_bar() {
    // a vertical bar becomes a horizontal bar
    let p = piece(&[(0, 0), (0, 1), (0, 2)]);
    let r = p.rotate90();
    let expect = piece(&[(0, 0), (1, 0), (2, 0)]);
    assert!(r.eq(&expect));
}

#[test]
fn get_min_max_of_offset_piece() {
    let p = piece(&[(3, 5), (4, 5), (4, 7)]);
    let ((min_x, min_y), (max_x, max_y)) = p.get_min_max();
    assert_eq!((min_x, min_y), (3, 5));
    assert_eq!((max_x, max_y), (4, 7));
}

#[test]
fn shift_to_origin_normalizes() {
    let p = piece(&[(3, 5), (4, 5), (4, 7)]);
    let n = p.shift_to_origin();
    let expect = piece(&[(0, 0), (1, 0), (1, 2)]);
    assert!(n.eq(&expect));
    assert_eq!(n.cells, vec![(0, 0), (1, 0), (1, 2)]);
}

#[test]
fn shift_translates_cells() {
    let p = piece(&[(0, 0), (1, 0)]);
    let s = p.shift(2, 3);
    assert_eq!(s.cells, vec![(2, 3), (3, 3)]);
}

#[test]
fn new_sorts_and_deduplicates() {
    let p = Piece::new(vec![(1, 1), (0, 0), (1, 1), (0, 2)]);
    assert_eq!(p.cells, vec![(0, 0), (0, 2), (1, 1)]);
}

#[test]
fn equality_ignores_translation() {
    let a = piece(&[(5, 5), (5, 6)]);
    let b = piece(&[(0, 0), (0, 1)]);
    assert!(a.eq(&b));
    let c = piece(&[(0, 0), (1, 0)]);
    assert!(!a.eq(&c));
}

#[test]
fn cmp_orders_pieces() {
    let a = piece(&[(0, 0), (0, 1)]);
    let b = piece(&[(0, 0), (1, 0)]);
    assert_eq!(a.cmp(&b), std::cmp::Ordering::Less);
    assert_eq!(b.cmp(&a), std::cmp::Ordering::Greater);
    assert_eq!(a.cmp(&a), std::cmp::Ordering::Equal);
    assert_eq!(a.partial_cmp(&b), Some(std::cmp::Ordering::Less));
}

#[test]
fn orientation_count_of_bar() {
    // the I-tromino has exactly two orientations, with or without flips
    let p = piece(&[(0, 0), (0, 1), (0, 2)]);
    assert_eq!(p.generate_all_orientations(false).len(), 2);
    assert_eq!(p.generate_all_orientations(true).len(), 2);
}

#[test]
fn orientation_count_of_square() {
    let p = piece(&[(0, 0), (0, 1), (1, 0), (1, 1)]);
    assert_eq!(p.generate_all_orientations(false).len(), 1);
    assert_eq!(p.generate_all_orientations(true).len(), 1);
}

#[test]
fn orientation_count_of_l_tromino() {
    let p = piece(&[(0, 0), (0, 1), (1, 1)]);
    assert_eq!(p.generate_all_orientations(false).len(), 4);
    assert_eq!(p.generate_all_orientations(true).len(), 4);
}

#[test]
fn orientation_count_of_s_tetromino() {
    // the S-tetromino gains orientations only through reflection
    let p = piece(&[(0, 0), (0, 1), (1, 1), (1, 2)]);
    assert_eq!(p.generate_all_orientations(false).len(), 2);
    assert_eq!(p.generate_all_orientations(true).len(), 4);
}

#[test]
fn orientation_counts_within_bounds() {
    let shapes: Vec<Vec<(usize, usize)>> = vec![
        vec![(0, 0)],
        vec![(0, 0), (0, 1), (0, 2), (1, 0)],
        vec![(0, 0), (0, 1), (1, 1), (1, 2), (2, 2)],
    ];
    for cells in shapes {
        let p = Piece::new(cells);
        let n = p.generate_all_orientations(false).len();
        assert!((1..=4).contains(&n));
        let nf = p.generate_all_orientations(true).len();
        assert!((1..=8).contains(&nf));
    }
}

#[test]
fn positions_of_unit_piece_fill_grid() {
    let mask = grid_mask_str2bool(vec!["XX", "XX"]);
    let p = piece(&[(0, 0)]);
    let ps = p.generate_all_positions(&mask);
    assert_eq!(ps.len(), 4);
    for placed in &ps {
        for &(x, y) in &placed.cells {
            assert!(y < mask.len() && x < mask[y].len());
            assert!(mask[y][x]);
        }
    }
}

#[test]
fn positions_respect_mask_holes() {
    let mask = grid_mask_str2bool(vec!["X.", ".X"]);
    let p = piece(&[(0, 0)]);
    let ps = p.generate_all_positions(&mask);
    assert_eq!(ps.len(), 2);
    for placed in &ps {
        for &(x, y) in &placed.cells {
            assert!(mask[y][x]);
        }
    }
}

#[test]
fn positions_of_bar_in_three_rows() {
    let mask = grid_mask_str2bool(vec!["XXX", "XXX", "XXX"]);
    let p = piece(&[(0, 0), (0, 1), (0, 2)]);
    let ps = p.generate_all_positions(&mask);
    // a vertical bar of height three fits in each of the three columns
    assert_eq!(ps.len(), 3);
}

#[test]
fn no_positions_when_piece_too_large() {
    let mask = grid_mask_str2bool(vec!["XX", "XX"]);
    let p = piece(&[(0, 0), (0, 1), (0, 2)]);
    let ps = p.generate_all_positions(&mask);
    assert_eq!(ps.len(), 0);
}

#[test]
fn mask_conversion_marks_x_cells() {
    let mask = grid_mask_str2bool(vec!["X.X", ".X."]);
    assert_eq!(mask.len(), 2);
    assert_eq!(mask[0], vec![true, false, true]);
    assert_eq!(mask[1], vec![false, true, false]);
}

#[test]
fn mask_conversion_keeps_row_lengths() {
    let mask = grid_mask_str2bool(vec!["XXXX", "X"]);
    assert_eq!(mask[0].len(), 4);
    assert_eq!(mask[1].len(), 1);
}
