use tilesat::{grid_mask_str2bool, solve, ErrorKind};

fn mask_true_cells(mask: &[Vec<bool>]) -> Vec<(usize, usize)> {
    let mut cells = Vec::new();
    for (y, row) in mask.iter().enumerate() {
        for (x, &b) in row.iter().enumerate() {
            if b {
                cells.push((x, y));
            }
        }
    }
    cells.sort_unstable();
    cells
}

fn check_tiling(sets: &[Vec<(usize, usize)>], mask: &[Vec<bool>]) {
    let mut all: Vec<(usize, usize)> = Vec::new();
    for set in sets {
        for &c in set {
            all.push(c);
        }
    }
    all.sort_unstable();
    let mut deduped = all.clone();
    deduped.dedup();
    // pairwise disjoint, within and across sets
    assert_eq!(all, deduped);
    // union is exactly the mask-true cells
    assert_eq!(all, mask_true_cells(mask));
}

#[test]
fn tromino_scenario_tiles_the_staircase() {
    let pieces = vec![vec![(0, 0), (0, 1), (0, 2)], vec![(0, 0), (0, 1), (1, 1)]];
    let mask = grid_mask_str2bool(vec!["XXX", "XX.", "X.."]);
    let result = solve(pieces, mask.clone(), Some(false), None);
    let sets = result.expect("the staircase should be tileable");
    assert_eq!(sets.len(), 2);
    check_tiling(&sets, &mask);
}

#[test]
fn tromino_scenario_with_flips() {
    let pieces = vec![vec![(0, 0), (0, 1), (0, 2)], vec![(0, 0), (0, 1), (1, 1)]];
    let mask = grid_mask_str2bool(vec!["XXX", "XX.", "X.."]);
    let result = solve(pieces, mask.clone(), Some(true), None);
    let sets = result.expect("still tileable when reflections are allowed");
    check_tiling(&sets, &mask);
}

#[test]
fn unit_piece_cannot_cover_two_cells() {
    let pieces = vec![vec![(0, 0)]];
    let mask = grid_mask_str2bool(vec!["XX"]);
    let result = solve(pieces, mask, None, None);
    assert_eq!(result, Err(ErrorKind::Unsatisfiable));
}

#[test]
fn empty_piece_is_rejected_before_solving() {
    let pieces: Vec<Vec<(usize, usize)>> = vec![vec![]];
    let mask = grid_mask_str2bool(vec!["X"]);
    let result = solve(pieces, mask, None, None);
    assert_eq!(result, Err(ErrorKind::EmptyPieceError));
}

#[test]
fn empty_piece_beats_unsatisfiability() {
    // the empty piece is reported even when the mask is impossible anyway
    let pieces: Vec<Vec<(usize, usize)>> = vec![vec![(0, 0)], vec![]];
    let mask = grid_mask_str2bool(vec!["XXXX"]);
    let result = solve(pieces, mask, None, None);
    assert_eq!(result, Err(ErrorKind::EmptyPieceError));
}

#[test]
fn ragged_mask_is_malformed() {
    let pieces = vec![vec![(0, 0)]];
    let mask = grid_mask_str2bool(vec!["XX", "X"]);
    let result = solve(pieces, mask, None, None);
    assert_eq!(result, Err(ErrorKind::MalformedMaskError));
}

#[test]
fn mask_without_rows_is_malformed() {
    let pieces = vec![vec![(0, 0)]];
    let mask: Vec<Vec<bool>> = vec![];
    let result = solve(pieces, mask, None, None);
    assert_eq!(result, Err(ErrorKind::MalformedMaskError));
}

#[test]
fn mask_without_columns_is_malformed() {
    let pieces = vec![vec![(0, 0)]];
    let mask = grid_mask_str2bool(vec!["", ""]);
    let result = solve(pieces, mask, None, None);
    assert_eq!(result, Err(ErrorKind::MalformedMaskError));
}

#[test]
fn piece_larger_than_grid_is_unsatisfiable_before_solving() {
    let pieces = vec![vec![(0, 0), (0, 1), (0, 2)]];
    let mask = grid_mask_str2bool(vec!["XX", "XX"]);
    let result = solve(pieces, mask, None, None);
    assert_eq!(result, Err(ErrorKind::Unsatisfiable));
}

#[test]
fn unit_piece_covers_unit_mask() {
    let pieces = vec![vec![(7, 9)]];
    let mask = grid_mask_str2bool(vec!["X"]);
    let result = solve(pieces, mask.clone(), None, None);
    let sets = result.expect("one cell, one unit piece");
    assert_eq!(sets, vec![vec![(0, 0)]]);
}

#[test]
fn two_bars_tile_a_square() {
    let pieces = vec![vec![(0, 0), (0, 1)], vec![(0, 0), (0, 1)]];
    let mask = grid_mask_str2bool(vec!["XX", "XX"]);
    let result = solve(pieces, mask.clone(), None, None);
    let sets = result.expect("two dominoes tile a two by two square");
    assert_eq!(sets.len(), 2);
    check_tiling(&sets, &mask);
}

#[test]
fn square_with_hole_is_unsatisfiable_for_domino_pair() {
    let pieces = vec![vec![(0, 0), (0, 1)], vec![(0, 0), (0, 1)]];
    let mask = grid_mask_str2bool(vec!["XX", "X."]);
    let result = solve(pieces, mask, None, None);
    assert_eq!(result, Err(ErrorKind::Unsatisfiable));
}

#[test]
fn s_piece_needs_reflection_for_this_region() {
    // an S-shaped region can be covered by the S-tetromino itself, but its
    // mirror image covers it only when reflections are allowed
    let s_mask = grid_mask_str2bool(vec![".X", "XX", "X."]);
    let z_piece = vec![vec![(0, 0), (0, 1), (1, 1), (1, 2)]];
    let without = solve(z_piece.clone(), s_mask.clone(), Some(false), None);
    assert_eq!(without, Err(ErrorKind::Unsatisfiable));
    let with = solve(z_piece, s_mask.clone(), Some(true), None);
    let sets = with.expect("the mirrored piece covers the region");
    check_tiling(&sets, &s_mask);
}

#[test]
fn rejection_is_deterministic_across_runs() {
    let pieces = vec![vec![(0, 0)]];
    let mask = grid_mask_str2bool(vec!["XX"]);
    let first = solve(pieces.clone(), mask.clone(), None, None);
    let second = solve(pieces, mask, None, None);
    assert_eq!(first, second);
    assert_eq!(first, Err(ErrorKind::Unsatisfiable));
}

#[test]
fn acceptance_is_deterministic_across_runs() {
    let pieces = vec![vec![(0, 0), (0, 1), (0, 2)], vec![(0, 0), (0, 1), (1, 1)]];
    let mask = grid_mask_str2bool(vec!["XXX", "XX.", "X.."]);
    let first = solve(pieces.clone(), mask.clone(), Some(false), None);
    let second = solve(pieces, mask.clone(), Some(false), None);
    // both runs accept; each result is a valid decomposition
    check_tiling(&first.expect("accepted"), &mask);
    check_tiling(&second.expect("accepted"), &mask);
}
