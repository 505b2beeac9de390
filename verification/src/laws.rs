use vstd::prelude::*;

use crate::cells::{
    cell_lt, cells_max_x, cells_max_y, cells_min_x, cells_min_y, lemma_extremes, lemma_sort_dedup,
    lemma_sorted_unique, sorted_strict, Cell,
};
use crate::piece::{
    flip_x_map, flip_y_map, lemma_piece_lt_total, norm_map, orientation_candidates, piece_eq_spec,
    pieces_sorted, rot_map, rotations_of, spec_flip_x, spec_flip_y, spec_rotate90,
};

verus! {

broadcast use vstd::seq_lib::seq_to_set_is_finite;

/// The normal form of a sorted piece: sorted, of the same length, with
/// least coordinates zero; a cell belongs to it exactly when its shift
/// back by the original minima belongs to the original.
pub proof fn lemma_norm_props(s: Seq<Cell>)
    requires
        sorted_strict(s),
        s.len() > 0,
    ensures
        sorted_strict(norm_map(s)),
        norm_map(s).len() == s.len(),
        cells_min_x(norm_map(s)) == 0,
        cells_min_y(norm_map(s)) == 0,
        cells_max_x(norm_map(s)) == cells_max_x(s) - cells_min_x(s),
        cells_max_y(norm_map(s)) == cells_max_y(s) - cells_min_y(s),
        forall|a: usize, b: usize|
            norm_map(s).to_set().contains(((a, b))) <==> (a + cells_min_x(s) <= cells_max_x(s) && b
                + cells_min_y(s) <= cells_max_y(s) && s.to_set().contains(
                (((a + cells_min_x(s)) as usize, (b + cells_min_y(s)) as usize)),
            )),
{
    lemma_extremes(s);
    let t = norm_map(s);
    assert forall|p: int, q: int| 0 <= p < q < t.len() implies cell_lt(t[p], t[q]) by {
        assert(cell_lt(s[p], s[q]));
    }
    lemma_extremes(t);
    assert forall|a: usize, b: usize|
        t.to_set().contains(((a, b))) implies (a + cells_min_x(s) <= cells_max_x(s) && b
        + cells_min_y(s) <= cells_max_y(s) && s.to_set().contains(
        (((a + cells_min_x(s)) as usize, (b + cells_min_y(s)) as usize)),
    )) by {
        let i = choose|i: int| 0 <= i < t.len() && t[i] == (a, b);
        assert(t[i] == (((s[i].0 - cells_min_x(s)) as usize, (s[i].1 - cells_min_y(s)) as usize)));
        assert(s.to_set().contains(s[i]));
        assert(s[i] == (((a + cells_min_x(s)) as usize, (b + cells_min_y(s)) as usize)));
    }
    assert forall|a: usize, b: usize|
        (a + cells_min_x(s) <= cells_max_x(s) && b + cells_min_y(s) <= cells_max_y(s)
            && s.to_set().contains(
            (((a + cells_min_x(s)) as usize, (b + cells_min_y(s)) as usize)),
        )) implies t.to_set().contains(((a, b))) by {
        let c = (((a + cells_min_x(s)) as usize, (b + cells_min_y(s)) as usize));
        let i = choose|i: int| 0 <= i < s.len() && s[i] == c;
        assert(t[i] == (((s[i].0 - cells_min_x(s)) as usize, (s[i].1 - cells_min_y(s)) as usize)));
        assert(t[i] == (a, b));
        assert(t.to_set().contains(t[i]));
    }
    // extremes of the normal form: shifted extremes of the original
    let iy = choose|i: int| 0 <= i < s.len() && (#[trigger] s[i]).1 == cells_min_y(s);
    let ix = choose|i: int| 0 <= i < s.len() && (#[trigger] s[i]).0 == cells_min_x(s);
    let jy = choose|i: int| 0 <= i < s.len() && (#[trigger] s[i]).1 == cells_max_y(s);
    let jx = choose|i: int| 0 <= i < s.len() && (#[trigger] s[i]).0 == cells_max_x(s);
    assert(t[ix].0 == 0 && t[iy].1 == 0);
    assert(t[jx].0 == cells_max_x(s) - cells_min_x(s));
    assert(t[jy].1 == cells_max_y(s) - cells_min_y(s));
    assert(forall|i: int|
        0 <= i < t.len() ==> (#[trigger] t[i]).0 == s[i].0 - cells_min_x(s) && t[i].1 == s[i].1
            - cells_min_y(s));
    assert(cells_min_x(t) <= t[ix].0 && cells_min_y(t) <= t[iy].1);
    assert(cells_max_x(t) >= t[jx].0 && cells_max_y(t) >= t[jy].1);
}

/// Normalizing an already normalized piece changes nothing.
pub proof fn lemma_norm_identity(t: Seq<Cell>)
    requires
        t.len() > 0,
        cells_min_x(t) == 0,
        cells_min_y(t) == 0,
    ensures
        norm_map(t) == t,
{
    assert forall|i: int| 0 <= i < t.len() implies norm_map(t)[i] == t[i] by {
        assert(norm_map(t)[i] == (((t[i].0 - 0) as usize, (t[i].1 - 0) as usize)));
    }
    assert(norm_map(t) =~= t);
}

/// One quarter turn of a sorted piece: the result is sorted and
/// normalized, its bounding box is the transposed one, and a cell belongs
/// to it exactly when its preimage under the turn belongs to the original.
pub proof fn lemma_rot_step(t: Seq<Cell>)
    requires
        sorted_strict(t),
        t.len() > 0,
    ensures
        sorted_strict(spec_rotate90(t)),
        spec_rotate90(t).len() > 0,
        cells_min_x(spec_rotate90(t)) == 0,
        cells_min_y(spec_rotate90(t)) == 0,
        cells_max_x(spec_rotate90(t)) == cells_max_y(t) - cells_min_y(t),
        cells_max_y(spec_rotate90(t)) == cells_max_x(t) - cells_min_x(t),
        forall|a: usize, b: usize|
            spec_rotate90(t).to_set().contains(((a, b))) <==> (a + cells_min_y(t) <= cells_max_y(t)
                && b + cells_min_x(t) <= cells_max_x(t) && t.to_set().contains(
                (((b + cells_min_x(t)) as usize, (cells_max_y(t) - a) as usize)),
            )),
{
    lemma_extremes(t);
    let u = rot_map(t);
    let r = spec_rotate90(t);
    lemma_sort_dedup(u);
    assert(u.contains(u[0]));
    assert(r.to_set().contains(u[0]));
    assert(r.contains(u[0]));
    assert forall|a: usize, b: usize|
        r.to_set().contains(((a, b))) implies (a + cells_min_y(t) <= cells_max_y(t) && b
        + cells_min_x(t) <= cells_max_x(t) && t.to_set().contains(
        (((b + cells_min_x(t)) as usize, (cells_max_y(t) - a) as usize)),
    )) by {
        assert(u.to_set().contains(((a, b))));
        let i = choose|i: int| 0 <= i < u.len() && u[i] == (a, b);
        assert(u[i] == (((cells_max_y(t) - t[i].1) as usize, (t[i].0 - cells_min_x(t)) as usize)));
        assert(t.to_set().contains(t[i]));
        assert(t[i] == (((b + cells_min_x(t)) as usize, (cells_max_y(t) - a) as usize)));
    }
    assert forall|a: usize, b: usize|
        (a + cells_min_y(t) <= cells_max_y(t) && b + cells_min_x(t) <= cells_max_x(t)
            && t.to_set().contains(
            (((b + cells_min_x(t)) as usize, (cells_max_y(t) - a) as usize)),
        )) implies r.to_set().contains(((a, b))) by {
        let c = (((b + cells_min_x(t)) as usize, (cells_max_y(t) - a) as usize));
        let i = choose|i: int| 0 <= i < t.len() && t[i] == c;
        assert(u[i] == (((cells_max_y(t) - t[i].1) as usize, (t[i].0 - cells_min_x(t)) as usize)));
        assert(u[i] == (a, b));
        assert(u.to_set().contains(u[i]));
    }
    // extremes of the rotated piece
    lemma_extremes(u);
    assert(forall|i: int|
        0 <= i < u.len() ==> (#[trigger] u[i]).0 == cells_max_y(t) - t[i].1 && u[i].1 == t[i].0
            - cells_min_x(t));
    let iy = choose|i: int| 0 <= i < t.len() && (#[trigger] t[i]).1 == cells_min_y(t);
    let ix = choose|i: int| 0 <= i < t.len() && (#[trigger] t[i]).0 == cells_min_x(t);
    let jy = choose|i: int| 0 <= i < t.len() && (#[trigger] t[i]).1 == cells_max_y(t);
    let jx = choose|i: int| 0 <= i < t.len() && (#[trigger] t[i]).0 == cells_max_x(t);
    assert(u[jy].0 == 0 && u[ix].1 == 0);
    assert(u[iy].0 == cells_max_y(t) - cells_min_y(t));
    assert(u[jx].1 == cells_max_x(t) - cells_min_x(t));
    assert(cells_min_x(u) == 0 && cells_min_y(u) == 0);
    assert(cells_max_x(u) == cells_max_y(t) - cells_min_y(t));
    assert(cells_max_y(u) == cells_max_x(t) - cells_min_x(t));
    crate::cells::lemma_extremes_of_set(r, u);
}

/// One x-axis reflection of a sorted piece, in the same style.
pub proof fn lemma_flip_x_step(t: Seq<Cell>)
    requires
        sorted_strict(t),
        t.len() > 0,
    ensures
        sorted_strict(spec_flip_x(t)),
        spec_flip_x(t).len() > 0,
        cells_min_x(spec_flip_x(t)) == 0,
        cells_min_y(spec_flip_x(t)) == 0,
        cells_max_x(spec_flip_x(t)) == cells_max_x(t) - cells_min_x(t),
        cells_max_y(spec_flip_x(t)) == cells_max_y(t) - cells_min_y(t),
        forall|a: usize, b: usize|
            spec_flip_x(t).to_set().contains(((a, b))) <==> (a + cells_min_x(t) <= cells_max_x(t)
                && b + cells_min_y(t) <= cells_max_y(t) && t.to_set().contains(
                (((cells_max_x(t) - a) as usize, (b + cells_min_y(t)) as usize)),
            )),
{
    lemma_extremes(t);
    let u = flip_x_map(t);
    let r = spec_flip_x(t);
    lemma_sort_dedup(u);
    assert(u.contains(u[0]));
    assert(r.to_set().contains(u[0]));
    assert(r.contains(u[0]));
    assert forall|a: usize, b: usize|
        r.to_set().contains(((a, b))) implies (a + cells_min_x(t) <= cells_max_x(t) && b
        + cells_min_y(t) <= cells_max_y(t) && t.to_set().contains(
        (((cells_max_x(t) - a) as usize, (b + cells_min_y(t)) as usize)),
    )) by {
        assert(u.to_set().contains(((a, b))));
        let i = choose|i: int| 0 <= i < u.len() && u[i] == (a, b);
        assert(u[i] == (((cells_max_x(t) - t[i].0) as usize, (t[i].1 - cells_min_y(t)) as usize)));
        assert(t.to_set().contains(t[i]));
        assert(t[i] == (((cells_max_x(t) - a) as usize, (b + cells_min_y(t)) as usize)));
    }
    assert forall|a: usize, b: usize|
        (a + cells_min_x(t) <= cells_max_x(t) && b + cells_min_y(t) <= cells_max_y(t)
            && t.to_set().contains(
            (((cells_max_x(t) - a) as usize, (b + cells_min_y(t)) as usize)),
        )) implies r.to_set().contains(((a, b))) by {
        let c = (((cells_max_x(t) - a) as usize, (b + cells_min_y(t)) as usize));
        let i = choose|i: int| 0 <= i < t.len() && t[i] == c;
        assert(u[i] == (((cells_max_x(t) - t[i].0) as usize, (t[i].1 - cells_min_y(t)) as usize)));
        assert(u[i] == (a, b));
        assert(u.to_set().contains(u[i]));
    }
    lemma_extremes(u);
    assert(forall|i: int|
        0 <= i < u.len() ==> (#[trigger] u[i]).0 == cells_max_x(t) - t[i].0 && u[i].1 == t[i].1
            - cells_min_y(t));
    let iy = choose|i: int| 0 <= i < t.len() && (#[trigger] t[i]).1 == cells_min_y(t);
    let ix = choose|i: int| 0 <= i < t.len() && (#[trigger] t[i]).0 == cells_min_x(t);
    let jy = choose|i: int| 0 <= i < t.len() && (#[trigger] t[i]).1 == cells_max_y(t);
    let jx = choose|i: int| 0 <= i < t.len() && (#[trigger] t[i]).0 == cells_max_x(t);
    assert(u[jx].0 == 0 && u[iy].1 == 0);
    assert(u[ix].0 == cells_max_x(t) - cells_min_x(t));
    assert(u[jy].1 == cells_max_y(t) - cells_min_y(t));
    assert(cells_min_x(u) == 0 && cells_min_y(u) == 0);
    assert(cells_max_x(u) == cells_max_x(t) - cells_min_x(t));
    assert(cells_max_y(u) == cells_max_y(t) - cells_min_y(t));
    crate::cells::lemma_extremes_of_set(r, u);
}

/// One y-axis reflection of a sorted piece, in the same style.
pub proof fn lemma_flip_y_step(t: Seq<Cell>)
    requires
        sorted_strict(t),
        t.len() > 0,
    ensures
        sorted_strict(spec_flip_y(t)),
        spec_flip_y(t).len() > 0,
        cells_min_x(spec_flip_y(t)) == 0,
        cells_min_y(spec_flip_y(t)) == 0,
        cells_max_x(spec_flip_y(t)) == cells_max_x(t) - cells_min_x(t),
        cells_max_y(spec_flip_y(t)) == cells_max_y(t) - cells_min_y(t),
        forall|a: usize, b: usize|
            spec_flip_y(t).to_set().contains(((a, b))) <==> (a + cells_min_x(t) <= cells_max_x(t)
                && b + cells_min_y(t) <= cells_max_y(t) && t.to_set().contains(
                (((a + cells_min_x(t)) as usize, (cells_max_y(t) - b) as usize)),
            )),
{
    lemma_extremes(t);
    let u = flip_y_map(t);
    let r = spec_flip_y(t);
    lemma_sort_dedup(u);
    assert(u.contains(u[0]));
    assert(r.to_set().contains(u[0]));
    assert(r.contains(u[0]));
    assert forall|a: usize, b: usize|
        r.to_set().contains(((a, b))) implies (a + cells_min_x(t) <= cells_max_x(t) && b
        + cells_min_y(t) <= cells_max_y(t) && t.to_set().contains(
        (((a + cells_min_x(t)) as usize, (cells_max_y(t) - b) as usize)),
    )) by {
        assert(u.to_set().contains(((a, b))));
        let i = choose|i: int| 0 <= i < u.len() && u[i] == (a, b);
        assert(u[i] == (((t[i].0 - cells_min_x(t)) as usize, (cells_max_y(t) - t[i].1) as usize)));
        assert(t.to_set().contains(t[i]));
        assert(t[i] == (((a + cells_min_x(t)) as usize, (cells_max_y(t) - b) as usize)));
    }
    assert forall|a: usize, b: usize|
        (a + cells_min_x(t) <= cells_max_x(t) && b + cells_min_y(t) <= cells_max_y(t)
            && t.to_set().contains(
            (((a + cells_min_x(t)) as usize, (cells_max_y(t) - b) as usize)),
        )) implies r.to_set().contains(((a, b))) by {
        let c = (((a + cells_min_x(t)) as usize, (cells_max_y(t) - b) as usize));
        let i = choose|i: int| 0 <= i < t.len() && t[i] == c;
        assert(u[i] == (((t[i].0 - cells_min_x(t)) as usize, (cells_max_y(t) - t[i].1) as usize)));
        assert(u[i] == (a, b));
        assert(u.to_set().contains(u[i]));
    }
    lemma_extremes(u);
    assert(forall|i: int|
        0 <= i < u.len() ==> (#[trigger] u[i]).0 == t[i].0 - cells_min_x(t) && u[i].1
            == cells_max_y(t) - t[i].1);
    let iy = choose|i: int| 0 <= i < t.len() && (#[trigger] t[i]).1 == cells_min_y(t);
    let ix = choose|i: int| 0 <= i < t.len() && (#[trigger] t[i]).0 == cells_min_x(t);
    let jy = choose|i: int| 0 <= i < t.len() && (#[trigger] t[i]).1 == cells_max_y(t);
    let jx = choose|i: int| 0 <= i < t.len() && (#[trigger] t[i]).0 == cells_max_x(t);
    assert(u[ix].0 == 0 && u[jy].1 == 0);
    assert(u[jx].0 == cells_max_x(t) - cells_min_x(t));
    assert(u[iy].1 == cells_max_y(t) - cells_min_y(t));
    assert(cells_min_x(u) == 0 && cells_min_y(u) == 0);
    assert(cells_max_x(u) == cells_max_x(t) - cells_min_x(t));
    assert(cells_max_y(u) == cells_max_y(t) - cells_min_y(t));
    crate::cells::lemma_extremes_of_set(r, u);
}

/// Orientation closure, first half: four quarter turns return any piece to
/// its normal form, which is equal to the original piece.
pub proof fn lemma_rotate_four_identity(s: Seq<Cell>)
    requires
        sorted_strict(s),
        s.len() > 0,
    ensures
        spec_rotate90(spec_rotate90(spec_rotate90(spec_rotate90(s)))) == norm_map(s),
        piece_eq_spec(spec_rotate90(spec_rotate90(spec_rotate90(spec_rotate90(s)))), s),
{
    lemma_extremes(s);
    lemma_norm_props(s);
    let n0 = norm_map(s);
    let bx = cells_max_x(s) - cells_min_x(s);
    let by = cells_max_y(s) - cells_min_y(s);
    let r1 = spec_rotate90(s);
    lemma_rot_step(s);
    let r2 = spec_rotate90(r1);
    lemma_rot_step(r1);
    let r3 = spec_rotate90(r2);
    lemma_rot_step(r2);
    let r4 = spec_rotate90(r3);
    lemma_rot_step(r3);
    assert(cells_max_x(r1) == by && cells_max_y(r1) == bx);
    assert(cells_max_x(r2) == bx && cells_max_y(r2) == by);
    assert(cells_max_x(r3) == by && cells_max_y(r3) == bx);
    assert(cells_max_x(r4) == bx && cells_max_y(r4) == by);
    assert forall|e: Cell| r4.to_set().contains(e) <==> n0.to_set().contains(e) by {
        let a = e.0;
        let b = e.1;
        assert(e == (a, b));
        if r4.to_set().contains((a, b)) {
            assert(r3.to_set().contains((((b) as usize, (bx - a) as usize))));
            assert(r2.to_set().contains((((bx - a) as usize, (by - b) as usize))));
            assert(r1.to_set().contains((((by - b) as usize, (bx - (bx - a)) as usize))));
            assert(r1.to_set().contains((((by - b) as usize, (a) as usize))));
            assert(s.to_set().contains(
                (((a + cells_min_x(s)) as usize, (cells_max_y(s) - (by - b)) as usize)),
            ));
            assert(s.to_set().contains(
                (((a + cells_min_x(s)) as usize, (b + cells_min_y(s)) as usize)),
            ));
            assert(n0.to_set().contains((a, b)));
        }
        if n0.to_set().contains((a, b)) {
            assert(s.to_set().contains(
                (((a + cells_min_x(s)) as usize, (b + cells_min_y(s)) as usize)),
            ));
            assert(cells_max_y(s) - (b + cells_min_y(s)) == by - b);
            assert(r1.to_set().contains((((by - b) as usize, (a) as usize))));
            assert(r2.to_set().contains((((bx - a) as usize, (by - b) as usize))));
            assert(r3.to_set().contains((((b) as usize, (bx - a) as usize))));
            assert(r4.to_set().contains((((a) as usize, (b) as usize))));
        }
    }
    assert(r4.to_set() =~= n0.to_set());
    lemma_sorted_unique(r4, n0);
    lemma_norm_identity(n0);
}

/// Orientation closure, second half: reflecting across the x axis twice
/// returns any piece to its normal form, which is equal to the original.
pub proof fn lemma_flip_x_twice_identity(s: Seq<Cell>)
    requires
        sorted_strict(s),
        s.len() > 0,
    ensures
        spec_flip_x(spec_flip_x(s)) == norm_map(s),
        piece_eq_spec(spec_flip_x(spec_flip_x(s)), s),
{
    lemma_extremes(s);
    lemma_norm_props(s);
    let n0 = norm_map(s);
    let bx = cells_max_x(s) - cells_min_x(s);
    let f1 = spec_flip_x(s);
    lemma_flip_x_step(s);
    let f2 = spec_flip_x(f1);
    lemma_flip_x_step(f1);
    assert(cells_max_x(f1) == bx);
    assert forall|e: Cell| f2.to_set().contains(e) <==> n0.to_set().contains(e) by {
        let a = e.0;
        let b = e.1;
        assert(e == (a, b));
        if f2.to_set().contains((a, b)) {
            assert(f1.to_set().contains((((bx - a) as usize, (b) as usize))));
            assert(s.to_set().contains(
                (((cells_max_x(s) - (bx - a)) as usize, (b + cells_min_y(s)) as usize)),
            ));
            assert(cells_max_x(s) - (bx - a) == a + cells_min_x(s));
            assert(n0.to_set().contains((a, b)));
        }
        if n0.to_set().contains((a, b)) {
            assert(s.to_set().contains(
                (((a + cells_min_x(s)) as usize, (b + cells_min_y(s)) as usize)),
            ));
            assert(cells_max_x(s) - (a + cells_min_x(s)) == bx - a);
            assert(f1.to_set().contains((((bx - a) as usize, (b) as usize))));
            assert(f2.to_set().contains((((bx - (bx - a)) as usize, (b) as usize))));
            assert(f2.to_set().contains((((a) as usize, (b) as usize))));
        }
    }
    assert(f2.to_set() =~= n0.to_set());
    lemma_sorted_unique(f2, n0);
    lemma_norm_identity(n0);
}

/// A y-axis reflection is an x-axis reflection followed by a half turn.
pub proof fn lemma_flip_y_as_rotations(t: Seq<Cell>)
    requires
        sorted_strict(t),
        t.len() > 0,
    ensures
        spec_flip_y(t) == spec_rotate90(spec_rotate90(spec_flip_x(t))),
{
    lemma_extremes(t);
    let bx = cells_max_x(t) - cells_min_x(t);
    let by = cells_max_y(t) - cells_min_y(t);
    let f = spec_flip_x(t);
    lemma_flip_x_step(t);
    let g1 = spec_rotate90(f);
    lemma_rot_step(f);
    let g2 = spec_rotate90(g1);
    lemma_rot_step(g1);
    let fy = spec_flip_y(t);
    lemma_flip_y_step(t);
    assert forall|e: Cell| g2.to_set().contains(e) <==> fy.to_set().contains(e) by {
        let a = e.0;
        let b = e.1;
        assert(e == (a, b));
        if g2.to_set().contains((a, b)) {
            assert(g1.to_set().contains((((b) as usize, (bx - a) as usize))));
            assert(f.to_set().contains((((bx - a) as usize, (by - b) as usize))));
            assert(t.to_set().contains(
                (((cells_max_x(t) - (bx - a)) as usize, ((by - b) + cells_min_y(t)) as usize)),
            ));
            assert(cells_max_x(t) - (bx - a) == a + cells_min_x(t));
            assert((by - b) + cells_min_y(t) == cells_max_y(t) - b);
            assert(fy.to_set().contains((a, b)));
        }
        if fy.to_set().contains((a, b)) {
            assert(t.to_set().contains(
                (((a + cells_min_x(t)) as usize, (cells_max_y(t) - b) as usize)),
            ));
            assert(cells_max_x(t) - (a + cells_min_x(t)) == bx - a);
            assert((cells_max_y(t) - b) - cells_min_y(t) == by - b);
            assert(f.to_set().contains((((bx - a) as usize, (by - b) as usize))));
            assert(g1.to_set().contains((((b) as usize, (bx - a) as usize))));
            assert(g2.to_set().contains((((a) as usize, (b) as usize))));
        }
    }
    assert(g2.to_set() =~= fy.to_set());
    lemma_sorted_unique(g2, fy);
}

/// Reflecting across both axes is a half turn.
pub proof fn lemma_flip_both_as_rotations(t: Seq<Cell>)
    requires
        sorted_strict(t),
        t.len() > 0,
    ensures
        spec_flip_x(spec_flip_y(t)) == spec_rotate90(spec_rotate90(t)),
{
    lemma_extremes(t);
    let bx = cells_max_x(t) - cells_min_x(t);
    let by = cells_max_y(t) - cells_min_y(t);
    let fy = spec_flip_y(t);
    lemma_flip_y_step(t);
    let fxy = spec_flip_x(fy);
    lemma_flip_x_step(fy);
    let r1 = spec_rotate90(t);
    lemma_rot_step(t);
    let r2 = spec_rotate90(r1);
    lemma_rot_step(r1);
    assert forall|e: Cell| fxy.to_set().contains(e) <==> r2.to_set().contains(e) by {
        let a = e.0;
        let b = e.1;
        assert(e == (a, b));
        if fxy.to_set().contains((a, b)) {
            assert(fy.to_set().contains((((bx - a) as usize, (b) as usize))));
            assert(t.to_set().contains(
                ((((bx - a) + cells_min_x(t)) as usize, (cells_max_y(t) - b) as usize)),
            ));
            assert(r1.to_set().contains((((b) as usize, (bx - a) as usize))));
            assert(r2.to_set().contains((((a) as usize, (b) as usize))));
        }
        if r2.to_set().contains((a, b)) {
            assert(r1.to_set().contains((((b) as usize, (bx - a) as usize))));
            assert(t.to_set().contains(
                ((((bx - a) + cells_min_x(t)) as usize, (cells_max_y(t) - b) as usize)),
            ));
            assert(fy.to_set().contains((((bx - a) as usize, (b) as usize))));
            assert(fxy.to_set().contains((((a) as usize, (b) as usize))));
        }
    }
    assert(fxy.to_set() =~= r2.to_set());
    lemma_sorted_unique(fxy, r2);
}

/// Orientation count bound: a deduplicated orientation list (sorted by the
/// piece order, holding exactly the candidate orientations) has between 1
/// and 4 entries, or between 1 and 8 when reflections are allowed.
pub proof fn lemma_orientation_count_bound(
    s: Seq<Cell>,
    flips_allowed: bool,
    vs: Seq<Seq<Cell>>,
)
    requires
        sorted_strict(s),
        s.len() > 0,
        pieces_sorted(vs),
        vs.to_set() == orientation_candidates(s, flips_allowed).to_set(),
    ensures
        1 <= vs.len() <= (if flips_allowed {
            8int
        } else {
            4int
        }),
{
    lemma_norm_props(s);
    let p0 = norm_map(s);
    let cands = orientation_candidates(s, flips_allowed);
    // the list is duplicate free, so its length is the cardinality of its set
    assert(vs.no_duplicates()) by {
        assert forall|i: int, j: int|
            0 <= i < vs.len() && 0 <= j < vs.len() && i != j implies vs[i] != vs[j] by {
            if i < j {
                lemma_piece_lt_total(vs[i], vs[j]);
            } else {
                lemma_piece_lt_total(vs[j], vs[i]);
            }
        }
    }
    vs.unique_seq_to_set();
    // lower bound: the candidate list is never empty
    assert(cands.contains(cands[0]));
    assert(vs.to_set().contains(cands[0]));
    assert(vs.contains(cands[0]));
    if !flips_allowed {
        cands.lemma_cardinality_of_set();
    } else {
        let f = spec_flip_x(p0);
        lemma_flip_x_step(p0);
        let eight = rotations_of(p0) + rotations_of(f);
        lemma_flip_y_as_rotations(p0);
        lemma_flip_both_as_rotations(p0);
        lemma_rotate_four_identity(p0);
        lemma_rotate_four_identity(f);
        lemma_norm_identity(p0);
        lemma_norm_identity(f);
        // the reflected orbits repeat the first two orbits
        assert(cands[8] == eight[6]);
        assert(cands[9] == eight[7]);
        assert(cands[10] == eight[4]);
        assert(cands[11] == eight[5]);
        assert(cands[12] == eight[2]);
        assert(cands[13] == eight[3]);
        assert(cands[14] == eight[0]);
        assert(cands[15] == eight[1]);
        assert forall|e: Seq<Cell>| cands.to_set().contains(e) implies eight.to_set().contains(
            e,
        ) by {
            let k = choose|k: int| 0 <= k < cands.len() && cands[k] == e;
            if k < 8 {
                assert(eight[k] == cands[k]);
            } else {
                assert(eight[if k == 8 {
                    6int
                } else if k == 9 {
                    7int
                } else if k == 10 {
                    4int
                } else if k == 11 {
                    5int
                } else if k == 12 {
                    2int
                } else if k == 13 {
                    3int
                } else if k == 14 {
                    0int
                } else {
                    1int
                }] == cands[k]);
            }
            assert(eight.contains(e));
        }
        assert(vs.to_set().len() <= eight.to_set().len()) by {
            vstd::set_lib::lemma_len_subset(vs.to_set(), eight.to_set());
        }
        eight.lemma_cardinality_of_set();
    }
}

} // verus!
