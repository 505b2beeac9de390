use vstd::prelude::*;

use crate::cells::{cell_lt, sorted_strict, Cell};
use crate::mask::mask_wf;
use crate::piece::{blocks_arrangement, views_of, Piece};

verus! {

broadcast use vstd::seq_lib::group_seq_properties;

/// Largest 1-based variable number the SAT backend supports (its variable
/// indices carry tag bits, leaving 28 usable bits).
pub const MAX_VAR: i64 = 268435456;

/// First literal of placement block `d`: each block owns a dense `w * h`
/// grid of occupancy variables followed by one placement variable, and
/// numbering starts at 1.
pub open spec fn block_base(d: int, w: int, h: int) -> int {
    1 + d * (w * h + 1)
}

/// The occupancy variable of block `d` for grid cell `(x, y)`.
pub open spec fn occ_lit(d: int, x: int, y: int, w: int, h: int) -> int {
    block_base(d, w, h) + x * h + y
}

/// The placement variable of block `d`.
pub open spec fn place_lit(d: int, w: int, h: int) -> int {
    block_base(d, w, h) + w * h
}

/// "Selecting block `d` makes it occupy `(x, y)`."
pub open spec fn impl_clause(d: int, x: int, y: int, w: int, h: int) -> Seq<int> {
    seq![-place_lit(d, w, h), occ_lit(d, x, y, w, h)]
}

/// "Block `d` occupies `(x, y)` only if it is selected."
pub open spec fn occ_sel_clause(d: int, x: int, y: int, w: int, h: int) -> Seq<int> {
    seq![place_lit(d, w, h), -occ_lit(d, x, y, w, h)]
}

/// "Block `d` never occupies `(x, y)`": emitted for each grid cell outside
/// the block's footprint, so that occupancy variables cannot be set freely
/// to satisfy coverage without a real placement.
pub open spec fn no_occ_clause(d: int, x: int, y: int, w: int, h: int) -> Seq<int> {
    seq![-occ_lit(d, x, y, w, h)]
}

/// The clause list fully constrains block `d`'s occupancy variable at
/// `(x, y)`: tied both ways to the placement variable on footprint cells,
/// forced false elsewhere.
pub open spec fn cell_done(
    cs: Seq<Seq<int>>,
    bl: Seq<Cell>,
    d: int,
    x: int,
    y: int,
    w: int,
    h: int,
) -> bool {
    if bl.contains(((x as usize, y as usize))) {
        cs.contains(impl_clause(d, x, y, w, h)) && cs.contains(occ_sel_clause(d, x, y, w, h))
    } else {
        cs.contains(no_occ_clause(d, x, y, w, h))
    }
}

/// "Some placement of the piece owning blocks `s..e` is selected."
pub open spec fn piece_clause(s: int, e: int, w: int, h: int) -> Seq<int> {
    Seq::new((e - s) as nat, |k: int| place_lit(s + k, w, h))
}

/// "Blocks `d1` and `d2` of one piece are not both selected."
pub open spec fn place_excl_clause(d1: int, d2: int, w: int, h: int) -> Seq<int> {
    seq![-place_lit(d1, w, h), -place_lit(d2, w, h)]
}

/// "Some block occupies cell `(x, y)`."
pub open spec fn cover_clause(x: int, y: int, w: int, h: int, nblocks: int) -> Seq<int> {
    Seq::new(nblocks as nat, |d: int| occ_lit(d, x, y, w, h))
}

/// "Blocks `d1` and `d2` do not both occupy cell `(x, y)`."
pub open spec fn excl_clause(d1: int, d2: int, x: int, y: int, w: int, h: int) -> Seq<int> {
    seq![-occ_lit(d1, x, y, w, h), -occ_lit(d2, x, y, w, h)]
}

/// One of the clause forms the per-piece pass may emit for the blocks
/// `s..e` of one piece: implication or selection linking on a footprint
/// cell, the occupancy ban on a non-footprint cell, the piece's "at least
/// one placement" clause, or pairwise exclusion of its placements.
pub open spec fn piece_family(
    c: Seq<int>,
    bviews: Seq<Seq<Cell>>,
    s: int,
    e: int,
    w: int,
    h: int,
) -> bool {
    ||| (exists|d: int, x: int, y: int|
        s <= d < e && 0 <= x < w && 0 <= y < h && bviews[d].contains(((x as usize, y as usize)))
            && c == #[trigger] impl_clause(d, x, y, w, h))
    ||| (exists|d: int, x: int, y: int|
        s <= d < e && 0 <= x < w && 0 <= y < h && bviews[d].contains(((x as usize, y as usize)))
            && c == #[trigger] occ_sel_clause(d, x, y, w, h))
    ||| (exists|d: int, x: int, y: int|
        s <= d < e && 0 <= x < w && 0 <= y < h && !bviews[d].contains(((x as usize, y as usize)))
            && c == #[trigger] no_occ_clause(d, x, y, w, h))
    ||| c == piece_clause(s, e, w, h)
    ||| (exists|d1: int, d2: int|
        s <= d1 < d2 < e && c == #[trigger] place_excl_clause(d1, d2, w, h))
}

/// One of the clause forms the per-cell pass may emit: a coverage clause
/// or a pairwise occupancy exclusion, both on a mask-true cell.
pub open spec fn cover_family(c: Seq<int>, m: Seq<Seq<bool>>, w: int, h: int, nblocks: int) -> bool {
    ||| (exists|x: int, y: int|
        0 <= x < w && 0 <= y < h && m[y][x] && c == #[trigger] cover_clause(x, y, w, h, nblocks))
    ||| (exists|d1: int, d2: int, x: int, y: int|
        0 <= d1 < d2 < nblocks && 0 <= x < w && 0 <= y < h && m[y][x] && c
            == #[trigger] excl_clause(d1, d2, x, y, w, h))
}

/// A clause of a correctly compiled instance for the placement-block table
/// `bviews` with per-piece spans `rgs` over the mask `m`: one of some
/// piece's clause forms, or one of the per-cell clause forms.
pub open spec fn instance_clause(
    c: Seq<int>,
    bviews: Seq<Seq<Cell>>,
    rgs: Seq<(int, int)>,
    m: Seq<Seq<bool>>,
    w: int,
    h: int,
) -> bool {
    ||| (exists|p: int|
        0 <= p < rgs.len() && #[trigger] piece_family(c, bviews, rgs[p].0, rgs[p].1, w, h))
    ||| cover_family(c, m, w, h, bviews.len() as int)
}

/// Some correctly compiled instance for these pieces and this mask is
/// unsatisfiable: there are a placement-block table and clauses drawn only
/// from the stated clause families over it, admitting no consistent
/// satisfying assignment. The whole instance only adds clauses, so it is
/// then unsatisfiable as well.
pub open spec fn unsat_instance_for(
    pieces: Seq<Seq<Cell>>,
    m: Seq<Seq<bool>>,
    flips: bool,
) -> bool {
    exists|cls: Seq<Seq<int>>, bv: Seq<Seq<Cell>>, rgs: Seq<(int, int)>|
        #![trigger blocks_arrangement(bv, rgs, pieces, m, flips), sat_instance(cls)]
        blocks_arrangement(bv, rgs, pieces, m, flips) && (forall|i: int|
            0 <= i < cls.len() ==> instance_clause(
                #[trigger] cls[i],
                bv,
                rgs,
                m,
                m[0].len() as int,
                m.len() as int,
            )) && !sat_instance(cls)
}

/// A signed literal the backend accepts: nonzero, within the variable range.
pub open spec fn lit_ok(l: int) -> bool {
    l != 0 && -(MAX_VAR as int) <= l <= MAX_VAR as int
}

pub open spec fn clause_ok(c: Seq<int>) -> bool {
    forall|k: int| 0 <= k < c.len() ==> lit_ok(#[trigger] c[k])
}

pub open spec fn clauses_ok(cs: Seq<Seq<int>>) -> bool {
    forall|i: int| 0 <= i < cs.len() ==> clause_ok(#[trigger] cs[i])
}

/// The mathematical value of a literal vector.
pub open spec fn lits_of(c: Seq<i64>) -> Seq<int> {
    c.map_values(|l: i64| l as int)
}

/// The mathematical value of a clause list.
pub open spec fn clauses_of(cl: Seq<Vec<i64>>) -> Seq<Seq<int>> {
    cl.map_values(|c: Vec<i64>| lits_of(c@))
}

/// An assignment as the solver reports it: a sequence of signed literals,
/// one per variable. `m.contains(v)` means variable `v` is true,
/// `m.contains(-v)` that it is false. Consistency: no entry is zero and no
/// two entries negate each other.
pub open spec fn model_consistent(m: Seq<int>) -> bool {
    forall|i: int, j: int| 0 <= i < m.len() && 0 <= j < m.len() ==> #[trigger] m[i] + #[trigger] m[j]
        != 0
}

/// A clause holds under the assignment: some literal of it is reported.
pub open spec fn clause_sat(m: Seq<int>, c: Seq<int>) -> bool {
    exists|k: int| 0 <= k < c.len() && m.contains(#[trigger] c[k])
}

/// Every clause of the formula holds under the assignment.
pub open spec fn all_clauses_sat(m: Seq<int>, cs: Seq<Seq<int>>) -> bool {
    forall|i: int| 0 <= i < cs.len() ==> clause_sat(m, #[trigger] cs[i])
}

/// The formula is satisfiable: some consistent assignment satisfies every
/// clause.
pub open spec fn sat_instance(cs: Seq<Seq<int>>) -> bool {
    exists|mv: Seq<int>| model_consistent(mv) && all_clauses_sat(mv, cs)
}

/// A satisfied clause that is in the list is satisfied on its own.
pub proof fn lemma_sat_member(m: Seq<int>, cs: Seq<Seq<int>>, c: Seq<int>)
    requires
        all_clauses_sat(m, cs),
        cs.contains(c),
    ensures
        clause_sat(m, c),
{
    let i = choose|i: int| 0 <= i < cs.len() && cs[i] == c;
    assert(clause_sat(m, cs[i]));
}

/// Containment survives extension of a sequence.
pub proof fn lemma_prefix_contains<T>(a: Seq<T>, b: Seq<T>)
    requires
        a.len() <= b.len(),
        forall|i: int| 0 <= i < a.len() ==> a[i] == b[i],
    ensures
        forall|e: T| a.contains(e) ==> b.contains(e),
{
    assert forall|e: T| a.contains(e) implies b.contains(e) by {
        let k = choose|k: int| 0 <= k < a.len() && a[k] == e;
        assert(b[k] == e);
    }
}

proof fn lemma_lit_bounds(d: int, x: int, y: int, w: int, h: int, max: int)
    by (nonlinear_arith)
    requires
        0 <= d,
        0 <= x < w,
        0 <= y < h,
        (d + 1) * (w * h + 1) <= max,
    ensures
        0 <= x * h + y < w * h,
        0 <= d * (w * h + 1),
        d * (w * h + 1) + w * h + 1 == (d + 1) * (w * h + 1),
        w * h + 1 <= max,
{
}

pub proof fn lemma_mul_mono(a: int, b: int, c: int)
    by (nonlinear_arith)
    requires
        a <= b,
        0 <= c,
    ensures
        a * c <= b * c,
{
}

/// Append one well-formed clause to the list.
fn push_ok_clause(cl: &mut Vec<Vec<i64>>, c: Vec<i64>)
    requires
        clauses_ok(clauses_of(old(cl)@)),
        clause_ok(lits_of(c@)),
    ensures
        final(cl)@.len() == old(cl)@.len() + 1,
        clauses_of(final(cl)@) == clauses_of(old(cl)@).push(lits_of(c@)),
        forall|i: int| 0 <= i < old(cl)@.len() ==> final(cl)@[i] == old(cl)@[i],
        clauses_ok(clauses_of(final(cl)@)),
{
    let ghost pre = clauses_of(cl@);
    cl.push(c);
    proof {
        assert(clauses_of(cl@) =~= pre.push(lits_of(c@)));
        assert forall|i: int| 0 <= i < clauses_of(cl@).len() implies clause_ok(
            #[trigger] clauses_of(cl@)[i],
        ) by {
            if i < pre.len() {
                assert(clauses_of(cl@)[i] == pre[i]);
                assert(clause_ok(pre[i]));
            } else {
                assert(clauses_of(cl@)[i] == lits_of(c@));
            }
        }
    }
}

/// The occupancy literal of block `d` at `(x, y)`, as the backend takes it.
fn lit_occ(d: usize, x: usize, y: usize, w: usize, h: usize) -> (r: i64)
    requires
        x < w,
        y < h,
        (d + 1) * (w * h + 1) <= MAX_VAR as int,
    ensures
        r as int == occ_lit(d as int, x as int, y as int, w as int, h as int),
        1 <= r as int <= MAX_VAR as int,
{
    proof {
        lemma_lit_bounds(d as int, x as int, y as int, w as int, h as int, MAX_VAR as int);
    }
    (1 + d * (w * h + 1) + x * h + y) as i64
}

/// The placement literal of block `d`, as the backend takes it.
fn lit_place(d: usize, w: usize, h: usize) -> (r: i64)
    requires
        0 < w,
        0 < h,
        (d + 1) * (w * h + 1) <= MAX_VAR as int,
    ensures
        r as int == place_lit(d as int, w as int, h as int),
        1 <= r as int <= MAX_VAR as int,
{
    proof {
        lemma_lit_bounds(d as int, 0, 0, w as int, h as int, MAX_VAR as int);
    }
    (1 + d * (w * h + 1) + w * h) as i64
}
/// Emit one piece's clauses. For each of its placement blocks and every
/// grid cell: on footprint cells, clauses tying the occupancy variable to
/// the placement variable in both directions; on all other cells, a clause
/// forbidding the occupancy variable, so that no assignment can satisfy
/// coverage through an occupancy variable without its placement being
/// selected. Then the "at least one placement" clause and pairwise
/// exclusion of the piece's placements.
pub fn push_piece_clauses(
    cl: &mut Vec<Vec<i64>>,
    blocks: &Vec<Piece>,
    s: usize,
    e: usize,
    w: usize,
    h: usize,
)
    requires
        clauses_ok(clauses_of(old(cl)@)),
        s <= e <= blocks@.len(),
        0 < w,
        0 < h,
        blocks@.len() * (w * h + 1) <= MAX_VAR as int,
    ensures
        clauses_ok(clauses_of(final(cl)@)),
        old(cl)@.len() <= final(cl)@.len(),
        forall|i: int| 0 <= i < old(cl)@.len() ==> final(cl)@[i] == old(cl)@[i],
        forall|i: int|
            old(cl)@.len() <= i < final(cl)@.len() ==> piece_family(
                #[trigger] clauses_of(final(cl)@)[i],
                views_of(blocks@),
                s as int,
                e as int,
                w as int,
                h as int,
            ),
        clauses_of(final(cl)@).contains(piece_clause(s as int, e as int, w as int, h as int)),
        forall|d: int, a: int, b: int|
            s <= d < e && 0 <= a < w && 0 <= b < h ==> #[trigger] cell_done(
                clauses_of(final(cl)@),
                blocks@[d]@,
                d,
                a,
                b,
                w as int,
                h as int,
            ),
        forall|d1: int, d2: int|
            s <= d1 < d2 < e ==> clauses_of(final(cl)@).contains(
                #[trigger] place_excl_clause(d1, d2, w as int, h as int),
            ),
{
    for d in s..e
        invariant
            clauses_ok(clauses_of(cl@)),
            s <= d <= e <= blocks@.len(),
            0 < w,
            0 < h,
            blocks@.len() * (w * h + 1) <= MAX_VAR as int,
            old(cl)@.len() <= cl@.len(),
            forall|i: int| 0 <= i < old(cl)@.len() ==> cl@[i] == old(cl)@[i],
            forall|i: int|
                old(cl)@.len() <= i < cl@.len() ==> piece_family(
                    #[trigger] clauses_of(cl@)[i],
                    views_of(blocks@),
                    s as int,
                    e as int,
                    w as int,
                    h as int,
                ),
            forall|b2: int, a: int, b: int|
                s <= b2 < d && 0 <= a < w && 0 <= b < h ==> #[trigger] cell_done(
                    clauses_of(cl@),
                    blocks@[b2]@,
                    b2,
                    a,
                    b,
                    w as int,
                    h as int,
                ),
    {
        proof {
            lemma_mul_mono(d + 1, blocks@.len() as int, (w * h + 1) as int);
        }
        let lp = lit_place(d, w, h);
        for x in 0..w
            invariant
                clauses_ok(clauses_of(cl@)),
                s <= d < e <= blocks@.len(),
                0 < w,
                0 < h,
                x <= w,
                blocks@.len() * (w * h + 1) <= MAX_VAR as int,
                (d + 1) * (w * h + 1) <= MAX_VAR as int,
                lp as int == place_lit(d as int, w as int, h as int),
                1 <= lp as int <= MAX_VAR as int,
                old(cl)@.len() <= cl@.len(),
                forall|i: int| 0 <= i < old(cl)@.len() ==> cl@[i] == old(cl)@[i],
                forall|i: int|
                    old(cl)@.len() <= i < cl@.len() ==> piece_family(
                        #[trigger] clauses_of(cl@)[i],
                        views_of(blocks@),
                        s as int,
                        e as int,
                        w as int,
                        h as int,
                    ),
                forall|b2: int, a: int, b: int|
                    s <= b2 < d && 0 <= a < w && 0 <= b < h ==> #[trigger] cell_done(
                        clauses_of(cl@),
                        blocks@[b2]@,
                        b2,
                        a,
                        b,
                        w as int,
                        h as int,
                    ),
                forall|a: int, b: int|
                    0 <= a < x && 0 <= b < h ==> #[trigger] cell_done(
                        clauses_of(cl@),
                        blocks@[d as int]@,
                        d as int,
                        a,
                        b,
                        w as int,
                        h as int,
                    ),
        {
            for y in 0..h
                invariant
                    clauses_ok(clauses_of(cl@)),
                    s <= d < e <= blocks@.len(),
                    0 < w,
                    0 < h,
                    x < w,
                    y <= h,
                    blocks@.len() * (w * h + 1) <= MAX_VAR as int,
                    (d + 1) * (w * h + 1) <= MAX_VAR as int,
                    lp as int == place_lit(d as int, w as int, h as int),
                    1 <= lp as int <= MAX_VAR as int,
                    old(cl)@.len() <= cl@.len(),
                    forall|i: int| 0 <= i < old(cl)@.len() ==> cl@[i] == old(cl)@[i],
                    forall|i: int|
                        old(cl)@.len() <= i < cl@.len() ==> piece_family(
                            #[trigger] clauses_of(cl@)[i],
                            views_of(blocks@),
                            s as int,
                            e as int,
                            w as int,
                            h as int,
                        ),
                    forall|b2: int, a: int, b: int|
                        s <= b2 < d && 0 <= a < w && 0 <= b < h ==> #[trigger] cell_done(
                            clauses_of(cl@),
                            blocks@[b2]@,
                            b2,
                            a,
                            b,
                            w as int,
                            h as int,
                        ),
                    forall|a: int, b: int|
                        0 <= a < x && 0 <= b < h ==> #[trigger] cell_done(
                            clauses_of(cl@),
                            blocks@[d as int]@,
                            d as int,
                            a,
                            b,
                            w as int,
                            h as int,
                        ),
                    forall|b: int|
                        0 <= b < y ==> #[trigger] cell_done(
                            clauses_of(cl@),
                            blocks@[d as int]@,
                            d as int,
                            x as int,
                            b,
                            w as int,
                            h as int,
                        ),
            {
                let ghost pre0 = clauses_of(cl@);
                let lo = lit_occ(d, x, y, w, h);
                let inside = blocks[d].contains_cell(x, y);
                if inside {
                    let mut c1: Vec<i64> = Vec::new();
                    c1.push(-lp);
                    c1.push(lo);
                    proof {
                        assert(lits_of(c1@) =~= impl_clause(d as int, x as int, y as int,
                        w as int, h as int));
                    }
                    push_ok_clause(cl, c1);
                    let mut c2: Vec<i64> = Vec::new();
                    c2.push(lp);
                    c2.push(-lo);
                    proof {
                        assert(lits_of(c2@) =~= occ_sel_clause(d as int, x as int, y as int,
                        w as int, h as int));
                    }
                    push_ok_clause(cl, c2);
                } else {
                    let mut c3: Vec<i64> = Vec::new();
                    c3.push(-lo);
                    proof {
                        assert(lits_of(c3@) =~= no_occ_clause(d as int, x as int, y as int,
                        w as int, h as int));
                    }
                    push_ok_clause(cl, c3);
                }
                proof {
                    let cur = clauses_of(cl@);
                    lemma_prefix_contains(pre0, cur);
                    if inside {
                        assert(cur.contains(
                            impl_clause(d as int, x as int, y as int, w as int, h as int),
                        ));
                        assert(cur.contains(
                            occ_sel_clause(d as int, x as int, y as int, w as int, h as int),
                        ));
                    } else {
                        assert(cur.contains(
                            no_occ_clause(d as int, x as int, y as int, w as int, h as int),
                        ));
                    }
                    assert(cell_done(cur, blocks@[d as int]@, d as int, x as int, y as int,
                    w as int, h as int));
                    assert forall|b2: int, a: int, b: int|
                        s <= b2 < d && 0 <= a < w && 0 <= b < h implies cell_done(
                        cur,
                        blocks@[b2]@,
                        b2,
                        a,
                        b,
                        w as int,
                        h as int,
                    ) by {
                        assert(cell_done(pre0, blocks@[b2]@, b2, a, b, w as int, h as int));
                    }
                    assert forall|a: int, b: int| 0 <= a < x && 0 <= b < h implies cell_done(
                        cur,
                        blocks@[d as int]@,
                        d as int,
                        a,
                        b,
                        w as int,
                        h as int,
                    ) by {
                        assert(cell_done(pre0, blocks@[d as int]@, d as int, a, b, w as int,
                        h as int));
                    }
                    assert forall|b: int| 0 <= b < y implies cell_done(
                        cur,
                        blocks@[d as int]@,
                        d as int,
                        x as int,
                        b,
                        w as int,
                        h as int,
                    ) by {
                        assert(cell_done(pre0, blocks@[d as int]@, d as int, x as int, b,
                        w as int, h as int));
                    }
                    assert(views_of(blocks@)[d as int] == blocks@[d as int]@);
                    assert forall|i: int|
                        old(cl)@.len() <= i < cur.len() implies piece_family(
                        #[trigger] cur[i],
                        views_of(blocks@),
                        s as int,
                        e as int,
                        w as int,
                        h as int,
                    ) by {
                        if i < pre0.len() {
                            assert(cur[i] == pre0[i]);
                            assert(piece_family(pre0[i], views_of(blocks@), s as int, e as int,
                            w as int, h as int));
                        } else if inside {
                            if i == pre0.len() {
                                assert(cur[i] == impl_clause(d as int, x as int, y as int,
                                w as int, h as int));
                            } else {
                                assert(cur[i] == occ_sel_clause(d as int, x as int, y as int,
                                w as int, h as int));
                            }
                        } else {
                            assert(cur[i] == no_occ_clause(d as int, x as int, y as int, w as int,
                            h as int));
                        }
                    }
                }
            }
        }
    }
    // the "at least one placement" clause
    let mut alo: Vec<i64> = Vec::new();
    for d in s..e
        invariant
            s <= e <= blocks@.len(),
            0 < w,
            0 < h,
            blocks@.len() * (w * h + 1) <= MAX_VAR as int,
            alo@.len() == d - s,
            forall|k: int|
                0 <= k < alo@.len() ==> lits_of(alo@)[k] == place_lit(s + k, w as int, h as int)
                    && 1 <= #[trigger] alo@[k] as int <= MAX_VAR as int,
    {
        proof {
            lemma_mul_mono(d + 1, blocks@.len() as int, (w * h + 1) as int);
        }
        let lp = lit_place(d, w, h);
        alo.push(lp);
    }
    proof {
        assert(lits_of(alo@) =~= piece_clause(s as int, e as int, w as int, h as int));
        assert(clause_ok(lits_of(alo@)));
    }
    let ghost pre_alo = clauses_of(cl@);
    push_ok_clause(cl, alo);
    proof {
        let cur = clauses_of(cl@);
        lemma_prefix_contains(pre_alo, cur);
        assert forall|b2: int, a: int, b: int|
            s <= b2 < e && 0 <= a < w && 0 <= b < h implies cell_done(
            cur,
            blocks@[b2]@,
            b2,
            a,
            b,
            w as int,
            h as int,
        ) by {
            assert(cell_done(pre_alo, blocks@[b2]@, b2, a, b, w as int, h as int));
        }
        assert forall|i: int|
            old(cl)@.len() <= i < cur.len() implies piece_family(
            #[trigger] cur[i],
            views_of(blocks@),
            s as int,
            e as int,
            w as int,
            h as int,
        ) by {
            if i < pre_alo.len() {
                assert(cur[i] == pre_alo[i]);
                assert(piece_family(pre_alo[i], views_of(blocks@), s as int, e as int, w as int,
                h as int));
            } else {
                assert(cur[i] == piece_clause(s as int, e as int, w as int, h as int));
            }
        }
    }
    // pairwise exclusion of this piece's placements
    for d1 in s..e
        invariant
            s <= d1 <= e <= blocks@.len(),
            0 < w,
            0 < h,
            blocks@.len() * (w * h + 1) <= MAX_VAR as int,
            clauses_ok(clauses_of(cl@)),
            old(cl)@.len() <= cl@.len(),
            forall|i: int| 0 <= i < old(cl)@.len() ==> cl@[i] == old(cl)@[i],
            forall|i: int|
                old(cl)@.len() <= i < cl@.len() ==> piece_family(
                    #[trigger] clauses_of(cl@)[i],
                    views_of(blocks@),
                    s as int,
                    e as int,
                    w as int,
                    h as int,
                ),
            clauses_of(cl@).contains(piece_clause(s as int, e as int, w as int, h as int)),
            forall|b2: int, a: int, b: int|
                s <= b2 < e && 0 <= a < w && 0 <= b < h ==> #[trigger] cell_done(
                    clauses_of(cl@),
                    blocks@[b2]@,
                    b2,
                    a,
                    b,
                    w as int,
                    h as int,
                ),
            forall|a: int, b: int|
                s <= a < b < e && a < d1 ==> clauses_of(cl@).contains(
                    #[trigger] place_excl_clause(a, b, w as int, h as int),
                ),
    {
        proof {
            lemma_mul_mono(d1 + 1, blocks@.len() as int, (w * h + 1) as int);
        }
        let l1 = lit_place(d1, w, h);
        for d2 in (d1 + 1)..e
            invariant
                s <= d1,
                d1 < e,
                e <= blocks@.len(),
                d1 + 1 <= d2 <= e,
                0 < w,
                0 < h,
                blocks@.len() * (w * h + 1) <= MAX_VAR as int,
                (d1 + 1) * (w * h + 1) <= MAX_VAR as int,
                l1 as int == place_lit(d1 as int, w as int, h as int),
                1 <= l1 as int <= MAX_VAR as int,
                clauses_ok(clauses_of(cl@)),
                old(cl)@.len() <= cl@.len(),
                forall|i: int| 0 <= i < old(cl)@.len() ==> cl@[i] == old(cl)@[i],
                forall|i: int|
                    old(cl)@.len() <= i < cl@.len() ==> piece_family(
                        #[trigger] clauses_of(cl@)[i],
                        views_of(blocks@),
                        s as int,
                        e as int,
                        w as int,
                        h as int,
                    ),
                clauses_of(cl@).contains(piece_clause(s as int, e as int, w as int, h as int)),
                forall|b2: int, a: int, b: int|
                    s <= b2 < e && 0 <= a < w && 0 <= b < h ==> #[trigger] cell_done(
                        clauses_of(cl@),
                        blocks@[b2]@,
                        b2,
                        a,
                        b,
                        w as int,
                        h as int,
                    ),
                forall|a: int, b: int|
                    s <= a < b < e && (a < d1 || (a == d1 && b < d2)) ==> clauses_of(cl@).contains(
                        #[trigger] place_excl_clause(a, b, w as int, h as int),
                    ),
        {
            proof {
                lemma_mul_mono(d2 + 1, blocks@.len() as int, (w * h + 1) as int);
            }
            let l2 = lit_place(d2, w, h);
            let mut cla: Vec<i64> = Vec::new();
            cla.push(-l1);
            cla.push(-l2);
            proof {
                assert(lits_of(cla@) =~= place_excl_clause(d1 as int, d2 as int, w as int,
                h as int));
            }
            let ghost pre_pair = clauses_of(cl@);
            push_ok_clause(cl, cla);
            proof {
                let cur = clauses_of(cl@);
                lemma_prefix_contains(pre_pair, cur);
                assert forall|b2: int, a: int, b: int|
                    s <= b2 < e && 0 <= a < w && 0 <= b < h implies cell_done(
                    cur,
                    blocks@[b2]@,
                    b2,
                    a,
                    b,
                    w as int,
                    h as int,
                ) by {
                    assert(cell_done(pre_pair, blocks@[b2]@, b2, a, b, w as int, h as int));
                }
                assert forall|i: int|
                    old(cl)@.len() <= i < cur.len() implies piece_family(
                    #[trigger] cur[i],
                    views_of(blocks@),
                    s as int,
                    e as int,
                    w as int,
                    h as int,
                ) by {
                    if i < pre_pair.len() {
                        assert(cur[i] == pre_pair[i]);
                        assert(piece_family(pre_pair[i], views_of(blocks@), s as int, e as int,
                        w as int, h as int));
                    } else {
                        assert(cur[i] == place_excl_clause(d1 as int, d2 as int, w as int,
                        h as int));
                    }
                }
            }
        }
    }
}
/// Emit the cell constraints: for every mask-true cell, one clause asking
/// that some block occupy it, and pairwise exclusion over all blocks.
pub fn push_cover_clauses(cl: &mut Vec<Vec<i64>>, grid_mask: &Vec<Vec<bool>>, nblocks: usize)
    requires
        clauses_ok(clauses_of(old(cl)@)),
        mask_wf(grid_mask.deep_view()),
        nblocks * (grid_mask.deep_view()[0].len() * grid_mask.deep_view().len() + 1)
            <= MAX_VAR as int,
    ensures
        clauses_ok(clauses_of(final(cl)@)),
        old(cl)@.len() <= final(cl)@.len(),
        forall|i: int| 0 <= i < old(cl)@.len() ==> final(cl)@[i] == old(cl)@[i],
        forall|i: int|
            old(cl)@.len() <= i < final(cl)@.len() ==> cover_family(
                #[trigger] clauses_of(final(cl)@)[i],
                grid_mask.deep_view(),
                grid_mask.deep_view()[0].len() as int,
                grid_mask.deep_view().len() as int,
                nblocks as int,
            ),
        forall|x: int, y: int|
            0 <= y < grid_mask.deep_view().len() && 0 <= x < grid_mask.deep_view()[0].len()
                && grid_mask.deep_view()[y][x] ==> clauses_of(final(cl)@).contains(
                cover_clause(
                    x,
                    y,
                    grid_mask.deep_view()[0].len() as int,
                    grid_mask.deep_view().len() as int,
                    nblocks as int,
                ),
            ),
        forall|d1: int, d2: int, x: int, y: int|
            0 <= d1 < d2 < nblocks && 0 <= y < grid_mask.deep_view().len() && 0 <= x
                < grid_mask.deep_view()[0].len() && grid_mask.deep_view()[y][x] ==> clauses_of(
                final(cl)@,
            ).contains(
                #[trigger] excl_clause(
                    d1,
                    d2,
                    x,
                    y,
                    grid_mask.deep_view()[0].len() as int,
                    grid_mask.deep_view().len() as int,
                ),
            ),
{
    let ghost m = grid_mask.deep_view();
    let h = grid_mask.len();
    let w = grid_mask[0].len();
    proof {
        assert(m[0] =~= grid_mask@[0]@);
        assert(m.len() == grid_mask@.len());
    }
    for x in 0..w
        invariant
            m == grid_mask.deep_view(),
            mask_wf(m),
            h == m.len(),
            w == m[0].len(),
            x <= w,
            nblocks * ((w * h + 1) as int) <= MAX_VAR as int,
            clauses_ok(clauses_of(cl@)),
            old(cl)@.len() <= cl@.len(),
            forall|i: int| 0 <= i < old(cl)@.len() ==> cl@[i] == old(cl)@[i],
            forall|i: int|
                old(cl)@.len() <= i < cl@.len() ==> cover_family(
                    #[trigger] clauses_of(cl@)[i],
                    m,
                    w as int,
                    h as int,
                    nblocks as int,
                ),
            forall|a: int, b: int|
                0 <= a < x && 0 <= b < h && m[b][a] ==> clauses_of(cl@).contains(
                    cover_clause(a, b, w as int, h as int, nblocks as int),
                ),
            forall|d1: int, d2: int, a: int, b: int|
                0 <= d1 < d2 < nblocks && 0 <= a < x && 0 <= b < h && m[b][a] ==> clauses_of(
                    cl@,
                ).contains(#[trigger] excl_clause(d1, d2, a, b, w as int, h as int)),
    {
        for y in 0..h
            invariant
                m == grid_mask.deep_view(),
                mask_wf(m),
                h == m.len(),
                w == m[0].len(),
                x < w,
                y <= h,
                nblocks * ((w * h + 1) as int) <= MAX_VAR as int,
                clauses_ok(clauses_of(cl@)),
                old(cl)@.len() <= cl@.len(),
                forall|i: int| 0 <= i < old(cl)@.len() ==> cl@[i] == old(cl)@[i],
                forall|i: int|
                    old(cl)@.len() <= i < cl@.len() ==> cover_family(
                        #[trigger] clauses_of(cl@)[i],
                        m,
                        w as int,
                        h as int,
                        nblocks as int,
                    ),
                forall|a: int, b: int|
                    0 <= a < x && 0 <= b < h && m[b][a] ==> clauses_of(cl@).contains(
                        cover_clause(a, b, w as int, h as int, nblocks as int),
                    ),
                forall|b: int|
                    0 <= b < y && m[b][x as int] ==> clauses_of(cl@).contains(
                        cover_clause(x as int, b, w as int, h as int, nblocks as int),
                    ),
                forall|d1: int, d2: int, a: int, b: int|
                    0 <= d1 < d2 < nblocks && 0 <= a < x && 0 <= b < h && m[b][a] ==> clauses_of(
                        cl@,
                    ).contains(#[trigger] excl_clause(d1, d2, a, b, w as int, h as int)),
                forall|d1: int, d2: int, b: int|
                    0 <= d1 < d2 < nblocks && 0 <= b < y && m[b][x as int] ==> clauses_of(
                        cl@,
                    ).contains(#[trigger] excl_clause(d1, d2, x as int, b, w as int, h as int)),
        {
            proof {
                assert(grid_mask@[y as int]@ =~= m[y as int]);
                assert(m[y as int].len() == w);
            }
            if grid_mask[y][x] {
                let mut cov: Vec<i64> = Vec::new();
                for d in 0..nblocks
                    invariant
                        x < w,
                        y < h,
                        nblocks * ((w * h + 1) as int) <= MAX_VAR as int,
                        cov@.len() == d,
                        forall|k: int|
                            0 <= k < d ==> lits_of(cov@)[k] == occ_lit(k, x as int, y as int,
                            w as int, h as int) && 1 <= #[trigger] cov@[k] as int
                                <= MAX_VAR as int,
                {
                    proof {
                        lemma_mul_mono(d + 1, nblocks as int, (w * h + 1) as int);
                    }
                    let lo = lit_occ(d, x, y, w, h);
                    cov.push(lo);
                }
                proof {
                    assert(lits_of(cov@) =~= cover_clause(x as int, y as int, w as int, h as int,
                    nblocks as int));
                    assert(clause_ok(lits_of(cov@)));
                }
                let ghost pre_cov = clauses_of(cl@);
                push_ok_clause(cl, cov);
                proof {
                    let cur = clauses_of(cl@);
                    assert forall|i: int|
                        old(cl)@.len() <= i < cur.len() implies cover_family(
                        #[trigger] cur[i],
                        m,
                        w as int,
                        h as int,
                        nblocks as int,
                    ) by {
                        if i < pre_cov.len() {
                            assert(cur[i] == pre_cov[i]);
                            assert(cover_family(pre_cov[i], m, w as int, h as int,
                            nblocks as int));
                        } else {
                            assert(cur[i] == cover_clause(x as int, y as int, w as int, h as int,
                            nblocks as int));
                            assert(m[y as int][x as int]);
                        }
                    }
                }
                for d1 in 0..nblocks
                    invariant
                        m == grid_mask.deep_view(),
                        mask_wf(m),
                        h == m.len(),
                        w == m[0].len(),
                        x < w,
                        y < h,
                        d1 <= nblocks,
                        m[y as int][x as int],
                        nblocks * ((w * h + 1) as int) <= MAX_VAR as int,
                        clauses_ok(clauses_of(cl@)),
                        old(cl)@.len() <= cl@.len(),
                        forall|i: int| 0 <= i < old(cl)@.len() ==> cl@[i] == old(cl)@[i],
                        forall|i: int|
                            old(cl)@.len() <= i < cl@.len() ==> cover_family(
                                #[trigger] clauses_of(cl@)[i],
                                m,
                                w as int,
                                h as int,
                                nblocks as int,
                            ),
                        forall|a: int, b: int|
                            0 <= a < x && 0 <= b < h && m[b][a] ==> clauses_of(cl@).contains(
                                cover_clause(a, b, w as int, h as int, nblocks as int),
                            ),
                        forall|b: int|
                            0 <= b <= y && m[b][x as int] ==> clauses_of(cl@).contains(
                                cover_clause(x as int, b, w as int, h as int, nblocks as int),
                            ),
                        forall|a1: int, a2: int, a: int, b: int|
                            0 <= a1 < a2 < nblocks && 0 <= a < x && 0 <= b < h && m[b][a]
                                ==> clauses_of(cl@).contains(
                                #[trigger] excl_clause(a1, a2, a, b, w as int, h as int),
                            ),
                        forall|a1: int, a2: int, b: int|
                            0 <= a1 < a2 < nblocks && 0 <= b < y && m[b][x as int] ==> clauses_of(
                                cl@,
                            ).contains(
                                #[trigger] excl_clause(a1, a2, x as int, b, w as int, h as int),
                            ),
                        forall|a1: int, a2: int|
                            0 <= a1 < a2 < nblocks && a1 < d1 ==> clauses_of(cl@).contains(
                                #[trigger] excl_clause(a1, a2, x as int, y as int, w as int,
                                h as int),
                            ),
                {
                    proof {
                        lemma_mul_mono(d1 + 1, nblocks as int, (w * h + 1) as int);
                    }
                    let l1 = lit_occ(d1, x, y, w, h);
                    for d2 in (d1 + 1)..nblocks
                        invariant
                            m == grid_mask.deep_view(),
                            mask_wf(m),
                            h == m.len(),
                            w == m[0].len(),
                            x < w,
                            y < h,
                            d1 < nblocks,
                            d1 + 1 <= d2 <= nblocks,
                            m[y as int][x as int],
                            nblocks * ((w * h + 1) as int) <= MAX_VAR as int,
                            (d1 + 1) * ((w * h + 1) as int) <= MAX_VAR as int,
                            l1 as int == occ_lit(d1 as int, x as int, y as int, w as int,
                            h as int),
                            1 <= l1 as int <= MAX_VAR as int,
                            clauses_ok(clauses_of(cl@)),
                            old(cl)@.len() <= cl@.len(),
                            forall|i: int| 0 <= i < old(cl)@.len() ==> cl@[i] == old(cl)@[i],
                            forall|i: int|
                                old(cl)@.len() <= i < cl@.len() ==> cover_family(
                                    #[trigger] clauses_of(cl@)[i],
                                    m,
                                    w as int,
                                    h as int,
                                    nblocks as int,
                                ),
                            forall|a: int, b: int|
                                0 <= a < x && 0 <= b < h && m[b][a] ==> clauses_of(cl@).contains(
                                    cover_clause(a, b, w as int, h as int, nblocks as int),
                                ),
                            forall|b: int|
                                0 <= b <= y && m[b][x as int] ==> clauses_of(cl@).contains(
                                    cover_clause(x as int, b, w as int, h as int, nblocks as int),
                                ),
                            forall|a1: int, a2: int, a: int, b: int|
                                0 <= a1 < a2 < nblocks && 0 <= a < x && 0 <= b < h && m[b][a]
                                    ==> clauses_of(cl@).contains(
                                    #[trigger] excl_clause(a1, a2, a, b, w as int, h as int),
                                ),
                            forall|a1: int, a2: int, b: int|
                                0 <= a1 < a2 < nblocks && 0 <= b < y && m[b][x as int]
                                    ==> clauses_of(cl@).contains(
                                    #[trigger] excl_clause(a1, a2, x as int, b, w as int,
                                    h as int),
                                ),
                            forall|a1: int, a2: int|
                                0 <= a1 < a2 < nblocks && (a1 < d1 || (a1 == d1 && a2 < d2))
                                    ==> clauses_of(cl@).contains(
                                    #[trigger] excl_clause(a1, a2, x as int, y as int, w as int,
                                    h as int),
                                ),
                    {
                        proof {
                            lemma_mul_mono(d2 + 1, nblocks as int, (w * h + 1) as int);
                        }
                        let l2 = lit_occ(d2, x, y, w, h);
                        let mut cla: Vec<i64> = Vec::new();
                        cla.push(-l1);
                        cla.push(-l2);
                        proof {
                            assert(lits_of(cla@) =~= excl_clause(d1 as int, d2 as int, x as int,
                            y as int, w as int, h as int));
                        }
                        let ghost pre_pair = clauses_of(cl@);
                        push_ok_clause(cl, cla);
                        proof {
                            let cur = clauses_of(cl@);
                            assert forall|i: int|
                                old(cl)@.len() <= i < cur.len() implies cover_family(
                                #[trigger] cur[i],
                                m,
                                w as int,
                                h as int,
                                nblocks as int,
                            ) by {
                                if i < pre_pair.len() {
                                    assert(cur[i] == pre_pair[i]);
                                    assert(cover_family(pre_pair[i], m, w as int, h as int,
                                    nblocks as int));
                                } else {
                                    assert(cur[i] == excl_clause(d1 as int, d2 as int, x as int,
                                    y as int, w as int, h as int));
                                    assert(m[y as int][x as int]);
                                }
                            }
                        }
                    }
                }
            }
        }
    }
}

/// Decide whether the solver's assignment reports a literal.
fn model_contains(model: &Vec<i64>, l: i64) -> (r: bool)
    ensures
        r == lits_of(model@).contains(l as int),
{
    let n = model.len();
    for i in 0..n
        invariant
            n == model@.len(),
            forall|k: int| 0 <= k < i ==> model@[k] != l,
    {
        if model[i] == l {
            proof {
                assert(lits_of(model@)[i as int] == l as int);
            }
            return true;
        }
    }
    proof {
        if lits_of(model@).contains(l as int) {
            let k = choose|k: int| 0 <= k < lits_of(model@).len() && lits_of(model@)[k]
                == l as int;
            assert(model@[k] == l);
        }
    }
    false
}

/// The cell lists of a list of cell vectors.
pub open spec fn sets_view(v: Seq<Vec<Cell>>) -> Seq<Seq<Cell>> {
    v.map_values(|p: Vec<Cell>| p@)
}

/// What a correct tiling looks like: every returned cell is a mask-true
/// cell in bounds, every mask-true cell is returned by some piece, no cell
/// is returned twice (neither across pieces nor within one).
pub open spec fn tiling_valid(sets: Seq<Seq<Cell>>, m: Seq<Seq<bool>>) -> bool {
    &&& (forall|i: int, k: int|
        0 <= i < sets.len() && 0 <= k < sets[i].len() ==> {
            let c = #[trigger] sets[i][k];
            &&& (c.1 as int) < m.len()
            &&& (c.0 as int) < m[c.1 as int].len()
            &&& m[c.1 as int][c.0 as int]
        })
    &&& (forall|x: int, y: int|
        0 <= y < m.len() && 0 <= x < m[y].len() && #[trigger] m[y][x] ==> exists|i: int|
            0 <= i < sets.len() && (#[trigger] sets[i]).contains(((x as usize, y as usize))))
    &&& (forall|i: int, j: int, k: int, l: int|
        #![trigger sets[i][k], sets[j][l]]
        0 <= i < j < sets.len() && 0 <= k < sets[i].len() && 0 <= l < sets[j].len() ==> sets[i][k]
            != sets[j][l])
    &&& (forall|i: int, k: int, l: int|
        #![trigger sets[i][k], sets[i][l]]
        0 <= i < sets.len() && 0 <= k < l < sets[i].len() ==> sets[i][k] != sets[i][l])
}

/// Read a satisfying assignment back into one cell set per placement block
/// that covers at least one cell, in block order. The clauses the
/// assignment is known to satisfy make the result a partition of the
/// mask-true cells.
pub fn decode_model(model: &Vec<i64>, nblocks: usize, grid_mask: &Vec<Vec<bool>>) -> (r: Vec<
    Vec<Cell>,
>)
    requires
        mask_wf(grid_mask.deep_view()),
        nblocks * (grid_mask.deep_view()[0].len() * grid_mask.deep_view().len() + 1)
            <= MAX_VAR as int,
        model_consistent(lits_of(model@)),
        forall|x: int, y: int|
            0 <= y < grid_mask.deep_view().len() && 0 <= x < grid_mask.deep_view()[0].len()
                && grid_mask.deep_view()[y][x] ==> clause_sat(
                lits_of(model@),
                cover_clause(
                    x,
                    y,
                    grid_mask.deep_view()[0].len() as int,
                    grid_mask.deep_view().len() as int,
                    nblocks as int,
                ),
            ),
        forall|d1: int, d2: int, x: int, y: int|
            0 <= d1 < d2 < nblocks && 0 <= y < grid_mask.deep_view().len() && 0 <= x
                < grid_mask.deep_view()[0].len() && grid_mask.deep_view()[y][x] ==> clause_sat(
                lits_of(model@),
                #[trigger] excl_clause(
                    d1,
                    d2,
                    x,
                    y,
                    grid_mask.deep_view()[0].len() as int,
                    grid_mask.deep_view().len() as int,
                ),
            ),
    ensures
        tiling_valid(sets_view(r@), grid_mask.deep_view()),
{
    let ghost m = grid_mask.deep_view();
    let ghost mv = lits_of(model@);
    let h = grid_mask.len();
    let w = grid_mask[0].len();
    proof {
        assert(m[0] =~= grid_mask@[0]@);
        assert(m.len() == grid_mask@.len());
    }
    let mut out: Vec<Vec<Cell>> = Vec::new();
    let ghost mut gidx: Seq<int> = Seq::empty();
    for d in 0..nblocks
        invariant
            m == grid_mask.deep_view(),
            mask_wf(m),
            h == m.len(),
            w == m[0].len(),
            mv == lits_of(model@),
            nblocks * ((w * h + 1) as int) <= MAX_VAR as int,
            gidx.len() == out@.len(),
            forall|t: int| 0 <= t < gidx.len() ==> 0 <= #[trigger] gidx[t] < d,
            forall|t1: int, t2: int| 0 <= t1 < t2 < gidx.len() ==> gidx[t1] < gidx[t2],
            forall|t: int, k: int|
                0 <= t < out@.len() && 0 <= k < out@[t]@.len() ==> {
                    let c = #[trigger] out@[t]@[k];
                    &&& (c.1 as int) < m.len()
                    &&& (c.0 as int) < m[c.1 as int].len()
                    &&& m[c.1 as int][c.0 as int]
                    &&& mv.contains(occ_lit(gidx[t], c.0 as int, c.1 as int, w as int, h as int))
                },
            forall|t: int| 0 <= t < out@.len() ==> sorted_strict((#[trigger] out@[t])@),
            forall|t: int| 0 <= t < out@.len() ==> (#[trigger] out@[t])@.len() > 0,
            forall|b: int, a: int, c: int|
                0 <= b < d && 0 <= c < h && 0 <= a < w && m[c][a] && mv.contains(
                    #[trigger] occ_lit(b, a, c, w as int, h as int),
                ) ==> exists|t: int|
                    0 <= t < out@.len() && gidx[t] == b && (#[trigger] out@[t])@.contains(
                        ((a as usize, c as usize)),
                    ),
    {
        proof {
            lemma_mul_mono(d + 1, nblocks as int, (w * h + 1) as int);
        }
        let mut pp: Vec<Cell> = Vec::new();
        for x in 0..w
            invariant
                m == grid_mask.deep_view(),
                mask_wf(m),
                h == m.len(),
                w == m[0].len(),
                mv == lits_of(model@),
                x <= w,
                d < nblocks,
                (d + 1) * ((w * h + 1) as int) <= MAX_VAR as int,
                sorted_strict(pp@),
                forall|k: int| 0 <= k < pp@.len() ==> cell_lt(#[trigger] pp@[k], (x as usize, 0)),
                forall|k: int|
                    0 <= k < pp@.len() ==> {
                        let c = #[trigger] pp@[k];
                        &&& (c.1 as int) < m.len()
                        &&& (c.0 as int) < m[c.1 as int].len()
                        &&& m[c.1 as int][c.0 as int]
                        &&& mv.contains(occ_lit(d as int, c.0 as int, c.1 as int, w as int,
                        h as int))
                    },
                forall|a: int, c: int|
                    0 <= a < x && 0 <= c < h && m[c][a] && mv.contains(
                        #[trigger] occ_lit(d as int, a, c, w as int, h as int),
                    ) ==> pp@.contains(((a as usize, c as usize))),
        {
            for y in 0..h
                invariant
                    m == grid_mask.deep_view(),
                    mask_wf(m),
                    h == m.len(),
                    w == m[0].len(),
                    mv == lits_of(model@),
                    x < w,
                    y <= h,
                    d < nblocks,
                    (d + 1) * ((w * h + 1) as int) <= MAX_VAR as int,
                    sorted_strict(pp@),
                    forall|k: int|
                        0 <= k < pp@.len() ==> cell_lt(#[trigger] pp@[k], (x as usize, y as usize)),
                    forall|k: int|
                        0 <= k < pp@.len() ==> {
                            let c = #[trigger] pp@[k];
                            &&& (c.1 as int) < m.len()
                            &&& (c.0 as int) < m[c.1 as int].len()
                            &&& m[c.1 as int][c.0 as int]
                            &&& mv.contains(occ_lit(d as int, c.0 as int, c.1 as int, w as int,
                            h as int))
                        },
                    forall|a: int, c: int|
                        0 <= a < x && 0 <= c < h && m[c][a] && mv.contains(
                            #[trigger] occ_lit(d as int, a, c, w as int, h as int),
                        ) ==> pp@.contains(((a as usize, c as usize))),
                    forall|c: int|
                        0 <= c < y && m[c][x as int] && mv.contains(
                            #[trigger] occ_lit(d as int, x as int, c, w as int, h as int),
                        ) ==> pp@.contains(((x as usize, c as usize))),
            {
                proof {
                    assert(grid_mask@[y as int]@ =~= m[y as int]);
                    assert(m[y as int].len() == w);
                }
                if grid_mask[y][x] {
                    let lo = lit_occ(d, x, y, w, h);
                    if model_contains(model, lo) {
                        let ghost pre = pp@;
                        pp.push((x, y));
                        proof {
                            assert(pp@ == pre.push((x as usize, y as usize)));
                            assert forall|p: int, q: int|
                                0 <= p < q < pp@.len() implies cell_lt(pp@[p], pp@[q]) by {
                                if q == pp@.len() - 1 {
                                    assert(cell_lt(pre[p], (x as usize, y as usize)));
                                }
                            }
                            assert(pp@.contains(((x as usize, y as usize))));
                        }
                    }
                }
            }
        }
        let ghost preout = out@;
        let ghost pregidx = gidx;
        if pp.len() > 0 {
            out.push(pp);
            proof {
                gidx = gidx.push(d as int);
            }
        }
        proof {
            assert forall|b: int, a: int, c: int|
                0 <= b < d + 1 && 0 <= c < h && 0 <= a < w && m[c][a] && mv.contains(
                    #[trigger] occ_lit(b, a, c, w as int, h as int),
                ) implies exists|t: int|
                0 <= t < out@.len() && gidx[t] == b && (#[trigger] out@[t])@.contains(
                    ((a as usize, c as usize)),
                ) by {
                if b < d {
                    let t = choose|t: int|
                        0 <= t < preout.len() && pregidx[t] == b && (#[trigger] preout[t])@.contains(
                            ((a as usize, c as usize)),
                        );
                    assert(out@[t] == preout[t]);
                    assert(gidx[t] == pregidx[t]);
                } else {
                    assert(pp@.contains(((a as usize, c as usize))));
                    assert(pp@.len() > 0);
                    let t = out@.len() - 1;
                    assert(out@[t] == pp);
                    assert(gidx[t] == d);
                }
            }
        }
    }
    proof {
        let sets = sets_view(out@);
        assert forall|x: int, y: int|
            0 <= y < m.len() && 0 <= x < m[y].len() && #[trigger] m[y][x] implies exists|i: int|
            0 <= i < sets.len() && (#[trigger] sets[i]).contains(((x as usize, y as usize))) by {
            assert(clause_sat(mv, cover_clause(x, y, w as int, h as int, nblocks as int)));
            let k = choose|k: int|
                0 <= k < cover_clause(x, y, w as int, h as int, nblocks as int).len()
                    && mv.contains(
                    #[trigger] cover_clause(x, y, w as int, h as int, nblocks as int)[k],
                );
            assert(cover_clause(x, y, w as int, h as int, nblocks as int)[k] == occ_lit(
                k,
                x,
                y,
                w as int,
                h as int,
            ));
            let t = choose|t: int|
                0 <= t < out@.len() && gidx[t] == k && (#[trigger] out@[t])@.contains(
                    ((x as usize, y as usize)),
                );
            assert(sets[t] == out@[t]@);
        }
        assert forall|i: int, j: int, k: int, l: int|
            #![trigger sets[i][k], sets[j][l]]
            0 <= i < j < sets.len() && 0 <= k < sets[i].len() && 0 <= l
                < sets[j].len() implies sets[i][k] != sets[j][l] by {
            if sets[i][k] == sets[j][l] {
                let c = sets[i][k];
                let g1 = gidx[i];
                let g2 = gidx[j];
                assert(c == out@[i]@[k]);
                assert(c == out@[j]@[l]);
                assert(mv.contains(occ_lit(g1, c.0 as int, c.1 as int, w as int, h as int)));
                assert(mv.contains(occ_lit(g2, c.0 as int, c.1 as int, w as int, h as int)));
                assert(0 <= g1 < g2 < nblocks);
                assert((c.1 as int) < m.len() && (c.0 as int) < m[c.1 as int].len()
                    && m[c.1 as int][c.0 as int]);
                assert(m[c.1 as int].len() == m[0].len());
                let ec = excl_clause(g1, g2, c.0 as int, c.1 as int, w as int, h as int);
                assert(clause_sat(mv, ec));
                let kk = choose|kk: int| 0 <= kk < ec.len() && mv.contains(#[trigger] ec[kk]);
                if kk == 0 {
                    let p = choose|p: int|
                        0 <= p < mv.len() && mv[p] == occ_lit(g1, c.0 as int, c.1 as int, w as int,
                        h as int);
                    let q = choose|q: int|
                        0 <= q < mv.len() && mv[q] == -occ_lit(g1, c.0 as int, c.1 as int,
                        w as int, h as int);
                    assert(mv[p] + mv[q] == 0);
                } else {
                    assert(ec[kk] == -occ_lit(g2, c.0 as int, c.1 as int, w as int, h as int));
                    let p = choose|p: int|
                        0 <= p < mv.len() && mv[p] == occ_lit(g2, c.0 as int, c.1 as int, w as int,
                        h as int);
                    let q = choose|q: int|
                        0 <= q < mv.len() && mv[q] == -occ_lit(g2, c.0 as int, c.1 as int,
                        w as int, h as int);
                    assert(mv[p] + mv[q] == 0);
                }
            }
        }
        assert forall|i: int, k: int, l: int|
            #![trigger sets[i][k], sets[i][l]]
            0 <= i < sets.len() && 0 <= k < l < sets[i].len() implies sets[i][k] != sets[i][l] by {
            assert(sorted_strict(out@[i]@));
            assert(cell_lt(out@[i]@[k], out@[i]@[l]));
        }
    }
    out
}

} // verus!
