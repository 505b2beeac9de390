use vstd::prelude::*;

use crate::cells::{clone_cells, sort_dedup, Cell};
use crate::cnf::{
    clause_ok, clause_sat, clauses_of, clauses_ok, cover_clause, cover_family, decode_model,
    excl_clause, instance_clause, lemma_sat_member, lits_of, piece_family, push_cover_clauses,
    push_piece_clauses, sat_instance, sets_view, tiling_valid, unsat_instance_for, MAX_VAR,
};
use crate::mask::mask_wf;
use crate::piece::{
    blocks_arrangement, flat_placements, lemma_flat_placements_empty, orientation_candidates,
    piece_placeable, pieces_sorted, placements_of, views_of, Piece,
};
use crate::sat::{solver_add_clause, solver_clauses, solver_new, solver_solve};

verus! {

/// Why a solve call failed.
#[derive(Clone, Copy, Debug, PartialEq, Eq, Structural)]
pub enum ErrorKind {
    /// A piece has zero cells, so its bounding box is undefined.
    EmptyPieceError,
    /// The region mask has rows of differing length, or no rows, or no
    /// columns.
    MalformedMaskError,
    /// The solver proved that no assignment satisfies the instance: the
    /// puzzle has no solution.
    Unsatisfiable,
    /// The solver failed internally, or the instance needs more variables
    /// than the backend supports.
    SolverInternalError,
}

/// The per-piece block spans as mathematical integer pairs.
pub open spec fn ranges_view(rs: Seq<(usize, usize)>) -> Seq<(int, int)> {
    rs.map_values(|r: (usize, usize)| (r.0 as int, r.1 as int))
}

/// Solve an exact-cover tiling puzzle: place every piece, rotated (and,
/// when `flips_allowed`, reflected) and translated, so that the mask-true
/// cells are covered exactly once. On success, one cell set per placed
/// piece is returned; together they partition the mask-true cells.
///
/// The `verbose` flag selects diagnostic output in callers that render
/// solutions; it does not change what is computed here.
#[verifier::rlimit(100)]
pub fn solve(
    pieces: Vec<Vec<(usize, usize)>>,
    grid_mask: Vec<Vec<bool>>,
    flips_allowed: Option<bool>,
    verbose: Option<bool>,
) -> (r: Result<Vec<Vec<(usize, usize)>>, ErrorKind>)
    ensures
        (r == Err::<Vec<Vec<Cell>>, ErrorKind>(ErrorKind::MalformedMaskError)) <==> !mask_wf(
            grid_mask.deep_view(),
        ),
        mask_wf(grid_mask.deep_view()) ==> ((r == Err::<Vec<Vec<Cell>>, ErrorKind>(
            ErrorKind::EmptyPieceError,
        )) <==> exists|i: int| 0 <= i < pieces@.len() && (#[trigger] pieces@[i])@.len() == 0),
        (mask_wf(grid_mask.deep_view()) && (forall|i: int|
            0 <= i < pieces@.len() ==> (#[trigger] pieces@[i])@.len() > 0) && (exists|i: int|
            0 <= i < pieces@.len() && !piece_placeable(
                (#[trigger] pieces@[i])@,
                grid_mask.deep_view(),
                flips_allowed == Some(true),
            ))) ==> r == Err::<Vec<Vec<Cell>>, ErrorKind>(ErrorKind::Unsatisfiable),
        (mask_wf(grid_mask.deep_view()) && (forall|i: int|
            0 <= i < pieces@.len() ==> (#[trigger] pieces@[i])@.len() > 0) && r == Err::<
            Vec<Vec<Cell>>,
            ErrorKind,
        >(ErrorKind::Unsatisfiable)) ==> ((exists|i: int|
            0 <= i < pieces@.len() && !piece_placeable(
                (#[trigger] pieces@[i])@,
                grid_mask.deep_view(),
                flips_allowed == Some(true),
            )) || unsat_instance_for(
            sets_view(pieces@),
            grid_mask.deep_view(),
            flips_allowed == Some(true),
        )),
        r matches Ok(sets) ==> tiling_valid(sets_view(sets@), grid_mask.deep_view()),
{
    let _ = verbose;
    let is_flips = match flips_allowed {
        Some(b) => b,
        None => false,
    };
    proof {
        assert(is_flips == (flips_allowed == Some(true)));
    }
    let ghost m = grid_mask.deep_view();

    // Validate the mask: a non-degenerate rectangle.
    let h = grid_mask.len();
    if h == 0 {
        return Err(ErrorKind::MalformedMaskError);
    }
    let w = grid_mask[0].len();
    proof {
        assert(m[0] =~= grid_mask@[0]@);
    }
    if w == 0 {
        return Err(ErrorKind::MalformedMaskError);
    }
    for i in 1..h
        invariant
            m == grid_mask.deep_view(),
            h == grid_mask@.len(),
            h == m.len(),
            w == m[0].len(),
            0 < w,
            forall|k: int| 0 <= k < i ==> (#[trigger] m[k]).len() == w,
    {
        proof {
            assert(m[i as int] =~= grid_mask@[i as int]@);
        }
        if grid_mask[i].len() != w {
            proof {
                assert(m[i as int].len() != m[0].len());
            }
            return Err(ErrorKind::MalformedMaskError);
        }
    }
    proof {
        assert(mask_wf(m));
    }

    // Reject empty pieces before any geometry.
    let np = pieces.len();
    for i in 0..np
        invariant
            m == grid_mask.deep_view(),
            mask_wf(m),
            np == pieces@.len(),
            forall|k: int| 0 <= k < i ==> (#[trigger] pieces@[k])@.len() > 0,
    {
        if pieces[i].len() == 0 {
            return Err(ErrorKind::EmptyPieceError);
        }
    }

    // Enumerate orientations and placements; blocks are placements in
    // piece-major order, ranges marks each piece's span of blocks.
    let mut blocks: Vec<Piece> = Vec::new();
    let mut ranges: Vec<(usize, usize)> = Vec::new();
    for pi in 0..np
        invariant
            m == grid_mask.deep_view(),
            mask_wf(m),
            h == m.len(),
            w == m[0].len(),
            np == pieces@.len(),
            is_flips == (flips_allowed == Some(true)),
            forall|k: int| 0 <= k < np ==> (#[trigger] pieces@[k])@.len() > 0,
            forall|k: int| 0 <= k < pi ==> piece_placeable((#[trigger] pieces@[k])@, m, is_flips),
            ranges@.len() == pi,
            forall|p: int| 0 <= p < ranges@.len() ==> (#[trigger] ranges@[p]).0 <= ranges@[p].1
                <= blocks@.len(),
            forall|p: int|
                0 <= p < ranges@.len() ==> (#[trigger] ranges@[p]).0 as int == (if p == 0 {
                    0int
                } else {
                    ranges@[p - 1].1 as int
                }),
            ranges@.len() > 0 ==> ranges@.last().1 == blocks@.len(),
            ranges@.len() == 0 ==> blocks@.len() == 0,
            forall|p: int|
                0 <= p < ranges@.len() ==> exists|os: Seq<Seq<Cell>>|
                    pieces_sorted(os) && os.to_set() == orientation_candidates(
                        sort_dedup((#[trigger] pieces@[p])@),
                        is_flips,
                    ).to_set() && views_of(blocks@).subrange(
                        ranges@[p].0 as int,
                        ranges@[p].1 as int,
                    ) == flat_placements(os, m),
    {
        let p = Piece::new(clone_cells(&pieces[pi]));
        let orients = p.generate_all_orientations(is_flips);
        let start = blocks.len();
        let ghost vstart = views_of(blocks@);
        let no = orients.len();
        for oi in 0..no
            invariant
                m == grid_mask.deep_view(),
                mask_wf(m),
                no == orients@.len(),
                p@ == sort_dedup(pieces@[pi as int]@),
                views_of(orients@).to_set() == orientation_candidates(p@, is_flips).to_set(),
                pieces_sorted(views_of(orients@)),
                forall|k: int| 0 <= k < no ==> (#[trigger] orients@[k]).wf()
                    && orients@[k]@.len() > 0,
                start <= blocks@.len(),
                vstart.len() == start as int,
                views_of(blocks@) == vstart + flat_placements(
                    views_of(orients@).take(oi as int),
                    m,
                ),
                blocks@.len() > start ==> exists|o: int|
                    0 <= o < orients@.len() && placements_of((#[trigger] orients@[o])@, m).len()
                        > 0,
        {
            let mut pls = orients[oi].generate_all_positions(&grid_mask);
            let ghost plv = views_of(pls@);
            let ghost vpre = views_of(blocks@);
            proof {
                if plv.len() > 0 {
                    assert(placements_of(orients@[oi as int]@, m).len() > 0);
                }
            }
            blocks.append(&mut pls);
            proof {
                assert(views_of(blocks@) =~= vpre + plv);
                assert(views_of(orients@).take(oi + 1).drop_last() =~= views_of(orients@).take(
                    oi as int,
                ));
                assert(views_of(orients@).take(oi + 1).last() == orients@[oi as int]@);
                assert(flat_placements(views_of(orients@).take(oi + 1), m) == flat_placements(
                    views_of(orients@).take(oi as int),
                    m,
                ) + placements_of(orients@[oi as int]@, m));
                assert(plv == placements_of(orients@[oi as int]@, m));
                assert(views_of(blocks@) =~= vstart + flat_placements(
                    views_of(orients@).take(oi + 1),
                    m,
                ));
            }
        }
        let end = blocks.len();
        proof {
            assert(views_of(orients@).take(no as int) =~= views_of(orients@));
            assert(views_of(blocks@) == vstart + flat_placements(views_of(orients@), m));
            assert(views_of(blocks@).subrange(start as int, end as int) =~= flat_placements(
                views_of(orients@),
                m,
            ));
        }
        if end == start {
            // This piece has no legal placement at all: the instance is
            // trivially unsatisfiable, so fail before calling the solver.
            proof {
                assert(flat_placements(views_of(orients@), m).len() == 0);
                lemma_flat_placements_empty(views_of(orients@), m);
                let cs = orientation_candidates(sort_dedup(pieces@[pi as int]@), is_flips);
                assert(!piece_placeable(pieces@[pi as int]@, m, is_flips)) by {
                    if piece_placeable(pieces@[pi as int]@, m, is_flips) {
                        let o = choose|o: int|
                            0 <= o < cs.len() && placements_of(#[trigger] cs[o], m).len() > 0;
                        assert(cs.contains(cs[o]));
                        assert(cs.to_set().contains(cs[o]));
                        assert(views_of(orients@).to_set().contains(cs[o]));
                        assert(views_of(orients@).contains(cs[o]));
                        let j = choose|j: int|
                            0 <= j < views_of(orients@).len() && views_of(orients@)[j] == cs[o];
                        assert(placements_of(views_of(orients@)[j], m).len() == 0);
                    }
                }
            }
            return Err(ErrorKind::Unsatisfiable);
        }
        proof {
            let cs = orientation_candidates(sort_dedup(pieces@[pi as int]@), is_flips);
            let o = choose|o: int|
                0 <= o < orients@.len() && placements_of((#[trigger] orients@[o])@, m).len() > 0;
            assert(views_of(orients@)[o] == orients@[o]@);
            assert(views_of(orients@).contains(orients@[o]@));
            assert(views_of(orients@).to_set().contains(orients@[o]@));
            assert(cs.to_set().contains(orients@[o]@));
            assert(cs.contains(orients@[o]@));
            let j = choose|j: int| 0 <= j < cs.len() && cs[j] == orients@[o]@;
            assert(placements_of(cs[j], m).len() > 0);
            assert(piece_placeable(pieces@[pi as int]@, m, is_flips));
        }
        let ghost rpre = ranges@;
        ranges.push((start, end));
        proof {
            assert forall|p: int| 0 <= p < ranges@.len() implies exists|os: Seq<Seq<Cell>>|
                pieces_sorted(os) && os.to_set() == orientation_candidates(
                    sort_dedup((#[trigger] pieces@[p])@),
                    is_flips,
                ).to_set() && views_of(blocks@).subrange(ranges@[p].0 as int, ranges@[p].1 as int)
                == flat_placements(os, m) by {
                if p < rpre.len() {
                    assert(ranges@[p] == rpre[p]);
                    let os0 = choose|os: Seq<Seq<Cell>>|
                        pieces_sorted(os) && os.to_set() == orientation_candidates(
                            sort_dedup((pieces@[p])@),
                            is_flips,
                        ).to_set() && vstart.subrange(rpre[p].0 as int, rpre[p].1 as int)
                            == flat_placements(os, m);
                    assert(rpre[p].1 <= vstart.len());
                    assert(views_of(blocks@).subrange(ranges@[p].0 as int, ranges@[p].1 as int)
                        =~= vstart.subrange(rpre[p].0 as int, rpre[p].1 as int));
                    assert(views_of(blocks@).subrange(ranges@[p].0 as int, ranges@[p].1 as int)
                        == flat_placements(os0, m));
                } else {
                    assert(ranges@[p] == (start, end));
                    assert(views_of(blocks@).subrange(start as int, end as int) == flat_placements(
                        views_of(orients@),
                        m,
                    ));
                }
            }
        }
    }

    // The literal numbering must fit the backend's variable range.
    let nblocks = blocks.len();
    let wh = match w.checked_mul(h) {
        Some(v) => v,
        None => {
            return Err(ErrorKind::SolverInternalError);
        },
    };
    let stride = match wh.checked_add(1) {
        Some(v) => v,
        None => {
            return Err(ErrorKind::SolverInternalError);
        },
    };
    let total = match nblocks.checked_mul(stride) {
        Some(v) => v,
        None => {
            return Err(ErrorKind::SolverInternalError);
        },
    };
    if total > MAX_VAR as usize {
        return Err(ErrorKind::SolverInternalError);
    }
    proof {
        assert(nblocks * ((w * h + 1) as int) <= MAX_VAR as int);
    }
    let ghost bv = views_of(blocks@);
    let ghost rg = ranges_view(ranges@);
    proof {
        assert(blocks_arrangement(bv, rg, sets_view(pieces@), m, is_flips)) by {
            assert(rg.len() == pieces@.len());
            assert(forall|q: int| 0 <= q < rg.len() ==> #[trigger] rg[q] == (
            ranges@[q].0 as int, ranges@[q].1 as int));
            assert(forall|q: int| 0 <= q < rg.len() ==> 0 <= (#[trigger] rg[q]).0 <= rg[q].1
                <= bv.len());
            if rg.len() > 0 {
                assert(rg.last() == (ranges@.last().0 as int, ranges@.last().1 as int));
            }
            assert forall|q: int| 0 <= q < rg.len() implies exists|os: Seq<Seq<Cell>>|
                pieces_sorted(os) && os.to_set() == orientation_candidates(
                    sort_dedup(sets_view(pieces@)[q]),
                    is_flips,
                ).to_set() && bv.subrange((#[trigger] rg[q]).0, rg[q].1) == flat_placements(
                os,
                m,
            ) by {
                let os0 = choose|os: Seq<Seq<Cell>>|
                    pieces_sorted(os) && os.to_set() == orientation_candidates(
                        sort_dedup((pieces@[q])@),
                        is_flips,
                    ).to_set() && views_of(blocks@).subrange(
                        ranges@[q].0 as int,
                        ranges@[q].1 as int,
                    ) == flat_placements(os, m);
                assert(sets_view(pieces@)[q] == pieces@[q]@);
                assert(bv.subrange(rg[q].0, rg[q].1) == flat_placements(os0, m));
            }
        }
    }

    compile_and_decide(
        &blocks,
        &ranges,
        &grid_mask,
        nblocks,
        w,
        h,
        Ghost(sets_view(pieces@)),
        Ghost(is_flips),
    )

}


/// Compile the clause families for the given placement-block table, hand
/// them to the solver, and decode the outcome: a valid tiling on a model,
/// an unsatisfiability certificate on a refutation, a solver error
/// otherwise.
fn compile_and_decide(
    blocks: &Vec<Piece>,
    ranges: &Vec<(usize, usize)>,
    grid_mask: &Vec<Vec<bool>>,
    nblocks: usize,
    w: usize,
    h: usize,
    Ghost(pviews): Ghost<Seq<Seq<Cell>>>,
    Ghost(flips): Ghost<bool>,
) -> (r: Result<Vec<Vec<(usize, usize)>>, ErrorKind>)
    requires
        mask_wf(grid_mask.deep_view()),
        h == grid_mask.deep_view().len(),
        w == grid_mask.deep_view()[0].len(),
        0 < w,
        0 < h,
        nblocks == blocks@.len(),
        nblocks * ((w * h + 1) as int) <= MAX_VAR as int,
        forall|q: int| 0 <= q < ranges@.len() ==> (#[trigger] ranges@[q]).0 <= ranges@[q].1
            <= blocks@.len(),
        blocks_arrangement(
            views_of(blocks@),
            ranges_view(ranges@),
            pviews,
            grid_mask.deep_view(),
            flips,
        ),
    ensures
        r matches Ok(sets) ==> tiling_valid(sets_view(sets@), grid_mask.deep_view()),
        r == Err::<Vec<Vec<Cell>>, ErrorKind>(ErrorKind::Unsatisfiable) ==> unsat_instance_for(
            pviews,
            grid_mask.deep_view(),
            flips,
        ),
        r matches Err(e) ==> (e == ErrorKind::Unsatisfiable || e == ErrorKind::SolverInternalError),
{
    let ghost m = grid_mask.deep_view();
    let ghost bv = views_of(blocks@);
    let ghost rg = ranges_view(ranges@);
    // Compile the clauses: per piece its placement constraints, then the
    // per-cell coverage constraints.
    let mut cl: Vec<Vec<i64>> = Vec::new();
    let nr = ranges.len();
    for p in 0..nr
        invariant
            m == grid_mask.deep_view(),
            mask_wf(m),
            h == m.len(),
            w == m[0].len(),
            0 < w,
            0 < h,
            nr == ranges@.len(),
            nblocks == blocks@.len(),
            nblocks * ((w * h + 1) as int) <= MAX_VAR as int,
            forall|q: int| 0 <= q < ranges@.len() ==> (#[trigger] ranges@[q]).0 <= ranges@[q].1
                <= blocks@.len(),
            bv == views_of(blocks@),
            rg == ranges_view(ranges@),
            blocks_arrangement(bv, rg, pviews, m, flips),
            clauses_ok(clauses_of(cl@)),
            forall|i: int|
                0 <= i < cl@.len() ==> instance_clause(
                    #[trigger] clauses_of(cl@)[i],
                    bv,
                    rg,
                    m,
                    w as int,
                    h as int,
                ),
    {
        let span = ranges[p];
        let ghost pre = clauses_of(cl@);
        push_piece_clauses(&mut cl, &blocks, span.0, span.1, w, h);
        proof {
            assert forall|i: int| 0 <= i < cl@.len() implies instance_clause(
                #[trigger] clauses_of(cl@)[i],
                bv,
                rg,
                m,
                w as int,
                h as int,
            ) by {
                if i < pre.len() {
                    assert(clauses_of(cl@)[i] == pre[i]);
                    assert(instance_clause(pre[i], bv, rg, m, w as int, h as int));
                } else {
                    assert(piece_family(clauses_of(cl@)[i], views_of(blocks@), span.0 as int,
                    span.1 as int, w as int, h as int));
                    assert(rg[p as int] == (span.0 as int, span.1 as int));
                    assert(piece_family(clauses_of(cl@)[i], bv, rg[p as int].0, rg[p as int].1,
                    w as int, h as int));
                }
            }
        }
    }
    let ghost pre_cover = clauses_of(cl@);
    push_cover_clauses(&mut cl, &grid_mask, nblocks);
    proof {
        assert forall|i: int| 0 <= i < cl@.len() implies instance_clause(
            #[trigger] clauses_of(cl@)[i],
            bv,
            rg,
            m,
            w as int,
            h as int,
        ) by {
            if i < pre_cover.len() {
                assert(clauses_of(cl@)[i] == pre_cover[i]);
                assert(instance_clause(pre_cover[i], bv, rg, m, w as int, h as int));
            } else {
                assert(cover_family(clauses_of(cl@)[i], m, w as int, h as int, nblocks as int));
                assert(bv.len() == nblocks as int);
            }
        }
    }

    // Hand the clauses to the solver.
    let mut solver = solver_new();
    let ncl = cl.len();
    for i in 0..ncl
        invariant
            m == grid_mask.deep_view(),
            mask_wf(m),
            h == m.len(),
            w == m[0].len(),
            ncl == cl@.len(),
            blocks_arrangement(bv, rg, pviews, m, flips),
            forall|j: int|
                0 <= j < cl@.len() ==> instance_clause(
                    #[trigger] clauses_of(cl@)[j],
                    bv,
                    rg,
                    m,
                    w as int,
                    h as int,
                ),
            clauses_ok(clauses_of(cl@)),
            solver_clauses(solver) == clauses_of(cl@).take(i as int),
    {
        proof {
            assert(clause_ok(clauses_of(cl@)[i as int]));
            assert(lits_of(cl@[i as int]@) == clauses_of(cl@)[i as int]);
        }
        solver_add_clause(&mut solver, &cl[i]);
        proof {
            assert(clauses_of(cl@).take(i + 1) =~= clauses_of(cl@).take(i as int).push(
                clauses_of(cl@)[i as int],
            ));
        }
    }
    proof {
        assert(clauses_of(cl@).take(ncl as int) =~= clauses_of(cl@));
    }

    match solver_solve(&mut solver) {
        Err(_) => Err(ErrorKind::SolverInternalError),
        Ok(None) => {
            proof {
                // the solver certified that this correctly compiled
                // instance admits no satisfying assignment
                assert(!sat_instance(clauses_of(cl@)));
                assert(unsat_instance_for(pviews, m, flips)) by {
                    assert(blocks_arrangement(bv, rg, pviews, m, flips));
                    assert(forall|i: int|
                        0 <= i < clauses_of(cl@).len() ==> instance_clause(
                            #[trigger] clauses_of(cl@)[i],
                            bv,
                            rg,
                            m,
                            m[0].len() as int,
                            m.len() as int,
                        ));
                }
            }
            Err(ErrorKind::Unsatisfiable)
        },
        Ok(Some(assignment)) => {
            proof {
                let mv = lits_of(assignment@);
                assert forall|x: int, y: int|
                    0 <= y < m.len() && 0 <= x < m[0].len() && m[y][x] implies clause_sat(
                    mv,
                    cover_clause(x, y, m[0].len() as int, m.len() as int, nblocks as int),
                ) by {
                    lemma_sat_member(
                        mv,
                        clauses_of(cl@),
                        cover_clause(x, y, w as int, h as int, nblocks as int),
                    );
                }
                assert forall|d1: int, d2: int, x: int, y: int|
                    0 <= d1 < d2 < nblocks && 0 <= y < m.len() && 0 <= x < m[0].len()
                        && m[y][x] implies clause_sat(
                    mv,
                    #[trigger] excl_clause(d1, d2, x, y, m[0].len() as int, m.len() as int),
                ) by {
                    lemma_sat_member(
                        mv,
                        clauses_of(cl@),
                        excl_clause(d1, d2, x, y, w as int, h as int),
                    );
                }
            }
            let sets = decode_model(&assignment, nblocks, &grid_mask);
            Ok(sets)
        },
    }
}

} // verus!
