use vstd::prelude::*;

use crate::cnf::{all_clauses_sat, clause_ok, lits_of, model_consistent, sat_instance};

verus! {

#[verifier::external_type_specification]
#[verifier::external_body]
pub struct ExSolver<'a>(varisat::solver::Solver<'a>);

#[verifier::external_type_specification]
#[verifier::external_body]
pub struct ExSolverError(varisat::solver::SolverError);

/// The clauses added so far to a solver instance, as sequences of signed
/// DIMACS literals, in the order they were added.
pub uninterp spec fn solver_clauses(s: varisat::solver::Solver<'static>) -> Seq<Seq<int>>;

/// Relies on varisat's `Solver::new`: a fresh solver holds no clauses.
#[verifier::external_body]
pub fn solver_new() -> (s: varisat::solver::Solver<'static>)
    ensures
        solver_clauses(s) == Seq::<Seq<int>>::empty(),
{
    varisat::solver::Solver::new()
}

/// Relies on varisat's `ExtendFormula::add_clause` for `Solver`: it
/// conjoins exactly the given clause to the formula. `Lit::from_dimacs`
/// takes nonzero numbers whose magnitude is at most the largest supported
/// variable index plus one; the `clause_ok` bound keeps every literal in
/// that range.
#[verifier::external_body]
pub fn solver_add_clause(s: &mut varisat::solver::Solver<'static>, lits: &Vec<i64>)
    requires
        clause_ok(lits_of(lits@)),
    ensures
        solver_clauses(*final(s)) == solver_clauses(*old(s)).push(lits_of(lits@)),
{
    let c: Vec<varisat::lit::Lit> = lits.iter().map(
        |l: &i64| varisat::lit::Lit::from_dimacs(*l as isize),
    ).collect();
    varisat::ExtendFormula::add_clause(s, &c);
}

/// Relies on varisat's `Solver::solve` and `Solver::model`. `solve`
/// reports `Ok(true)` when the added clauses are satisfiable, `Ok(false)`
/// when they are not, and an error when the search was interrupted or
/// failed internally; it does not change the formula. After `Ok(true)`,
/// `model` reports one signed literal per variable of a consistent
/// assignment under which every added clause holds. The result folds the
/// two calls together: `Ok(Some(assignment))` on satisfiable formulas,
/// `Ok(None)` on unsatisfiable ones — when no consistent assignment
/// satisfies every added clause.
#[verifier::external_body]
pub fn solver_solve(s: &mut varisat::solver::Solver<'static>) -> (r: Result<
    Option<Vec<i64>>,
    varisat::solver::SolverError,
>)
    ensures
        solver_clauses(*final(s)) == solver_clauses(*old(s)),
        match r {
            Ok(Some(assignment)) => model_consistent(lits_of(assignment@)) && all_clauses_sat(
                lits_of(assignment@),
                solver_clauses(*old(s)),
            ),
            Ok(None) => !sat_instance(solver_clauses(*old(s))),
            Err(_) => true,
        },
{
    match s.solve() {
        Ok(true) => Ok(
            s.model().map(|ls: Vec<varisat::lit::Lit>| ls.iter().map(
                |l: &varisat::lit::Lit| l.to_dimacs() as i64,
            ).collect()),
        ),
        Ok(false) => Ok(None),
        Err(e) => Err(e),
    }
}

} // verus!
