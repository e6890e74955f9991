//! Deciding CNF satisfiability.
//!
//! `SatOracle` is the interface the knowledge base queries, so that the
//! solver stays replaceable.  `BacktrackOracle` is a verified
//! backtracking solver, complete on any input; an outside solver can be
//! substituted by implementing the trait elsewhere.

use vstd::prelude::*;

use crate::logic::{
    clause_in_range, cnf_holds, cnf_in_range, cnf_sat, lit_holds, clause_holds, Literal,
    SatLiteral,
};

verus! {

/// The spec-level contents of a clause store.
pub open spec fn cnf_view(cs: Vec<Vec<SatLiteral>>) -> Seq<Seq<SatLiteral>> {
    cs@.map_values(|c: Vec<SatLiteral>| c@)
}

/// Decides whether a CNF formula over variables `1..=nvars` is satisfiable.
pub trait SatOracle {
    fn decide(&mut self, clauses: &Vec<Vec<SatLiteral>>, nvars: usize) -> (r: bool)
        requires
            cnf_in_range(cnf_view(*clauses), nvars as int),
        ensures
            r == cnf_sat(cnf_view(*clauses), nvars as int),
    ;
}

/// A full assignment agrees with a partial one everywhere the partial one
/// is defined.
pub open spec fn extends(full: Seq<bool>, pa: Seq<Option<bool>>) -> bool {
    &&& full.len() == pa.len()
    &&& forall|i: int| 0 <= i < pa.len() && (#[trigger] pa[i]) is Some ==> full[i] == pa[i]->0
}

/// Satisfiability under every completion of a partial assignment.
pub open spec fn ext_sat(cs: Seq<Seq<SatLiteral>>, pa: Seq<Option<bool>>) -> bool {
    exists|full: Seq<bool>| extends(full, pa) && cnf_holds(full, cs)
}

/// A literal already falsified by the partial assignment.
pub open spec fn lit_false_under(pa: Seq<Option<bool>>, l: SatLiteral) -> bool {
    match l {
        Literal::Pos(v) => pa[v - 1] == Some(false),
        Literal::Neg(v) => pa[v - 1] == Some(true),
    }
}

/// A clause with every literal already falsified.
pub open spec fn clause_false_under(pa: Seq<Option<bool>>, c: Seq<SatLiteral>) -> bool {
    forall|j: int| 0 <= j < c.len() ==> lit_false_under(pa, #[trigger] c[j])
}

/// The completion that reads defined entries off the partial assignment
/// and fills the rest with `false`.
pub open spec fn strip(pa: Seq<Option<bool>>) -> Seq<bool> {
    Seq::new(pa.len(), |i: int| if pa[i] is Some { pa[i]->0 } else { false })
}

/// Number of undefined entries; the solver's termination measure.
pub open spec fn none_count(pa: Seq<Option<bool>>) -> nat
    decreases pa.len(),
{
    if pa.len() == 0 {
        0
    } else {
        none_count(pa.drop_last()) + if pa.last() is None {
            1nat
        } else {
            0nat
        }
    }
}

/// Defining one undefined entry lowers the measure by one.
pub proof fn lemma_none_count_update(pa: Seq<Option<bool>>, k: int, b: bool)
    requires
        0 <= k < pa.len(),
        pa[k] is None,
    ensures
        none_count(pa.update(k, Some(b))) == none_count(pa) - 1,
    decreases pa.len(),
{
    let up = pa.update(k, Some(b));
    if k == pa.len() - 1 {
        assert(up.drop_last() =~= pa.drop_last());
    } else {
        assert(up.drop_last() =~= pa.drop_last().update(k, Some(b)));
        lemma_none_count_update(pa.drop_last(), k, b);
    }
}

/// A fully falsified clause stays false under every completion.
pub proof fn lemma_false_clause_unsat(
    pa: Seq<Option<bool>>,
    full: Seq<bool>,
    c: Seq<SatLiteral>,
)
    requires
        clause_in_range(c, pa.len() as int),
        clause_false_under(pa, c),
        extends(full, pa),
    ensures
        !clause_holds(full, c),
{
    assert forall|j: int| 0 <= j < c.len() implies !lit_holds(full, #[trigger] c[j]) by {
        let v = c[j].spec_inner();
        assert(pa[v - 1] is Some);
    }
}

/// Whether every literal of `c` is already falsified.
fn clause_all_false(pa: &Vec<Option<bool>>, c: &Vec<SatLiteral>) -> (r: bool)
    requires
        clause_in_range(c@, pa@.len() as int),
    ensures
        r == clause_false_under(pa@, c@),
{
    let mut j: usize = 0;
    while j < c.len()
        invariant
            j <= c@.len(),
            clause_in_range(c@, pa@.len() as int),
            forall|t: int| 0 <= t < j ==> lit_false_under(pa@, #[trigger] c@[t]),
        decreases c@.len() - j,
    {
        let falsified = match c[j] {
            Literal::Pos(v) => matches!(pa[v - 1], Some(false)),
            Literal::Neg(v) => matches!(pa[v - 1], Some(true)),
        };
        if !falsified {
            return false;
        }
        j += 1;
    }
    true
}

/// Whether some clause is already fully falsified.
fn has_false_clause(cs: &Vec<Vec<SatLiteral>>, pa: &Vec<Option<bool>>) -> (r: bool)
    requires
        cnf_in_range(cnf_view(*cs), pa@.len() as int),
    ensures
        r == exists|i: int|
            0 <= i < cs@.len() && clause_false_under(pa@, #[trigger] cnf_view(*cs)[i]),
{
    let mut i: usize = 0;
    while i < cs.len()
        invariant
            i <= cs@.len(),
            cnf_in_range(cnf_view(*cs), pa@.len() as int),
            forall|t: int| 0 <= t < i ==> !clause_false_under(pa@, #[trigger] cnf_view(*cs)[t]),
        decreases cs@.len() - i,
    {
        assert(cs@[i as int]@ == cnf_view(*cs)[i as int]);
        if clause_all_false(pa, &cs[i]) {
            assert(clause_false_under(pa@, cnf_view(*cs)[i as int]));
            return true;
        }
        i += 1;
    }
    false
}

/// First undefined entry, if any.
fn find_unassigned(pa: &Vec<Option<bool>>) -> (r: Option<usize>)
    ensures
        match r {
            Some(k) => k < pa@.len() && pa@[k as int] is None,
            None => forall|i: int| 0 <= i < pa@.len() ==> (#[trigger] pa@[i]) is Some,
        },
{
    let mut i: usize = 0;
    while i < pa.len()
        invariant
            i <= pa@.len(),
            forall|t: int| 0 <= t < i ==> (#[trigger] pa@[t]) is Some,
        decreases pa@.len() - i,
    {
        if pa[i].is_none() {
            return Some(i);
        }
        i += 1;
    }
    None
}

/// Branching on an undefined entry partitions the completions.
proof fn lemma_branch(cs: Seq<Seq<SatLiteral>>, pa: Seq<Option<bool>>, k: int)
    requires
        0 <= k < pa.len(),
        pa[k] is None,
    ensures
        ext_sat(cs, pa) == (ext_sat(cs, pa.update(k, Some(true))) || ext_sat(
            cs,
            pa.update(k, Some(false)),
        )),
{
    if ext_sat(cs, pa) {
        let full = choose|full: Seq<bool>| extends(full, pa) && cnf_holds(full, cs);
        let b = full[k];
        assert(extends(full, pa.update(k, Some(b))));
        if b {
            assert(ext_sat(cs, pa.update(k, Some(true))));
        } else {
            assert(ext_sat(cs, pa.update(k, Some(false))));
        }
    }
    if ext_sat(cs, pa.update(k, Some(true))) {
        let full = choose|full: Seq<bool>|
            extends(full, pa.update(k, Some(true))) && cnf_holds(full, cs);
        assert forall|i: int| 0 <= i < pa.len() && (#[trigger] pa[i]) is Some implies full[i]
            == pa[i]->0 by {
            assert(pa.update(k, Some(true))[i] == pa[i]);
        }
        assert(extends(full, pa));
        assert(ext_sat(cs, pa));
    }
    if ext_sat(cs, pa.update(k, Some(false))) {
        let full = choose|full: Seq<bool>|
            extends(full, pa.update(k, Some(false))) && cnf_holds(full, cs);
        assert forall|i: int| 0 <= i < pa.len() && (#[trigger] pa[i]) is Some implies full[i]
            == pa[i]->0 by {
            assert(pa.update(k, Some(false))[i] == pa[i]);
        }
        assert(extends(full, pa));
        assert(ext_sat(cs, pa));
    }
}

/// Backtracking search for a completion of `pa` satisfying `cs`.
fn solve_rec(cs: &Vec<Vec<SatLiteral>>, pa: &mut Vec<Option<bool>>) -> (r: bool)
    requires
        cnf_in_range(cnf_view(*cs), old(pa)@.len() as int),
    ensures
        final(pa)@ == old(pa)@,
        r == ext_sat(cnf_view(*cs), old(pa)@),
    decreases none_count(old(pa)@),
{
    let ghost pa0 = pa@;
    let ghost csv = cnf_view(*cs);
    if has_false_clause(cs, pa) {
        proof {
            let i = choose|i: int| 0 <= i < csv.len() && clause_false_under(pa0, #[trigger] csv[i]);
            assert forall|full: Seq<bool>| extends(full, pa0) implies !cnf_holds(full, csv) by {
                lemma_false_clause_unsat(pa0, full, csv[i]);
            }
        }
        return false;
    }
    match find_unassigned(pa) {
        None => {
            proof {
                let full = strip(pa0);
                assert(extends(full, pa0));
                assert forall|i: int| 0 <= i < csv.len() implies clause_holds(
                    full,
                    #[trigger] csv[i],
                ) by {
                    assert(!clause_false_under(pa0, csv[i]));
                    let j = choose|j: int|
                        0 <= j < csv[i].len() && !lit_false_under(pa0, #[trigger] csv[i][j]);
                    let v = csv[i][j].spec_inner();
                    assert(pa0[v - 1] is Some);
                    assert(lit_holds(full, csv[i][j]));
                }
                assert(ext_sat(csv, pa0));
            }
            true
        },
        Some(k) => {
            proof {
                lemma_branch(csv, pa0, k as int);
                lemma_none_count_update(pa0, k as int, true);
                lemma_none_count_update(pa0, k as int, false);
            }
            pa.set(k, Some(true));
            let r1 = solve_rec(cs, pa);
            if r1 {
                pa.set(k, None);
                proof {
                    assert(pa@ =~= pa0);
                }
                return true;
            }
            pa.set(k, Some(false));
            proof {
                assert(pa@ =~= pa0.update(k as int, Some(false)));
            }
            let r2 = solve_rec(cs, pa);
            pa.set(k, None);
            proof {
                assert(pa@ =~= pa0);
            }
            r2
        },
    }
}

/// A complete, verified SAT solver by backtracking search.
pub struct BacktrackOracle;

impl SatOracle for BacktrackOracle {
    fn decide(&mut self, clauses: &Vec<Vec<SatLiteral>>, nvars: usize) -> (r: bool) {
        let mut pa: Vec<Option<bool>> = Vec::new();
        let mut i: usize = 0;
        while i < nvars
            invariant
                i <= nvars,
                pa@.len() == i,
                forall|t: int| 0 <= t < i ==> (#[trigger] pa@[t]) is None,
            decreases nvars - i,
        {
            pa.push(None);
            i += 1;
        }
        let r = solve_rec(clauses, &mut pa);
        proof {
            let csv = cnf_view(*clauses);
            if r {
                let full = choose|full: Seq<bool>| extends(full, pa@) && cnf_holds(full, csv);
                assert(cnf_sat(csv, nvars as int));
            }
            if cnf_sat(csv, nvars as int) {
                let full = choose|full: Seq<bool>|
                    full.len() == nvars as int && cnf_holds(full, csv);
                assert(extends(full, pa@));
                assert(ext_sat(csv, pa@));
            }
        }
        r
    }
}

/// Whether `assignment` satisfies every clause; a verified model checker,
/// usable to exhibit satisfiability without any search.
pub fn check_model(clauses: &Vec<Vec<SatLiteral>>, assignment: &Vec<bool>) -> (r: bool)
    requires
        cnf_in_range(cnf_view(*clauses), assignment@.len() as int),
    ensures
        r == cnf_holds(assignment@, cnf_view(*clauses)),
{
    let mut i: usize = 0;
    while i < clauses.len()
        invariant
            i <= clauses@.len(),
            cnf_in_range(cnf_view(*clauses), assignment@.len() as int),
            forall|t: int| 0 <= t < i ==> clause_holds(assignment@, #[trigger] cnf_view(
                *clauses,
            )[t]),
        decreases clauses@.len() - i,
    {
        let c = &clauses[i];
        assert(c@ == cnf_view(*clauses)[i as int]);
        let mut j: usize = 0;
        let mut sat = false;
        while j < c.len()
            invariant
                j <= c@.len(),
                clause_in_range(c@, assignment@.len() as int),
                sat ==> clause_holds(assignment@, c@),
                !sat ==> forall|t: int| 0 <= t < j ==> !lit_holds(assignment@, #[trigger] c@[t]),
            decreases c@.len() - j,
        {
            let holds = match c[j] {
                Literal::Pos(v) => assignment[v - 1],
                Literal::Neg(v) => !assignment[v - 1],
            };
            if holds {
                assert(lit_holds(assignment@, c@[j as int]));
                sat = true;
            }
            j += 1;
        }
        if !sat {
            assert(!clause_holds(assignment@, cnf_view(*clauses)[i as int]));
            return false;
        }
        i += 1;
    }
    true
}

} // verus!
