//! Literals and the propositional semantics of CNF formulas over integer
//! SAT identifiers.
//!
//! An identifier is a positive `usize`; an assignment is a sequence of
//! booleans where index `i` gives the value of identifier `i + 1`.

use vstd::prelude::*;

verus! {

/// A propositional literal: a variable or its negation.
#[derive(Clone, Copy, Debug, PartialEq, Eq, Hash)]
pub enum Literal<T> {
    Pos(T),
    Neg(T),
}

impl<T> Literal<T> {
    /// The underlying variable, with the polarity dropped.
    pub fn inner(self) -> (r: T)
        ensures
            r == self.spec_inner(),
    {
        match self {
            Literal::Pos(t) => t,
            Literal::Neg(t) => t,
        }
    }

    pub open spec fn spec_inner(self) -> T {
        match self {
            Literal::Pos(t) => t,
            Literal::Neg(t) => t,
        }
    }

    pub open spec fn is_pos(self) -> bool {
        matches!(self, Literal::Pos(_))
    }
}

impl<T: Copy> Literal<T> {
    /// The literal of the same variable with the opposite polarity.
    pub fn not(&self) -> (r: Self)
        ensures
            r == self.spec_not(),
    {
        match self {
            Literal::Pos(t) => Literal::Neg(*t),
            Literal::Neg(t) => Literal::Pos(*t),
        }
    }

    pub open spec fn spec_not(self) -> Self {
        match self {
            Literal::Pos(t) => Literal::Neg(t),
            Literal::Neg(t) => Literal::Pos(t),
        }
    }
}

/// A literal over integer SAT identifiers, as stored by the encoder.
pub type SatLiteral = Literal<usize>;

/// Whether a literal's identifier lies in `1..=nvars`.
pub open spec fn lit_in_range(l: SatLiteral, nvars: int) -> bool {
    1 <= l.spec_inner() <= nvars
}

/// Whether every literal of the clause lies in `1..=nvars`.
pub open spec fn clause_in_range(c: Seq<SatLiteral>, nvars: int) -> bool {
    forall|j: int| 0 <= j < c.len() ==> lit_in_range(#[trigger] c[j], nvars)
}

/// Whether every clause of the formula lies in `1..=nvars`.
pub open spec fn cnf_in_range(cs: Seq<Seq<SatLiteral>>, nvars: int) -> bool {
    forall|i: int| 0 <= i < cs.len() ==> clause_in_range(#[trigger] cs[i], nvars)
}

/// Truth of a literal under an assignment (index `i` values identifier `i+1`).
pub open spec fn lit_holds(a: Seq<bool>, l: SatLiteral) -> bool {
    match l {
        Literal::Pos(v) => a[v - 1],
        Literal::Neg(v) => !a[v - 1],
    }
}

/// Truth of a clause: some literal is true.
pub open spec fn clause_holds(a: Seq<bool>, c: Seq<SatLiteral>) -> bool {
    exists|j: int| 0 <= j < c.len() && lit_holds(a, #[trigger] c[j])
}

/// Truth of a CNF formula: every clause is true.
pub open spec fn cnf_holds(a: Seq<bool>, cs: Seq<Seq<SatLiteral>>) -> bool {
    forall|i: int| 0 <= i < cs.len() ==> clause_holds(a, #[trigger] cs[i])
}

/// Satisfiability of a CNF formula over `nvars` variables.
pub open spec fn cnf_sat(cs: Seq<Seq<SatLiteral>>, nvars: int) -> bool {
    exists|a: Seq<bool>| a.len() == nvars && cnf_holds(a, cs)
}

/// Entailment: every assignment over `nvars` variables satisfying `kb`
/// satisfies `q`.
pub open spec fn cnf_entails(kb: Seq<Seq<SatLiteral>>, nvars: int, q: Seq<Seq<SatLiteral>>) -> bool {
    forall|a: Seq<bool>|
        a.len() == nvars && cnf_holds(a, kb) ==> cnf_holds(a, q)
}

/// A clause whose identifiers lie within the length of `a` keeps its truth
/// value when `a` is extended on the right.
pub proof fn lemma_clause_holds_extend(a: Seq<bool>, b: Seq<bool>, c: Seq<SatLiteral>)
    requires
        clause_in_range(c, a.len() as int),
        a.len() <= b.len(),
        b.subrange(0, a.len() as int) == a,
    ensures
        clause_holds(a, c) == clause_holds(b, c),
{
    assert forall|j: int| 0 <= j < c.len() implies lit_holds(a, #[trigger] c[j]) == lit_holds(
        b,
        c[j],
    ) by {
        let v = c[j].spec_inner();
        assert(b.subrange(0, a.len() as int)[v - 1] == b[v - 1]);
    }
}

/// A formula whose identifiers lie within the length of `a` keeps its truth
/// value when `a` is extended on the right.
pub proof fn lemma_cnf_holds_extend(a: Seq<bool>, b: Seq<bool>, cs: Seq<Seq<SatLiteral>>)
    requires
        cnf_in_range(cs, a.len() as int),
        a.len() <= b.len(),
        b.subrange(0, a.len() as int) == a,
    ensures
        cnf_holds(a, cs) == cnf_holds(b, cs),
{
    assert forall|i: int| 0 <= i < cs.len() implies clause_holds(a, #[trigger] cs[i])
        == clause_holds(b, cs[i]) by {
        lemma_clause_holds_extend(a, b, cs[i]);
    }
}

/// Truth of a concatenation: both halves are true.
pub proof fn lemma_cnf_holds_add(a: Seq<bool>, x: Seq<Seq<SatLiteral>>, y: Seq<Seq<SatLiteral>>)
    ensures
        cnf_holds(a, x + y) == (cnf_holds(a, x) && cnf_holds(a, y)),
{
    if cnf_holds(a, x + y) {
        assert forall|i: int| 0 <= i < x.len() implies clause_holds(a, #[trigger] x[i]) by {
            assert((x + y)[i] == x[i]);
        }
        assert forall|i: int| 0 <= i < y.len() implies clause_holds(a, #[trigger] y[i]) by {
            assert((x + y)[x.len() + i] == y[i]);
        }
    }
    if cnf_holds(a, x) && cnf_holds(a, y) {
        assert forall|i: int| 0 <= i < (x + y).len() implies clause_holds(
            a,
            #[trigger] (x + y)[i],
        ) by {
            if i < x.len() {
                assert((x + y)[i] == x[i]);
            } else {
                assert((x + y)[i] == y[i - x.len()]);
            }
        }
    }
}

} // verus!
