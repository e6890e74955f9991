//! The knowledge base: domain variables, formulas over them, and the
//! refutation-based `ask` built on the encoder's snapshot/rewind.

use vstd::prelude::*;

use crate::encoder::{
    add_m, formula_size, intern_formula_m, snapshot_m, tell_m, wf, EncoderModel, EncoderSAT,
};
use crate::logic::{cnf_entails, cnf_in_range, cnf_sat, Literal, SatLiteral};
use crate::solver::SatOracle;
use crate::world::{Action, Direction, Perceptions, Position};

verus! {

/// A ground domain variable of the Wumpus-World theory.
#[derive(Clone, Copy, Hash, PartialEq, Eq, Structural, Debug)]
pub enum Var {
    Safe { pos: Position },
    Wumpus { pos: Position },
    Pit { pos: Position },
    Gold { pos: Position },
    Stench { pos: Position },
    Breeze { pos: Position },
    Howl,
    Bump { pos: Position, dir: Direction },
}

impl Default for Var {
    /// The safety proposition of the origin cell.
    fn default() -> (r: Self)
        ensures
            r == (Var::Safe { pos: Position { x: 0, y: 0 } }),
    {
        Var::Safe { pos: Position { x: 0, y: 0 } }
    }
}

/// A CNF formula over domain variables: a conjunction of disjunctions.
pub type Formula = Vec<Vec<Literal<Var>>>;

/// The spec-level contents of a formula.
pub open spec fn formula_view(f: Formula) -> Seq<Seq<Literal<Var>>> {
    f@.map_values(|c: Vec<Literal<Var>>| c@)
}

/// What `ask` decides: a nonempty query is answered by entailment of its
/// interned image, over the variable count reached after interning it;
/// the empty query is never entailed.
pub open spec fn ask_result(m: EncoderModel, f: Seq<Seq<Literal<Var>>>) -> bool {
    let (m1, q) = intern_formula_m(m, f);
    f.len() > 0 && cnf_entails(m.clauses, m1.counter, q)
}

/// A copy of a clause of domain literals.
fn clone_clause(c: &Vec<Literal<Var>>) -> (r: Vec<Literal<Var>>)
    ensures
        r@ == c@,
{
    let mut r: Vec<Literal<Var>> = Vec::new();
    let mut i: usize = 0;
    while i < c.len()
        invariant
            i <= c@.len(),
            r@ == c@.take(i as int),
        decreases c@.len() - i,
    {
        r.push(c[i]);
        proof {
            assert(c@.take(i + 1) =~= c@.take(i as int).push(c@[i as int]));
        }
        i += 1;
    }
    proof {
        assert(c@.take(c@.len() as int) =~= c@);
    }
    r
}

impl EncoderSAT {
    /// Assert a formula: every clause is interned and appended to the
    /// store.  Monotonic; no snapshot involvement.
    pub fn tell(&mut self, formula: &Formula)
        requires
            wf(old(self)@),
            old(self)@.counter + formula_size(formula_view(*formula)) <= usize::MAX,
        ensures
            wf(final(self)@),
            final(self)@ == tell_m(old(self)@, formula_view(*formula)),
            old(self)@.counter <= final(self)@.counter <= old(self)@.counter + formula_size(
                formula_view(*formula),
            ),
    {
        let ghost old_m = self@;
        let ghost fv = formula_view(*formula);
        let mut i: usize = 0;
        proof {
            assert(fv.take(0) =~= Seq::<Seq<Literal<Var>>>::empty());
        }
        while i < formula.len()
            invariant
                wf(self@),
                i <= fv.len(),
                fv == formula_view(*formula),
                fv.len() == formula@.len(),
                old_m.counter + formula_size(fv) <= usize::MAX,
                old_m.counter <= self@.counter,
                self@.counter <= old_m.counter + formula_size(fv.take(i as int)),
                self@ == tell_m(old_m, fv.take(i as int)),
            decreases fv.len() - i,
        {
            let clause = clone_clause(&formula[i]);
            proof {
                lemma_formula_size_take_step(fv, i as int);
                crate::encoder::lemma_formula_size_take(fv, i + 1);
            }
            self.add(clause);
            proof {
                assert(fv.take(i + 1).drop_last() =~= fv.take(i as int));
                assert(fv.take(i + 1).last() == fv[i as int]);
            }
            i += 1;
        }
        proof {
            assert(fv.take(fv.len() as int) =~= fv);
        }
    }

    /// Whether the current store is satisfiable.
    pub fn consistency<O: SatOracle>(&self, oracle: &mut O) -> (r: bool)
        requires
            wf(self@),
        ensures
            r == cnf_sat(self@.clauses, self@.counter),
    {
        oracle.decide(self.clause_list(), self.num_vars())
    }

    /// Decide `KB |= formula` by refutation: snapshot, assert the negation
    /// of the query (via fresh auxiliaries when it has several clauses),
    /// consult the oracle, rewind.  The store, the name table and the
    /// counter are restored exactly; the query leaves no trace.
    pub fn ask<O: SatOracle>(&mut self, formula: &Formula, oracle: &mut O) -> (r: bool)
        requires
            wf(old(self)@),
            old(self)@.snap is None,
            old(self)@.counter + formula_size(formula_view(*formula)) + formula_view(
                *formula,
            ).len() + 1 <= usize::MAX,
        ensures
            wf(final(self)@),
            final(self)@ == old(self)@,
            r == ask_result(old(self)@, formula_view(*formula)),
    {
        let ghost old_m = self@;
        let ghost fv = formula_view(*formula);
        self.snapshot();
        let ghost snap_m = self@;
        if formula.len() == 0 {
            self.rewind();
            proof {
                assert(self@.table =~= old_m.table);
                assert(self@.clauses =~= old_m.clauses);
                assert(self@ =~= old_m);
            }
            return false;
        }
        // intern the query first; its own names must be allocated before
        // the auxiliaries so the auxiliaries are a contiguous block on top
        let mut interned: Vec<Vec<SatLiteral>> = Vec::new();
        let mut i: usize = 0;
        proof {
            assert(fv.take(0) =~= Seq::<Seq<Literal<Var>>>::empty());
            assert(interned@.map_values(|c: Vec<SatLiteral>| c@) =~= Seq::<Seq<SatLiteral>>::empty());
        }
        while i < formula.len()
            invariant
                wf(self@),
                i <= fv.len(),
                fv == formula_view(*formula),
                fv.len() == formula@.len(),
                old_m.counter + formula_size(fv) + fv.len() + 1 <= usize::MAX,
                snap_m == snapshot_m(old_m),
                old_m.counter <= self@.counter,
                self@.counter <= old_m.counter + formula_size(fv.take(i as int)),
                interned@.len() == i,
                self@ == intern_formula_m(snap_m, fv.take(i as int)).0,
                interned@.map_values(|c: Vec<SatLiteral>| c@) == intern_formula_m(
                    snap_m,
                    fv.take(i as int),
                ).1,
                cnf_in_range(interned@.map_values(|c: Vec<SatLiteral>| c@), self@.counter),
            decreases fv.len() - i,
        {
            let ghost prev_counter = self@.counter;
            proof {
                lemma_formula_size_take_step(fv, i as int);
                crate::encoder::lemma_formula_size_take(fv, i + 1);
            }
            let q_clause = self.register_clause(&formula[i]);
            interned.push(q_clause);
            proof {
                assert(fv.take(i + 1).drop_last() =~= fv.take(i as int));
                assert(fv.take(i + 1).last() == fv[i as int]);
                assert(interned@.map_values(|c: Vec<SatLiteral>| c@) =~= intern_formula_m(
                    snap_m,
                    fv.take(i as int),
                ).1.push(interned@.last()@));
                let iv = interned@.map_values(|c: Vec<SatLiteral>| c@);
                assert forall|t: int| 0 <= t < iv.len() implies crate::logic::clause_in_range(
                    #[trigger] iv[t],
                    self@.counter,
                ) by {
                    if t < iv.len() - 1 {
                        assert(crate::logic::clause_in_range(iv[t], prev_counter));
                    }
                }
            }
            i += 1;
        }
        proof {
            assert(fv.take(fv.len() as int) =~= fv);
        }
        let n1 = self.num_vars();
        let ghost m_base = self@;
        let ghost q = interned@.map_values(|c: Vec<SatLiteral>| c@);
        proof {
            crate::encoder::lemma_intern_formula_congruent(snap_m, snap_m, fv);
            assert(m_base.snap == snap_m.snap);
            assert(m_base.clauses == old_m.clauses);
        }
        let verdict: bool;
        if formula.len() == 1 {
            // the negation of a single clause is a conjunction of
            // negated literals: no auxiliaries are needed
            let mut j: usize = 0;
            proof {
                assert(self@.clauses =~= m_base.clauses + crate::tseytin::neg_units(q[0]).take(0));
            }
            while j < interned[0].len()
                invariant
                    wf(self@),
                    interned@.len() == 1,
                    j <= interned@[0]@.len(),
                    q == interned@.map_values(|c: Vec<SatLiteral>| c@),
                    q[0] == interned@[0]@,
                    crate::logic::clause_in_range(q[0], m_base.counter),
                    self@ == (EncoderModel {
                        clauses: m_base.clauses + crate::tseytin::neg_units(q[0]).take(j as int),
                        ..m_base
                    }),
                decreases interned@[0]@.len() - j,
            {
                let nl = interned[0][j].not();
                let unit: Vec<SatLiteral> = vec![nl];
                proof {
                    assert(unit@ =~= seq![interned@[0]@[j as int].spec_not()]);
                    assert(crate::tseytin::neg_units(q[0]).take(j + 1) =~= crate::tseytin::neg_units(
                        q[0],
                    ).take(j as int).push(unit@));
                }
                self.add_raw_clause(unit);
                proof {
                    assert(self@ =~= (EncoderModel {
                        clauses: m_base.clauses + crate::tseytin::neg_units(q[0]).take(j + 1),
                        ..m_base
                    }));
                }
                j += 1;
            }
            proof {
                assert(crate::tseytin::neg_units(q[0]).take(q[0].len() as int)
                    =~= crate::tseytin::neg_units(q[0]));
            }
            verdict = oracle.decide(self.clause_list(), self.num_vars());
            proof {
                crate::tseytin::lemma_unit_refutation(m_base.clauses, q[0], n1 as int);
                assert(q =~= seq![q[0]]);
                assert(!verdict == cnf_entails(m_base.clauses, n1 as int, q));
            }
        } else {
            let m = interned.len();
            let mut tclause: Vec<SatLiteral> = Vec::new();
            let mut i2: usize = 0;
            proof {
                assert(self@.clauses =~= m_base.clauses + crate::tseytin::blocks(q, n1 as int, 0));
                assert(tclause@ =~= crate::tseytin::t_clause(q, n1 as int).take(0));
            }
            while i2 < m
                invariant
                    wf(self@),
                    interned@.len() == m,
                    2 <= m == q.len(),
                    i2 <= m,
                    q == interned@.map_values(|c: Vec<SatLiteral>| c@),
                    cnf_in_range(q, n1 as int),
                    n1 == m_base.counter,
                    n1 + m <= usize::MAX,
                    self@.counter == n1 + i2,
                    self@ == (EncoderModel {
                        counter: n1 + i2,
                        clauses: m_base.clauses + crate::tseytin::blocks(q, n1 as int, i2 as int),
                        ..m_base
                    }),
                    tclause@ == crate::tseytin::t_clause(q, n1 as int).take(i2 as int),
                decreases m - i2,
            {
                let ghost blocks_before = crate::tseytin::blocks(q, n1 as int, i2 as int);
                let t = self.create_raw_variable();
                proof {
                    assert(t == crate::tseytin::aux_lit(n1 as int, i2 as int));
                    assert(crate::tseytin::t_clause(q, n1 as int).take(i2 + 1)
                        =~= crate::tseytin::t_clause(q, n1 as int).take(i2 as int).push(t));
                }
                tclause.push(t);
                let clen = interned[i2].len();
                let mut j: usize = 0;
                proof {
                    assert(crate::tseytin::pair_clauses(q[i2 as int], n1 + 1 + i2 as int).take(0)
                        =~= Seq::<Seq<SatLiteral>>::empty());
                    assert(self@.clauses =~= m_base.clauses + blocks_before
                        + crate::tseytin::pair_clauses(q[i2 as int], n1 + 1 + i2 as int).take(0));
                }
                while j < clen
                    invariant
                        wf(self@),
                        interned@.len() == m,
                        i2 < m == q.len(),
                        j <= clen,
                        clen == interned@[i2 as int]@.len(),
                        q == interned@.map_values(|c: Vec<SatLiteral>| c@),
                        q[i2 as int] == interned@[i2 as int]@,
                        cnf_in_range(q, n1 as int),
                        n1 + m <= usize::MAX,
                        t == crate::tseytin::aux_lit(n1 as int, i2 as int),
                        blocks_before == crate::tseytin::blocks(q, n1 as int, i2 as int),
                        self@.counter == n1 + i2 + 1,
                        self@ == (EncoderModel {
                            counter: n1 + i2 + 1,
                            clauses: m_base.clauses + blocks_before + crate::tseytin::pair_clauses(
                                q[i2 as int],
                                n1 + 1 + i2 as int,
                            ).take(j as int),
                            ..m_base
                        }),
                    decreases clen - j,
                {
                    let nl = interned[i2][j].not();
                    let nt = t.not();
                    let pair: Vec<SatLiteral> = vec![nl, nt];
                    proof {
                        assert(pair@ =~= seq![
                            interned@[i2 as int]@[j as int].spec_not(),
                            Literal::<usize>::Neg((n1 + 1 + i2) as usize),
                        ]);
                        assert(crate::tseytin::pair_clauses(q[i2 as int], n1 + 1 + i2 as int)[j as int]
                            == pair@);
                        assert(crate::tseytin::pair_clauses(q[i2 as int], n1 + 1 + i2 as int).take(
                            j + 1,
                        ) =~= crate::tseytin::pair_clauses(q[i2 as int], n1 + 1 + i2 as int).take(
                            j as int,
                        ).push(pair@));
                        assert(crate::logic::lit_in_range(q[i2 as int][j as int], n1 as int));
                    }
                    self.add_raw_clause(pair);
                    proof {
                        assert(self@ =~= (EncoderModel {
                            counter: n1 + i2 + 1,
                            clauses: m_base.clauses + blocks_before
                                + crate::tseytin::pair_clauses(q[i2 as int], n1 + 1 + i2 as int).take(
                                j + 1,
                            ),
                            ..m_base
                        }));
                    }
                    j += 1;
                }
                // the linking clause: the query clause plus its auxiliary
                let mut linked: Vec<SatLiteral> = Vec::new();
                let mut k: usize = 0;
                while k < clen
                    invariant
                        k <= clen,
                        interned@.len() == m,
                        i2 < m,
                        clen == interned@[i2 as int]@.len(),
                        linked@ == interned@[i2 as int]@.take(k as int),
                    decreases clen - k,
                {
                    linked.push(interned[i2][k]);
                    proof {
                        assert(interned@[i2 as int]@.take(k + 1) =~= interned@[i2 as int]@.take(
                            k as int,
                        ).push(interned@[i2 as int]@[k as int]));
                    }
                    k += 1;
                }
                proof {
                    assert(interned@[i2 as int]@.take(clen as int) =~= interned@[i2 as int]@);
                }
                linked.push(t);
                proof {
                    assert(linked@ =~= q[i2 as int].push(crate::tseytin::aux_lit(n1 as int, i2 as int)));
                    assert forall|y: int| 0 <= y < linked@.len() implies crate::logic::lit_in_range(
                        #[trigger] linked@[y],
                        self@.counter,
                    ) by {
                        if y < q[i2 as int].len() {
                            assert(linked@[y] == q[i2 as int][y]);
                            assert(crate::logic::lit_in_range(q[i2 as int][y], n1 as int));
                        }
                    }
                }
                self.add_raw_clause(linked);
                proof {
                    assert(crate::tseytin::pair_clauses(q[i2 as int], n1 + 1 + i2 as int).take(
                        clen as int,
                    ) =~= crate::tseytin::pair_clauses(q[i2 as int], n1 + 1 + i2 as int));
                    assert(crate::tseytin::blocks(q, n1 as int, i2 + 1) == crate::tseytin::blocks(
                        q,
                        n1 as int,
                        i2 as int,
                    ) + crate::tseytin::block(q, n1 as int, i2 as int));
                    assert(crate::tseytin::block(q, n1 as int, i2 as int)
                        =~= crate::tseytin::pair_clauses(q[i2 as int], n1 + 1 + i2 as int).push(
                        linked@,
                    ));
                    assert(self@ =~= (EncoderModel {
                        counter: n1 + i2 + 1,
                        clauses: m_base.clauses + crate::tseytin::blocks(q, n1 as int, i2 + 1),
                        ..m_base
                    }));
                }
                i2 += 1;
            }
            proof {
                assert(tclause@ =~= crate::tseytin::t_clause(q, n1 as int));
                assert forall|y: int| 0 <= y < tclause@.len() implies crate::logic::lit_in_range(
                    #[trigger] tclause@[y],
                    self@.counter,
                ) by {
                    assert(tclause@[y] == crate::tseytin::aux_lit(n1 as int, y));
                }
            }
            self.add_raw_clause(tclause);
            proof {
                assert(self@.clauses =~= crate::tseytin::tseytin_aug(m_base.clauses, q, n1 as int));
            }
            verdict = oracle.decide(self.clause_list(), self.num_vars());
            proof {
                crate::tseytin::lemma_tseytin_refutation(m_base.clauses, q, n1 as int);
                assert(!verdict == cnf_entails(m_base.clauses, n1 as int, q));
            }
        }
        self.rewind();
        proof {
            // rewinding truncates exactly what the query added
            crate::encoder::lemma_intern_formula_extends(snap_m, fv);
            assert(self@.table =~= old_m.table);
            assert(self@.clauses =~= old_m.clauses);
            assert(self@ =~= old_m);
            // the decision over the snapshot-carrying model equals the one
            // the contract states over the pre-snapshot model
            crate::encoder::lemma_intern_formula_congruent(old_m, snap_m, fv);
            assert(intern_formula_m(old_m, fv).1 == q);
            assert(intern_formula_m(old_m, fv).0.counter == n1 as int);
            assert(m_base.clauses == old_m.clauses);
            assert(!verdict == ask_result(old_m, fv));
        }
        !verdict
    }
}

/// The query asserting that `p` is safe.
pub open spec fn safe_formula(p: Position) -> Seq<Seq<Literal<Var>>> {
    seq![seq![Literal::Pos(Var::Safe { pos: p })]]
}

/// The query asserting that `p` holds the Wumpus or a pit.
pub open spec fn unsafe_formula(p: Position) -> Seq<Seq<Literal<Var>>> {
    seq![seq![Literal::Pos(Var::Wumpus { pos: p }), Literal::Pos(Var::Pit { pos: p })]]
}

/// The query asserting that `p` holds a pit.
pub open spec fn pit_formula(p: Position) -> Seq<Seq<Literal<Var>>> {
    seq![seq![Literal::Pos(Var::Pit { pos: p })]]
}

/// The query asserting that `p` holds the Wumpus.
pub open spec fn wumpus_formula(p: Position) -> Seq<Seq<Literal<Var>>> {
    seq![seq![Literal::Pos(Var::Wumpus { pos: p })]]
}

/// What `is_unsafe` does: when the unsafe disjunction is not entailed,
/// nothing changes; when it is, it is told, and then the Wumpus is asked
/// for first — its unit is told when entailed, and the pit unit is told
/// otherwise.
pub open spec fn is_unsafe_m(m: EncoderModel, p: Position) -> (EncoderModel, bool) {
    if !ask_result(m, unsafe_formula(p)) {
        (m, false)
    } else {
        let m1 = tell_m(m, unsafe_formula(p));
        let m2 = if ask_result(m1, wumpus_formula(p)) {
            tell_m(m1, wumpus_formula(p))
        } else {
            tell_m(m1, pit_formula(p))
        };
        (m2, true)
    }
}

impl EncoderSAT {
    /// Whether `p` is provably unsafe; a positive answer is asserted into
    /// the store, then narrowed by asking for the Wumpus first and
    /// falling back to a pit when the query is undecided.
    pub fn is_unsafe<O: SatOracle>(&mut self, p: Position, oracle: &mut O) -> (r: bool)
        requires
            wf(old(self)@),
            old(self)@.snap is None,
            old(self)@.counter + 12 <= usize::MAX,
        ensures
            wf(final(self)@),
            final(self)@.snap is None,
            final(self)@ == is_unsafe_m(old(self)@, p).0,
            r == is_unsafe_m(old(self)@, p).1,
    {
        let ghost old_m = self@;
        let phi: Formula = vec![
            vec![Literal::Pos(Var::Wumpus { pos: p }), Literal::Pos(Var::Pit { pos: p })],
        ];
        proof {
            assert(formula_view(phi) =~~= unsafe_formula(p));
            lemma_one_clause_size(unsafe_formula(p));
            lemma_one_clause_size(pit_formula(p));
            lemma_one_clause_size(wumpus_formula(p));
        }
        if self.ask(&phi, oracle) {
            self.tell(&phi);
            proof {
                crate::encoder::lemma_tell_extends(old_m, unsafe_formula(p));
            }
            let wump: Formula = vec![vec![Literal::Pos(Var::Wumpus { pos: p })]];
            proof {
                assert(formula_view(wump) =~~= wumpus_formula(p));
            }
            if self.ask(&wump, oracle) {
                self.tell(&wump);
                proof {
                    crate::encoder::lemma_tell_extends(
                        tell_m(old_m, unsafe_formula(p)),
                        wumpus_formula(p),
                    );
                }
            } else {
                let pit: Formula = vec![vec![Literal::Pos(Var::Pit { pos: p })]];
                proof {
                    assert(formula_view(pit) =~~= pit_formula(p));
                }
                self.tell(&pit);
                proof {
                    crate::encoder::lemma_tell_extends(
                        tell_m(old_m, unsafe_formula(p)),
                        pit_formula(p),
                    );
                }
            }
            true
        } else {
            false
        }
    }

    /// The entailment query behind a candidate action: moving somewhere
    /// asks that the destination is safe; grabbing asks that the gold is
    /// here.
    pub fn create_query_from_action(a: &Action, p: &Position) -> (r: Formula)
        requires
            !matches!(*a, Action::Shoot(_)),
            !matches!(*a, Action::Exit),
            (match *a {
                Action::Move(dir) => match dir {
                    Direction::North => p.y >= 1,
                    Direction::Ovest => p.x >= 1,
                    Direction::Sud => p.y < usize::MAX,
                    Direction::East => p.x < usize::MAX,
                },
                _ => true,
            }),
        ensures
            formula_view(r) == (match *a {
                Action::Move(dir) => seq![
                    seq![Literal::<Var>::Pos(Var::Safe { pos: p.spec_move(dir) })],
                ],
                _ => seq![seq![Literal::<Var>::Pos(Var::Gold { pos: *p })]],
            }),
    {
        let r: Formula = match *a {
            Action::Move(direction) => vec![
                vec![Literal::Pos(Var::Safe { pos: p.move_clone(direction) })],
            ],
            _ => vec![vec![Literal::Pos(Var::Gold { pos: *p })]],
        };
        proof {
            match *a {
                Action::Move(dir) => {
                    assert(formula_view(r) =~~= seq![
                        seq![Literal::<Var>::Pos(Var::Safe { pos: p.spec_move(dir) })],
                    ]);
                },
                _ => {
                    assert(formula_view(r) =~~= seq![
                        seq![Literal::<Var>::Pos(Var::Gold { pos: *p })],
                    ]);
                },
            }
        }
        r
    }

    /// The ground clauses of one percept: breeze and stench of the
    /// current cell with their observed polarity, and the gold when it
    /// glitters.
    pub fn create_ground_truth_from_perception(p: &Perceptions) -> (r: Formula)
        ensures
            formula_view(r) == ground_truth(*p),
    {
        let mut formula: Formula = Vec::new();
        let breeze_lit = if p.breeze {
            Literal::Pos(Var::Breeze { pos: p.position })
        } else {
            Literal::Neg(Var::Breeze { pos: p.position })
        };
        formula.push(vec![breeze_lit]);
        if p.glitter {
            formula.push(vec![Literal::Pos(Var::Gold { pos: p.position })]);
        }
        let stench_lit = if p.stench {
            Literal::Pos(Var::Stench { pos: p.position })
        } else {
            Literal::Neg(Var::Stench { pos: p.position })
        };
        formula.push(vec![stench_lit]);
        proof {
            assert(formula_view(formula) =~~= ground_truth(*p));
        }
        formula
    }

    /// The positions named by `Safe` literals of the query, in order.
    pub fn safe_positions(&self, query: Formula) -> (r: Vec<Position>)
        ensures
            r@ == safe_in_formula(formula_view(query), formula_view(query).len() as int),
    {
        let ghost fv = formula_view(query);
        let mut result: Vec<Position> = Vec::new();
        let mut i: usize = 0;
        proof {
            assert(result@ =~= safe_in_formula(fv, 0));
        }
        while i < query.len()
            invariant
                i <= fv.len(),
                fv == formula_view(query),
                fv.len() == query@.len(),
                result@ == safe_in_formula(fv, i as int),
            decreases fv.len() - i,
        {
            let clause = &query[i];
            let ghost base = result@;
            let mut j: usize = 0;
            proof {
                assert(clause@ == fv[i as int]);
                assert(result@ =~= base + safe_in_clause(fv[i as int], 0));
            }
            while j < clause.len()
                invariant
                    j <= clause@.len(),
                    i < fv.len(),
                    fv == formula_view(query),
                    clause@ == fv[i as int],
                    result@ == base + safe_in_clause(fv[i as int], j as int),
                decreases clause@.len() - j,
            {
                match clause[j].inner() {
                    Var::Safe { pos } => {
                        result.push(pos);
                    },
                    _ => {},
                }
                proof {
                    assert(result@ =~= base + safe_in_clause(fv[i as int], j + 1));
                }
                j += 1;
            }
            proof {
                assert(safe_in_clause(fv[i as int], clause@.len() as int) == safe_in_clause(
                    fv[i as int],
                    fv[i as int].len() as int,
                ));
                assert(result@ =~= safe_in_formula(fv, i + 1));
            }
            i += 1;
        }
        result
    }
}

/// A one-clause formula holds as many literals as its clause.
pub proof fn lemma_one_clause_size(f: Seq<Seq<Literal<Var>>>)
    requires
        f.len() == 1,
    ensures
        formula_size(f) == f[0].len(),
{
    assert(f.drop_last() =~= Seq::<Seq<Literal<Var>>>::empty());
    assert(formula_size(Seq::<Seq<Literal<Var>>>::empty()) == 0);
    assert(f.last() == f[0]);
}

/// The ground-truth formula of one percept.
pub open spec fn ground_truth(p: Perceptions) -> Seq<Seq<Literal<Var>>> {
    let breeze = if p.breeze {
        Literal::<Var>::Pos(Var::Breeze { pos: p.position })
    } else {
        Literal::<Var>::Neg(Var::Breeze { pos: p.position })
    };
    let stench = if p.stench {
        Literal::<Var>::Pos(Var::Stench { pos: p.position })
    } else {
        Literal::<Var>::Neg(Var::Stench { pos: p.position })
    };
    if p.glitter {
        seq![seq![breeze], seq![Literal::<Var>::Pos(Var::Gold { pos: p.position })], seq![stench]]
    } else {
        seq![seq![breeze], seq![stench]]
    }
}

/// The percept formula holds at most three literals.
pub proof fn lemma_ground_truth_size(p: Perceptions)
    ensures
        formula_size(ground_truth(p)) <= 3,
{
    let g = ground_truth(p);
    assert(formula_size(g) == formula_size(g.drop_last()) + g.last().len());
    assert(formula_size(g.drop_last()) == formula_size(g.drop_last().drop_last())
        + g.drop_last().last().len());
    if p.glitter {
        assert(formula_size(g.drop_last().drop_last()) == formula_size(
            g.drop_last().drop_last().drop_last(),
        ) + g.drop_last().drop_last().last().len());
        assert(g.drop_last().drop_last().drop_last().len() == 0);
    } else {
        assert(g.drop_last().drop_last().len() == 0);
    }
}

/// The `Safe` positions among the first `j` literals of a clause.
pub open spec fn safe_in_clause(c: Seq<Literal<Var>>, j: int) -> Seq<Position>
    decreases j,
{
    if j <= 0 {
        Seq::empty()
    } else {
        safe_in_clause(c, j - 1) + (match c[j - 1].spec_inner() {
            Var::Safe { pos } => seq![pos],
            _ => Seq::empty(),
        })
    }
}

/// The `Safe` positions among the first `i` clauses of a formula.
pub open spec fn safe_in_formula(f: Seq<Seq<Literal<Var>>>, i: int) -> Seq<Position>
    decreases i,
{
    if i <= 0 {
        Seq::empty()
    } else {
        safe_in_formula(f, i - 1) + safe_in_clause(f[i - 1], f[i - 1].len() as int)
    }
}

/// Refutation soundness: when `ask` answers positively, every assignment
/// over the post-interning variable count that satisfies the knowledge
/// base also satisfies the query's interned image.
pub proof fn lemma_ask_soundness(
    m: EncoderModel,
    f: Seq<Seq<Literal<Var>>>,
    a: Seq<bool>,
)
    requires
        ask_result(m, f),
        a.len() == intern_formula_m(m, f).0.counter,
        crate::logic::cnf_holds(a, m.clauses),
    ensures
        crate::logic::cnf_holds(a, intern_formula_m(m, f).1),
{
}

/// `formula_size` grows by the clause taken in at each step.
proof fn lemma_formula_size_take_step(f: Seq<Seq<Literal<Var>>>, i: int)
    requires
        0 <= i < f.len(),
    ensures
        formula_size(f.take(i + 1)) == formula_size(f.take(i)) + f[i].len(),
{
    assert(f.take(i + 1).drop_last() =~= f.take(i));
    assert(f.take(i + 1).last() == f[i]);
}

} // verus!
