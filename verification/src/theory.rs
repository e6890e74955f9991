//! The fixed Wumpus-World theory over an `N x N` grid: unique Wumpus,
//! unique Gold, a safe start cell, breeze/stench physics, and the safety
//! definition.  `theory_formula` states the exact clause sequence the
//! builder emits; `init_kb` builds a fresh knowledge base holding it.

use vstd::prelude::*;

use crate::encoder::{
    agrees, formula_size, lemma_tell_model, table_wf, tell_m, vclause_holds, vformula_holds,
    vlit_holds, wf, EncoderModel, EncoderSAT,
};
use crate::kb::Var;
use crate::logic::{cnf_holds, cnf_in_range, cnf_sat, Literal};
use crate::world::{Direction, Position};

verus! {

/// The `k`-th cell in emission order: `x` major, `y` minor.
pub open spec fn cell(size: int, k: int) -> Position {
    Position { x: (k / size) as usize, y: (k % size) as usize }
}

/// The four directions in emission order.
pub open spec fn spec_dir_at(d: int) -> Direction {
    if d == 0 {
        Direction::North
    } else if d == 1 {
        Direction::Sud
    } else if d == 2 {
        Direction::East
    } else {
        Direction::Ovest
    }
}

/// The first `k` literals of the at-least-one-Wumpus clause.
pub open spec fn wumpus_lits(size: int, k: int) -> Seq<Literal<Var>>
    decreases k,
{
    if k <= 0 {
        Seq::empty()
    } else {
        wumpus_lits(size, k - 1).push(Literal::Pos(Var::Wumpus { pos: cell(size, k - 1) }))
    }
}

/// The first `k` literals of the at-least-one-Gold clause.
pub open spec fn gold_lits(size: int, k: int) -> Seq<Literal<Var>>
    decreases k,
{
    if k <= 0 {
        Seq::empty()
    } else {
        gold_lits(size, k - 1).push(Literal::Pos(Var::Gold { pos: cell(size, k - 1) }))
    }
}

/// The clauses of the `t`-th cell pair: the Wumpus and the Gold are each
/// in at most one place, so no two distinct cells hold both.
pub open spec fn pair_block(size: int, t: int) -> Seq<Seq<Literal<Var>>> {
    let n2 = size * size;
    let k1 = t / n2;
    let k2 = t % n2;
    if k1 != k2 {
        seq![
            seq![
                Literal::Neg(Var::Wumpus { pos: cell(size, k1) }),
                Literal::Neg(Var::Wumpus { pos: cell(size, k2) }),
            ],
            seq![
                Literal::Neg(Var::Gold { pos: cell(size, k1) }),
                Literal::Neg(Var::Gold { pos: cell(size, k2) }),
            ],
        ]
    } else {
        Seq::empty()
    }
}

/// The at-most-one clauses of the first `t` cell pairs.
pub open spec fn pairwise(size: int, t: int) -> Seq<Seq<Literal<Var>>>
    decreases t,
{
    if t <= 0 {
        Seq::empty()
    } else {
        pairwise(size, t - 1) + pair_block(size, t - 1)
    }
}

/// The two implication clauses of one cell and one legal direction: a pit
/// breezes its neighbour, the Wumpus stinks up its neighbour.
pub open spec fn dir_pair(size: int, p: Position, d: int) -> Seq<Seq<Literal<Var>>> {
    let dir = spec_dir_at(d);
    if p.spec_possible_move(dir, size) {
        seq![
            seq![
                Literal::Neg(Var::Pit { pos: p }),
                Literal::Pos(Var::Breeze { pos: p.spec_move(dir) }),
            ],
            seq![
                Literal::Neg(Var::Wumpus { pos: p }),
                Literal::Pos(Var::Stench { pos: p.spec_move(dir) }),
            ],
        ]
    } else {
        Seq::empty()
    }
}

/// The implication clauses of one cell over its first `d` directions.
pub open spec fn dir_pairs(size: int, p: Position, d: int) -> Seq<Seq<Literal<Var>>>
    decreases d,
{
    if d <= 0 {
        Seq::empty()
    } else {
        dir_pairs(size, p, d - 1) + dir_pair(size, p, d - 1)
    }
}

/// Pit literals of the legal neighbours among the first `d` directions.
pub open spec fn pit_lits(size: int, p: Position, d: int) -> Seq<Literal<Var>>
    decreases d,
{
    if d <= 0 {
        Seq::empty()
    } else {
        pit_lits(size, p, d - 1) + if p.spec_possible_move(spec_dir_at(d - 1), size) {
            seq![Literal::Pos(Var::Pit { pos: p.spec_move(spec_dir_at(d - 1)) })]
        } else {
            Seq::empty()
        }
    }
}

/// Wumpus literals of the legal neighbours among the first `d` directions.
pub open spec fn wumpus_adj_lits(size: int, p: Position, d: int) -> Seq<Literal<Var>>
    decreases d,
{
    if d <= 0 {
        Seq::empty()
    } else {
        wumpus_adj_lits(size, p, d - 1) + if p.spec_possible_move(spec_dir_at(d - 1), size) {
            seq![Literal::Pos(Var::Wumpus { pos: p.spec_move(spec_dir_at(d - 1)) })]
        } else {
            Seq::empty()
        }
    }
}

/// All physics clauses of one cell: the per-direction implications, then
/// breeze-implies-some-adjacent-pit, then stench-implies-some-adjacent-
/// Wumpus.
pub open spec fn physics_cell(size: int, p: Position) -> Seq<Seq<Literal<Var>>> {
    dir_pairs(size, p, 4) + seq![
        seq![Literal::Neg(Var::Breeze { pos: p })] + pit_lits(size, p, 4),
        seq![Literal::Neg(Var::Stench { pos: p })] + wumpus_adj_lits(size, p, 4),
    ]
}

/// The physics clauses of the first `k` cells.
pub open spec fn physics(size: int, k: int) -> Seq<Seq<Literal<Var>>>
    decreases k,
{
    if k <= 0 {
        Seq::empty()
    } else {
        physics(size, k - 1) + physics_cell(size, cell(size, k - 1))
    }
}

/// The three safety-definition clauses of one cell.
pub open spec fn safety_cell(p: Position) -> Seq<Seq<Literal<Var>>> {
    seq![
        seq![
            Literal::Pos(Var::Safe { pos: p }),
            Literal::Pos(Var::Wumpus { pos: p }),
            Literal::Pos(Var::Pit { pos: p }),
        ],
        seq![Literal::Neg(Var::Safe { pos: p }), Literal::Neg(Var::Pit { pos: p })],
        seq![Literal::Neg(Var::Safe { pos: p }), Literal::Neg(Var::Wumpus { pos: p })],
    ]
}

/// The safety clauses of the first `k` cells.
pub open spec fn safety(size: int, k: int) -> Seq<Seq<Literal<Var>>>
    decreases k,
{
    if k <= 0 {
        Seq::empty()
    } else {
        safety(size, k - 1) + safety_cell(cell(size, k - 1))
    }
}

/// The whole theory, in emission order.
pub open spec fn theory_formula(size: int) -> Seq<Seq<Literal<Var>>> {
    let n2 = size * size;
    seq![wumpus_lits(size, n2)] + seq![seq![Literal::Pos(Var::Safe { pos: Position { x: 0, y: 0 } })]]
        + pairwise(size, n2 * n2) + seq![gold_lits(size, n2)] + physics(size, n2) + safety(
        size,
        n2,
    )
}

/// The `k`-th cell in emission order.
fn cell_at(size: usize, k: usize) -> (p: Position)
    requires
        size >= 1,
    ensures
        p == cell(size as int, k as int),
{
    Position::new(k / size, k % size)
}

/// The `d`-th direction in emission order.
fn dir_at(d: usize) -> (r: Direction)
    requires
        d < 4,
    ensures
        r == spec_dir_at(d as int),
{
    if d == 0 {
        Direction::North
    } else if d == 1 {
        Direction::Sud
    } else if d == 2 {
        Direction::East
    } else {
        Direction::Ovest
    }
}

/// Build a fresh knowledge base holding the Wumpus-World theory of a
/// `size x size` grid: exactly the clauses of `theory_formula`, told to
/// an empty encoder in emission order.
#[verifier::loop_isolation(false)]
#[verifier::rlimit(60)]
pub fn init_kb(size: usize) -> (r: EncoderSAT)
    requires
        1 <= size <= 100,
    ensures
        wf(r@),
        r@.snap is None,
        r@ == tell_m(
            EncoderModel { table: Seq::empty(), clauses: Seq::empty(), counter: 0, snap: None },
            theory_formula(size as int),
        ),
{
    let ghost sz = size as int;
    proof {
        assert(1 <= sz * sz <= 10000) by (nonlinear_arith)
            requires 1 <= sz <= 100;
    }
    let n2 = size * size;
    let ghost gn2 = sz * sz;
    proof {
        assert(1 <= gn2 * gn2 <= 100000000) by (nonlinear_arith)
            requires 1 <= gn2 <= 10000;
    }
    let mut formula: Vec<Vec<Literal<Var>>> = Vec::new();

    // the Wumpus exists somewhere
    let mut big: Vec<Literal<Var>> = Vec::new();
    let mut k: usize = 0;
    while k < n2
        invariant
            k <= n2,
            size >= 1,
            n2 == gn2,
            big@ == wumpus_lits(sz, k as int),
        decreases n2 - k,
    {
        let p = cell_at(size, k);
        big.push(Literal::Pos(Var::Wumpus { pos: p }));
        k += 1;
    }
    formula.push(big);

    // the start cell is safe
    formula.push(vec![Literal::Pos(Var::Safe { pos: Position::new(0, 0) })]);
    let ghost base2 = seq![wumpus_lits(sz, gn2)] + seq![
        seq![Literal::<Var>::Pos(Var::Safe { pos: Position { x: 0, y: 0 } })],
    ];
    proof {
        assert(crate::kb::formula_view(formula) =~~= base2 + pairwise(sz, 0));
    }

    // the Wumpus and the Gold are each in at most one cell
    let mut t: usize = 0;
    let mut k1: usize = 0;
    while k1 < n2
        invariant
            k1 <= n2,
            size >= 1,
            n2 == gn2,
            1 <= gn2 <= 10000,
            t as int == k1 * gn2,
            t as int <= gn2 * gn2,
            crate::kb::formula_view(formula) == base2 + pairwise(sz, t as int),
        decreases n2 - k1,
    {
        let mut k2: usize = 0;
        while k2 < n2
            invariant
                k2 <= n2,
                k1 < n2,
                size >= 1,
                n2 == gn2,
                1 <= gn2 <= 10000,
                t as int == k1 * gn2 + k2,
                crate::kb::formula_view(formula) == base2 + pairwise(sz, t as int),
            decreases n2 - k2,
        {
            proof {
                assert(k1 * gn2 + k2 < gn2 * gn2) by (nonlinear_arith)
                    requires 0 <= k1 < gn2, 0 <= k2 < gn2, gn2 >= 1;
                assert(gn2 * gn2 <= 100000000) by (nonlinear_arith)
                    requires 1 <= gn2 <= 10000;
                assert((k1 * gn2 + k2) / gn2 == k1 as int && (k1 * gn2 + k2) % gn2 == k2 as int)
                    by (nonlinear_arith)
                    requires 0 <= k2 < gn2, 0 <= k1, gn2 >= 1;
            }
            let ghost fv0 = crate::kb::formula_view(formula);
            if k1 != k2 {
                let p1 = cell_at(size, k1);
                let p2 = cell_at(size, k2);
                let c1: Vec<Literal<Var>> = vec![
                    Literal::Neg(Var::Wumpus { pos: p1 }),
                    Literal::Neg(Var::Wumpus { pos: p2 }),
                ];
                let ghost c1v = c1@;
                formula.push(c1);
                let c2: Vec<Literal<Var>> = vec![
                    Literal::Neg(Var::Gold { pos: p1 }),
                    Literal::Neg(Var::Gold { pos: p2 }),
                ];
                let ghost c2v = c2@;
                formula.push(c2);
                proof {
                    assert(crate::kb::formula_view(formula) =~~= fv0.push(c1v).push(c2v));
                    assert(pair_block(sz, t as int) =~~= seq![c1v, c2v]);
                    assert(base2 + pairwise(sz, t + 1) =~~= fv0.push(c1v).push(c2v));
                    assert(crate::kb::formula_view(formula) =~~= base2 + pairwise(sz, t + 1));
                }
            } else {
                proof {
                    assert(cell(sz, k1 as int) == cell(sz, k2 as int));
                    assert(pair_block(sz, t as int).len() == 0);
                    assert(crate::kb::formula_view(formula) =~~= base2 + pairwise(sz, t + 1));
                }
            }
            t += 1;
            k2 += 1;
        }
        proof {
            assert(k1 * gn2 + gn2 == (k1 + 1) * gn2) by (nonlinear_arith);
            assert((k1 + 1) * gn2 <= gn2 * gn2) by (nonlinear_arith)
                requires 0 <= k1 + 1 <= gn2, gn2 >= 1;
        }
        k1 += 1;
    }
    proof {
        assert(t as int == gn2 * gn2);
    }
    let ghost base3 = base2 + pairwise(sz, gn2 * gn2);

    // the Gold exists somewhere
    let mut big2: Vec<Literal<Var>> = Vec::new();
    let mut k3: usize = 0;
    while k3 < n2
        invariant
            k3 <= n2,
            size >= 1,
            n2 == gn2,
            big2@ == gold_lits(sz, k3 as int),
        decreases n2 - k3,
    {
        let p = cell_at(size, k3);
        big2.push(Literal::Pos(Var::Gold { pos: p }));
        k3 += 1;
    }
    let ghost fv1 = crate::kb::formula_view(formula);
    formula.push(big2);
    let ghost base4 = base3 + seq![gold_lits(sz, gn2)];
    proof {
        assert(crate::kb::formula_view(formula) =~~= base4 + physics(sz, 0));
    }

    // physics: pits breeze their neighbours, the Wumpus stinks up its
    // neighbours, and conversely
    let mut k4: usize = 0;
    while k4 < n2
        invariant
            k4 <= n2,
            1 <= size <= 100,
            n2 == gn2,
            crate::kb::formula_view(formula) == base4 + physics(sz, k4 as int),
        decreases n2 - k4,
    {
        let p = cell_at(size, k4);
        let mut vento: Vec<Literal<Var>> = vec![Literal::Neg(Var::Breeze { pos: p })];
        let mut puzza: Vec<Literal<Var>> = vec![Literal::Neg(Var::Stench { pos: p })];
        let ghost base_cell = base4 + physics(sz, k4 as int);
        proof {
            assert(crate::kb::formula_view(formula) =~~= base_cell + dir_pairs(sz, p, 0));
            assert(vento@ =~= seq![Literal::<Var>::Neg(Var::Breeze { pos: p })] + pit_lits(
                sz,
                p,
                0,
            ));
            assert(puzza@ =~= seq![Literal::<Var>::Neg(Var::Stench { pos: p })] + wumpus_adj_lits(
                sz,
                p,
                0,
            ));
        }
        let mut d: usize = 0;
        while d < 4
            invariant
                d <= 4,
                1 <= size <= 100,
                n2 == gn2,
                p == cell(sz, k4 as int),
                base_cell == base4 + physics(sz, k4 as int),
                crate::kb::formula_view(formula) == base_cell + dir_pairs(sz, p, d as int),
                vento@ == seq![Literal::<Var>::Neg(Var::Breeze { pos: p })] + pit_lits(
                    sz,
                    p,
                    d as int,
                ),
                puzza@ == seq![Literal::<Var>::Neg(Var::Stench { pos: p })] + wumpus_adj_lits(
                    sz,
                    p,
                    d as int,
                ),
            decreases 4 - d,
        {
            let dir = dir_at(d);
            let ghost fv2 = crate::kb::formula_view(formula);
            if p.possible_move(dir, size) {
                let mv = p.move_clone(dir);
                let c1: Vec<Literal<Var>> = vec![
                    Literal::Neg(Var::Pit { pos: p }),
                    Literal::Pos(Var::Breeze { pos: mv }),
                ];
                let ghost c1v = c1@;
                formula.push(c1);
                let c2: Vec<Literal<Var>> = vec![
                    Literal::Neg(Var::Wumpus { pos: p }),
                    Literal::Pos(Var::Stench { pos: mv }),
                ];
                let ghost c2v = c2@;
                formula.push(c2);
                vento.push(Literal::Pos(Var::Pit { pos: mv }));
                puzza.push(Literal::Pos(Var::Wumpus { pos: mv }));
                proof {
                    assert(crate::kb::formula_view(formula) =~~= fv2.push(c1v).push(c2v));
                    assert(dir_pair(sz, p, d as int) =~~= seq![c1v, c2v]);
                    assert(base_cell + dir_pairs(sz, p, d + 1) =~~= fv2.push(c1v).push(c2v));
                    assert(crate::kb::formula_view(formula) =~~= base_cell + dir_pairs(
                        sz,
                        p,
                        d + 1,
                    ));
                    assert(vento@ =~= seq![Literal::<Var>::Neg(Var::Breeze { pos: p })] + pit_lits(
                        sz,
                        p,
                        d + 1,
                    ));
                    assert(puzza@ =~= seq![Literal::<Var>::Neg(Var::Stench { pos: p })]
                        + wumpus_adj_lits(sz, p, d + 1));
                }
            } else {
                proof {
                    assert(crate::kb::formula_view(formula) =~~= base_cell + dir_pairs(
                        sz,
                        p,
                        d + 1,
                    ));
                    assert(vento@ =~= seq![Literal::<Var>::Neg(Var::Breeze { pos: p })] + pit_lits(
                        sz,
                        p,
                        d + 1,
                    ));
                    assert(puzza@ =~= seq![Literal::<Var>::Neg(Var::Stench { pos: p })]
                        + wumpus_adj_lits(sz, p, d + 1));
                }
            }
            d += 1;
        }
        let ghost fv3 = crate::kb::formula_view(formula);
        let ghost vv = vento@;
        let ghost pv = puzza@;
        formula.push(vento);
        formula.push(puzza);
        proof {
            assert(crate::kb::formula_view(formula) =~~= fv3.push(vv).push(pv));
            assert(physics_cell(sz, p) =~~= dir_pairs(sz, p, 4) + seq![vv, pv]);
            assert(base4 + physics(sz, k4 + 1) =~~= fv3.push(vv).push(pv));
            assert(crate::kb::formula_view(formula) =~~= base4 + physics(sz, k4 + 1));
        }
        k4 += 1;
    }
    let ghost base5 = base4 + physics(sz, gn2);

    // a cell is safe exactly when it holds neither the Wumpus nor a pit
    proof {
        assert(crate::kb::formula_view(formula) =~~= base5 + safety(sz, 0));
    }
    let mut k5: usize = 0;
    while k5 < n2
        invariant
            k5 <= n2,
            size >= 1,
            n2 == gn2,
            crate::kb::formula_view(formula) == base5 + safety(sz, k5 as int),
        decreases n2 - k5,
    {
        let p = cell_at(size, k5);
        let ghost fv5 = crate::kb::formula_view(formula);
        let c1: Vec<Literal<Var>> = vec![
            Literal::Pos(Var::Safe { pos: p }),
            Literal::Pos(Var::Wumpus { pos: p }),
            Literal::Pos(Var::Pit { pos: p }),
        ];
        let ghost c1v = c1@;
        formula.push(c1);
        let c2: Vec<Literal<Var>> = vec![
            Literal::Neg(Var::Safe { pos: p }),
            Literal::Neg(Var::Pit { pos: p }),
        ];
        let ghost c2v = c2@;
        formula.push(c2);
        let c3: Vec<Literal<Var>> = vec![
            Literal::Neg(Var::Safe { pos: p }),
            Literal::Neg(Var::Wumpus { pos: p }),
        ];
        let ghost c3v = c3@;
        formula.push(c3);
        proof {
            assert(crate::kb::formula_view(formula) =~~= fv5.push(c1v).push(c2v).push(c3v));
            assert(safety_cell(p) =~~= seq![c1v, c2v, c3v]);
            assert(base5 + safety(sz, k5 + 1) =~~= fv5.push(c1v).push(c2v).push(c3v));
            assert(crate::kb::formula_view(formula) =~~= base5 + safety(sz, k5 + 1));
        }
        k5 += 1;
    }
    proof {
        assert(crate::kb::formula_view(formula) =~~= theory_formula(sz));
        lemma_theory_size(sz);
    }
    let mut kb = EncoderSAT::new();
    kb.tell(&formula);
    proof {
        crate::encoder::lemma_tell_extends(
            EncoderModel { table: Seq::empty(), clauses: Seq::empty(), counter: 0, snap: None },
            theory_formula(sz),
        );
    }
    kb
}

/// Truth of a domain literal under the intended model of the theory:
/// the Wumpus sits in the far corner, the gold lies at the origin,
/// there are no pits, it stinks next to the corner, and every other
/// cell is safe.
pub open spec fn corner(size: int) -> Position {
    Position { x: (size - 1) as usize, y: (size - 1) as usize }
}

/// Whether two cells share an edge.
pub open spec fn adjacent(q: Position, c: Position) -> bool {
    ||| (q.x == c.x && q.y + 1 == c.y)
    ||| (q.x == c.x && c.y + 1 == q.y)
    ||| (q.y == c.y && q.x + 1 == c.x)
    ||| (q.y == c.y && c.x + 1 == q.x)
}

/// The intended model.
pub open spec fn corner_model(size: int, v: Var) -> bool {
    match v {
        Var::Wumpus { pos } => pos == corner(size),
        Var::Gold { pos } => pos == (Position { x: 0, y: 0 }),
        Var::Stench { pos } => adjacent(pos, corner(size)),
        Var::Safe { pos } => pos != corner(size),
        _ => false,
    }
}

/// Truth of one literal under the intended model.
pub open spec fn dlit_holds(size: int, l: Literal<Var>) -> bool {
    match l {
        Literal::Pos(v) => corner_model(size, v),
        Literal::Neg(v) => !corner_model(size, v),
    }
}

/// Truth of a clause: some literal is true.
pub open spec fn dclause_holds(size: int, c: Seq<Literal<Var>>) -> bool {
    exists|j: int| 0 <= j < c.len() && dlit_holds(size, #[trigger] c[j])
}

/// Truth of a whole formula.
pub open spec fn dformula_holds(size: int, f: Seq<Seq<Literal<Var>>>) -> bool {
    forall|i: int| 0 <= i < f.len() ==> dclause_holds(size, #[trigger] f[i])
}

/// Truth of a concatenation: both halves are true.
proof fn lemma_dformula_add(size: int, x: Seq<Seq<Literal<Var>>>, y: Seq<Seq<Literal<Var>>>)
    ensures
        dformula_holds(size, x + y) == (dformula_holds(size, x) && dformula_holds(size, y)),
{
    if dformula_holds(size, x + y) {
        assert forall|i: int| 0 <= i < x.len() implies dclause_holds(size, #[trigger] x[i]) by {
            assert((x + y)[i] == x[i]);
        }
        assert forall|i: int| 0 <= i < y.len() implies dclause_holds(size, #[trigger] y[i]) by {
            assert((x + y)[x.len() + i] == y[i]);
        }
    }
    if dformula_holds(size, x) && dformula_holds(size, y) {
        assert forall|i: int| 0 <= i < (x + y).len() implies dclause_holds(
            size,
            #[trigger] (x + y)[i],
        ) by {
            if i < x.len() {
                assert((x + y)[i] == x[i]);
            } else {
                assert((x + y)[i] == y[i - x.len()]);
            }
        }
    }
}

/// Cell coordinates stay on the board.
proof fn lemma_cell_bounds(size: int, k: int)
    requires
        1 <= size <= usize::MAX,
        0 <= k < size * size,
    ensures
        cell(size, k).x < size,
        cell(size, k).y < size,
{
    assert(k / size < size && 0 <= k / size && 0 <= k % size < size) by (nonlinear_arith)
        requires size >= 1, 0 <= k < size * size;
}

/// Distinct in-range indices name distinct cells.
proof fn lemma_cell_injective(size: int, k1: int, k2: int)
    requires
        1 <= size <= usize::MAX,
        0 <= k1 < size * size,
        0 <= k2 < size * size,
        cell(size, k1) == cell(size, k2),
    ensures
        k1 == k2,
{
    assert(0 <= k1 / size < size && 0 <= k1 % size < size) by (nonlinear_arith)
        requires size >= 1, 0 <= k1 < size * size;
    assert(0 <= k2 / size < size && 0 <= k2 % size < size) by (nonlinear_arith)
        requires size >= 1, 0 <= k2 < size * size;
    assert(cell(size, k1).x == k1 / size && cell(size, k1).y == k1 % size);
    assert(cell(size, k2).x == k2 / size && cell(size, k2).y == k2 % size);
    vstd::arithmetic::div_mod::lemma_fundamental_div_mod(k1, size);
    vstd::arithmetic::div_mod::lemma_fundamental_div_mod(k2, size);
}

/// The last cell index names the far corner.
proof fn lemma_corner_index(size: int)
    requires
        1 <= size <= usize::MAX,
    ensures
        cell(size, size * size - 1) == corner(size),
{
    assert((size * size - 1) / size == size - 1 && (size * size - 1) % size == size - 1)
        by (nonlinear_arith)
        requires size >= 1;
}

/// The at-least-one clauses enumerate the cells in order.
proof fn lemma_big_lits_index(size: int, k: int, j: int)
    requires
        0 <= j < k,
    ensures
        wumpus_lits(size, k).len() == k,
        wumpus_lits(size, k)[j] == Literal::<Var>::Pos(Var::Wumpus { pos: cell(size, j) }),
        gold_lits(size, k).len() == k,
        gold_lits(size, k)[j] == Literal::<Var>::Pos(Var::Gold { pos: cell(size, j) }),
    decreases k,
{
    lemma_big_lits_len(size, k);
    if j < k - 1 {
        lemma_big_lits_index(size, k - 1, j);
    }
}

/// The pairwise section holds under the intended model: the Wumpus and
/// the gold each sit in a single cell.
proof fn lemma_pairwise_sat(size: int, t: int)
    requires
        1 <= size <= usize::MAX,
        0 <= t <= size * size * (size * size),
    ensures
        dformula_holds(size, pairwise(size, t)),
    decreases t,
{
    let n2 = size * size;
    if t > 0 {
        lemma_pairwise_sat(size, t - 1);
        lemma_dformula_add(size, pairwise(size, t - 1), pair_block(size, t - 1));
        let b = pair_block(size, t - 1);
        let k1 = (t - 1) / n2;
        let k2 = (t - 1) % n2;
        assert(0 <= (t - 1) / n2 < n2 && 0 <= (t - 1) % n2 < n2) by (nonlinear_arith)
            requires n2 >= 1, 0 <= t - 1 < n2 * n2;
        if k1 != k2 {
            // at most one of the two distinct cells is the corner, and
            // at most one is the origin
            assert(dclause_holds(size, b[0])) by {
                if cell(size, k1) == corner(size) && cell(size, k2) == corner(size) {
                    lemma_cell_injective(size, k1, k2);
                }
                if cell(size, k1) != corner(size) {
                    assert(dlit_holds(size, b[0][0]));
                } else {
                    assert(dlit_holds(size, b[0][1]));
                }
            }
            assert(dclause_holds(size, b[1])) by {
                assert(cell(size, 0) == (Position { x: 0, y: 0 }));
                if cell(size, k1) == cell(size, 0) && cell(size, k2) == cell(size, 0) {
                    lemma_cell_injective(size, k1, k2);
                }
                if cell(size, k1) != (Position { x: 0, y: 0 }) {
                    assert(dlit_holds(size, b[1][0]));
                } else {
                    assert(dlit_holds(size, b[1][1]));
                }
            }
            assert forall|i: int| 0 <= i < b.len() implies dclause_holds(
                size,
                #[trigger] b[i],
            ) by {
                if i != 0 {
                    assert(i == 1);
                }
            }
        }
    }
}

/// A legal step lands on a cell adjacent to where it started.
proof fn lemma_move_adjacent(size: int, p: Position, d: int)
    requires
        1 <= size <= usize::MAX,
        0 <= d < 4,
        p.spec_possible_move(spec_dir_at(d), size),
        p.x < size,
        p.y < size,
    ensures
        adjacent(p.spec_move(spec_dir_at(d)), p),
        adjacent(p, p.spec_move(spec_dir_at(d))),
{
    if d == 0 {
    } else if d == 1 {
    } else if d == 2 {
    } else {
        assert(d == 3);
    }
}

/// Whenever `p` is adjacent to the corner, some legal direction steps
/// from `p` onto the corner.
proof fn lemma_step_to_corner(size: int, p: Position)
    requires
        2 <= size <= usize::MAX,
        p.x < size,
        p.y < size,
        adjacent(p, corner(size)),
    ensures
        exists|d: int|
            0 <= d < 4 && p.spec_possible_move(spec_dir_at(d), size) && p.spec_move(
                #[trigger] spec_dir_at(d),
            ) == corner(size),
{
    let c = corner(size);
    if p.x == c.x && p.y + 1 == c.y {
        assert(p.spec_possible_move(spec_dir_at(1), size) && p.spec_move(spec_dir_at(1)) == c);
    } else if p.x == c.x && c.y + 1 == p.y {
        assert(p.spec_possible_move(spec_dir_at(0), size) && p.spec_move(spec_dir_at(0)) == c);
    } else if p.y == c.y && p.x + 1 == c.x {
        assert(p.spec_possible_move(spec_dir_at(2), size) && p.spec_move(spec_dir_at(2)) == c);
    } else {
        assert(p.spec_possible_move(spec_dir_at(3), size) && p.spec_move(spec_dir_at(3)) == c);
    }
}

/// The adjacent-Wumpus literal of every legal direction occurs in the
/// accumulated list.
proof fn lemma_adj_lits_contains(size: int, p: Position, d: int, dd: int)
    requires
        0 <= d < dd <= 4,
        p.spec_possible_move(spec_dir_at(d), size),
    ensures
        wumpus_adj_lits(size, p, dd).contains(
            Literal::<Var>::Pos(Var::Wumpus { pos: p.spec_move(spec_dir_at(d)) }),
        ),
    decreases dd,
{
    let lit = Literal::<Var>::Pos(Var::Wumpus { pos: p.spec_move(spec_dir_at(d)) });
    let prefix = wumpus_adj_lits(size, p, dd - 1);
    if d == dd - 1 {
        assert(wumpus_adj_lits(size, p, dd)[prefix.len() as int] == lit);
    } else {
        lemma_adj_lits_contains(size, p, d, dd - 1);
        let j = choose|j: int| 0 <= j < prefix.len() && prefix[j] == lit;
        assert(wumpus_adj_lits(size, p, dd)[j] == lit);
    }
}

/// The physics section holds under the intended model: with no pits
/// there are no breezes, and the stench ring around the corner matches
/// the Wumpus's position exactly.
proof fn lemma_physics_sat(size: int, k: int)
    requires
        2 <= size <= usize::MAX,
        0 <= k <= size * size,
    ensures
        dformula_holds(size, physics(size, k)),
    decreases k,
{
    if k > 0 {
        lemma_physics_sat(size, k - 1);
        let p = cell(size, k - 1);
        assert(size * size >= 1) by (nonlinear_arith)
            requires size >= 1;
        lemma_cell_bounds(size, k - 1);
        lemma_dformula_add(size, physics(size, k - 1), physics_cell(size, p));
        // the per-direction implications
        assert forall|d: int| 0 <= d <= 4 implies dformula_holds(
            size,
            #[trigger] dir_pairs(size, p, d),
        ) by {
            lemma_dir_pairs_sat(size, p, d);
        }
        let tail = seq![
            seq![Literal::<Var>::Neg(Var::Breeze { pos: p })] + pit_lits(size, p, 4),
            seq![Literal::<Var>::Neg(Var::Stench { pos: p })] + wumpus_adj_lits(size, p, 4),
        ];
        lemma_dformula_add(size, dir_pairs(size, p, 4), tail);
        // breeze-implies-pit: there are no breezes
        assert(dclause_holds(size, tail[0])) by {
            assert(tail[0][0] == Literal::<Var>::Neg(Var::Breeze { pos: p }));
            assert(dlit_holds(size, tail[0][0]));
        }
        // stench-implies-Wumpus: a stench only rings the corner
        assert(dclause_holds(size, tail[1])) by {
            if !adjacent(p, corner(size)) {
                assert(tail[1][0] == Literal::<Var>::Neg(Var::Stench { pos: p }));
                assert(dlit_holds(size, tail[1][0]));
            } else {
                lemma_step_to_corner(size, p);
                let d = choose|d: int|
                    0 <= d < 4 && p.spec_possible_move(spec_dir_at(d), size) && p.spec_move(
                        #[trigger] spec_dir_at(d),
                    ) == corner(size);
                lemma_adj_lits_contains(size, p, d, 4);
                let lit = Literal::<Var>::Pos(Var::Wumpus { pos: corner(size) });
                let adj = wumpus_adj_lits(size, p, 4);
                let j = choose|j: int| 0 <= j < adj.len() && adj[j] == lit;
                assert(tail[1][1 + j] == lit);
                assert(dlit_holds(size, lit));
            }
        }
        assert forall|i: int| 0 <= i < tail.len() implies dclause_holds(
            size,
            #[trigger] tail[i],
        ) by {
            if i != 0 {
                assert(i == 1);
            }
        }
    }
}

/// Each direction's implication clauses hold under the intended model.
proof fn lemma_dir_pairs_sat(size: int, p: Position, d: int)
    requires
        2 <= size <= usize::MAX,
        0 <= d <= 4,
        p.x < size,
        p.y < size,
    ensures
        dformula_holds(size, dir_pairs(size, p, d)),
    decreases d,
{
    if d > 0 {
        lemma_dir_pairs_sat(size, p, d - 1);
        lemma_dformula_add(size, dir_pairs(size, p, d - 1), dir_pair(size, p, d - 1));
        let b = dir_pair(size, p, d - 1);
        if p.spec_possible_move(spec_dir_at(d - 1), size) {
            // no pits, so a pit implies anything; the Wumpus stinks up
            // every neighbour of the corner
            assert(dclause_holds(size, b[0])) by {
                assert(b[0][0] == Literal::<Var>::Neg(Var::Pit { pos: p }));
                assert(dlit_holds(size, b[0][0]));
            }
            assert(dclause_holds(size, b[1])) by {
                if p != corner(size) {
                    assert(b[1][0] == Literal::<Var>::Neg(Var::Wumpus { pos: p }));
                    assert(dlit_holds(size, b[1][0]));
                } else {
                    lemma_move_adjacent(size, p, d - 1);
                    assert(b[1][1] == Literal::<Var>::Pos(
                        Var::Stench { pos: p.spec_move(spec_dir_at(d - 1)) },
                    ));
                    assert(dlit_holds(size, b[1][1]));
                }
            }
            assert forall|i: int| 0 <= i < b.len() implies dclause_holds(
                size,
                #[trigger] b[i],
            ) by {
                if i != 0 {
                    assert(i == 1);
                }
            }
        }
    }
}

/// The safety section holds under the intended model: only the corner
/// is unsafe, and only because of the Wumpus.
proof fn lemma_safety_sat(size: int, k: int)
    requires
        1 <= size <= usize::MAX,
        0 <= k <= size * size,
    ensures
        dformula_holds(size, safety(size, k)),
    decreases k,
{
    if k > 0 {
        lemma_safety_sat(size, k - 1);
        let p = cell(size, k - 1);
        let b = safety_cell(p);
        lemma_dformula_add(size, safety(size, k - 1), b);
        assert(dclause_holds(size, b[0])) by {
            if p == corner(size) {
                assert(dlit_holds(size, b[0][1]));
            } else {
                assert(dlit_holds(size, b[0][0]));
            }
        }
        assert(dclause_holds(size, b[1])) by {
            assert(dlit_holds(size, b[1][1]));
        }
        assert(dclause_holds(size, b[2])) by {
            if p == corner(size) {
                assert(dlit_holds(size, b[2][0]));
            } else {
                assert(dlit_holds(size, b[2][1]));
            }
        }
        assert forall|i: int| 0 <= i < b.len() implies dclause_holds(size, #[trigger] b[i]) by {
            if i != 0 && i != 1 {
                assert(i == 2);
            }
        }
    }
}

/// World theory consistency: on every board of side at least two, the
/// theory the builder emits is satisfied by the intended model — the
/// Wumpus in the far corner, the gold at the origin, no pits, a stench
/// ring around the corner, every other cell safe.  The theory is
/// therefore satisfiable.
pub proof fn lemma_theory_satisfiable(size: int)
    requires
        2 <= size <= usize::MAX,
    ensures
        dformula_holds(size, theory_formula(size)),
{
    assert(size * size >= 4) by (nonlinear_arith)
        requires size >= 2;
    let n2 = size * size;
    assert(0 <= n2 * n2) by (nonlinear_arith)
        requires n2 >= 1;
    let s1 = seq![wumpus_lits(size, n2)];
    let s2 = seq![seq![Literal::<Var>::Pos(Var::Safe { pos: Position { x: 0, y: 0 } })]];
    let s3 = pairwise(size, n2 * n2);
    let s4 = seq![gold_lits(size, n2)];
    let s5 = physics(size, n2);
    let s6 = safety(size, n2);
    // the Wumpus clause is witnessed by the corner cell
    assert(dformula_holds(size, s1)) by {
        lemma_big_lits_index(size, n2, n2 - 1);
        lemma_corner_index(size);
        assert(s1[0][n2 - 1] == Literal::<Var>::Pos(Var::Wumpus { pos: corner(size) }));
        assert(dlit_holds(size, s1[0][n2 - 1]));
        assert(dclause_holds(size, s1[0]));
        assert forall|i: int| 0 <= i < s1.len() implies dclause_holds(
            size,
            #[trigger] s1[i],
        ) by {
            assert(i == 0);
        }
    }
    // the origin is not the corner, so it is safe
    assert(dformula_holds(size, s2)) by {
        assert(corner(size).x == size - 1 >= 1);
        assert(dlit_holds(size, s2[0][0]));
        assert(dclause_holds(size, s2[0]));
        assert forall|i: int| 0 <= i < s2.len() implies dclause_holds(
            size,
            #[trigger] s2[i],
        ) by {
            assert(i == 0);
        }
    }
    lemma_pairwise_sat(size, n2 * n2);
    // the gold clause is witnessed by the origin cell
    assert(dformula_holds(size, s4)) by {
        lemma_big_lits_index(size, n2, 0);
        assert(cell(size, 0) == (Position { x: 0, y: 0 }));
        assert(s4[0][0] == Literal::<Var>::Pos(Var::Gold { pos: Position { x: 0, y: 0 } }));
        assert(dlit_holds(size, s4[0][0]));
        assert(dclause_holds(size, s4[0]));
        assert forall|i: int| 0 <= i < s4.len() implies dclause_holds(
            size,
            #[trigger] s4[i],
        ) by {
            assert(i == 0);
        }
    }
    lemma_physics_sat(size, n2);
    lemma_safety_sat(size, n2);
    lemma_dformula_add(size, s1, s2);
    lemma_dformula_add(size, s1 + s2, s3);
    lemma_dformula_add(size, s1 + s2 + s3, s4);
    lemma_dformula_add(size, s1 + s2 + s3 + s4, s5);
    lemma_dformula_add(size, s1 + s2 + s3 + s4 + s5, s6);
}

/// World theory consistency, at the store level: the knowledge base the
/// builder emits — the interned image of the theory, exactly what
/// `init_kb` returns — is itself a satisfiable CNF, because interning
/// carries the intended model through the name table.  A correct oracle
/// therefore reports the fresh knowledge base consistent.
pub proof fn lemma_init_kb_satisfiable(size: int)
    requires
        2 <= size <= 100,
    ensures
        ({
            let m = tell_m(
                EncoderModel { table: Seq::empty(), clauses: Seq::empty(), counter: 0, snap: None },
                theory_formula(size),
            );
            cnf_sat(m.clauses, m.counter)
        }),
{
    let val = |v: Var| corner_model(size, v);
    let f = theory_formula(size);
    lemma_theory_satisfiable(size);
    assert(vformula_holds(val, f)) by {
        assert forall|i: int| 0 <= i < f.len() implies vclause_holds(val, #[trigger] f[i]) by {
            assert(dclause_holds(size, f[i]));
            let j = choose|j: int| 0 <= j < f[i].len() && dlit_holds(size, #[trigger] f[i][j]);
            assert(vlit_holds(val, f[i][j]));
        }
    }
    let m0 = EncoderModel { table: Seq::empty(), clauses: Seq::empty(), counter: 0, snap: None };
    lemma_theory_size(size);
    let a0 = Seq::<bool>::empty();
    assert(table_wf(m0.table, 0));
    assert(cnf_in_range(m0.clauses, 0));
    assert(cnf_holds(a0, m0.clauses));
    assert(agrees(a0, m0.table, val));
    let b = lemma_tell_model(m0, f, val, a0);
    let mt = tell_m(m0, f);
    assert(b.len() == mt.counter && cnf_holds(b, mt.clauses));
    assert(cnf_sat(mt.clauses, mt.counter));
}

/// Concatenation splits the literal count.
proof fn lemma_formula_size_add(a: Seq<Seq<Literal<Var>>>, b: Seq<Seq<Literal<Var>>>)
    ensures
        formula_size(a + b) == formula_size(a) + formula_size(b),
    decreases b.len(),
{
    if b.len() == 0 {
        assert(a + b =~= a);
    } else {
        assert((a + b).drop_last() =~= a + b.drop_last());
        assert((a + b).last() == b.last());
        lemma_formula_size_add(a, b.drop_last());
    }
}

/// The at-least-one clauses have one literal per cell.
proof fn lemma_big_lits_len(size: int, k: int)
    requires
        k >= 0,
    ensures
        wumpus_lits(size, k).len() == k,
        gold_lits(size, k).len() == k,
    decreases k,
{
    if k > 0 {
        lemma_big_lits_len(size, k - 1);
    }
}

/// The pairwise section holds at most four literals per cell pair.
proof fn lemma_pairwise_size(size: int, t: int)
    requires
        t >= 0,
    ensures
        formula_size(pairwise(size, t)) <= 4 * t,
    decreases t,
{
    if t > 0 {
        lemma_pairwise_size(size, t - 1);
        lemma_formula_size_add(pairwise(size, t - 1), pair_block(size, t - 1));
        let b = pair_block(size, t - 1);
        if b.len() > 0 {
            assert(formula_size(b) == formula_size(b.drop_last()) + b.last().len());
            assert(formula_size(b.drop_last()) == formula_size(b.drop_last().drop_last())
                + b.drop_last().last().len());
            assert(b.drop_last().drop_last().len() == 0);
        }
    }
}

/// The adjacent-pit and adjacent-Wumpus literal lists are at most one
/// literal per direction.
proof fn lemma_adj_lits_len(size: int, p: Position, d: int)
    requires
        d >= 0,
    ensures
        pit_lits(size, p, d).len() <= d,
        wumpus_adj_lits(size, p, d).len() <= d,
    decreases d,
{
    if d > 0 {
        lemma_adj_lits_len(size, p, d - 1);
    }
}

/// The per-direction implications hold at most four literals each.
proof fn lemma_dir_pairs_size(size: int, p: Position, d: int)
    requires
        d >= 0,
    ensures
        formula_size(dir_pairs(size, p, d)) <= 4 * d,
    decreases d,
{
    if d > 0 {
        lemma_dir_pairs_size(size, p, d - 1);
        lemma_formula_size_add(dir_pairs(size, p, d - 1), dir_pair(size, p, d - 1));
        let b = dir_pair(size, p, d - 1);
        if b.len() > 0 {
            assert(formula_size(b) == formula_size(b.drop_last()) + b.last().len());
            assert(formula_size(b.drop_last()) == formula_size(b.drop_last().drop_last())
                + b.drop_last().last().len());
            assert(b.drop_last().drop_last().len() == 0);
        }
    }
}

/// The physics section holds at most 26 literals per cell.
proof fn lemma_physics_size(size: int, k: int)
    requires
        k >= 0,
    ensures
        formula_size(physics(size, k)) <= 26 * k,
    decreases k,
{
    if k > 0 {
        lemma_physics_size(size, k - 1);
        let p = cell(size, k - 1);
        lemma_formula_size_add(physics(size, k - 1), physics_cell(size, p));
        lemma_dir_pairs_size(size, p, 4);
        lemma_adj_lits_len(size, p, 4);
        let tail = seq![
            seq![Literal::<Var>::Neg(Var::Breeze { pos: p })] + pit_lits(size, p, 4),
            seq![Literal::<Var>::Neg(Var::Stench { pos: p })] + wumpus_adj_lits(size, p, 4),
        ];
        lemma_formula_size_add(dir_pairs(size, p, 4), tail);
        assert(formula_size(tail) == formula_size(tail.drop_last()) + tail.last().len());
        assert(formula_size(tail.drop_last()) == formula_size(tail.drop_last().drop_last())
            + tail.drop_last().last().len());
        assert(tail.drop_last().drop_last().len() == 0);
    }
}

/// The safety section holds seven literals per cell.
proof fn lemma_safety_size(size: int, k: int)
    requires
        k >= 0,
    ensures
        formula_size(safety(size, k)) == 7 * k,
    decreases k,
{
    if k > 0 {
        lemma_safety_size(size, k - 1);
        let b = safety_cell(cell(size, k - 1));
        lemma_formula_size_add(safety(size, k - 1), b);
        assert(formula_size(b) == formula_size(b.drop_last()) + b.last().len());
        assert(formula_size(b.drop_last()) == formula_size(b.drop_last().drop_last())
            + b.drop_last().last().len());
        assert(formula_size(b.drop_last().drop_last()) == formula_size(
            b.drop_last().drop_last().drop_last(),
        ) + b.drop_last().drop_last().last().len());
        assert(b.drop_last().drop_last().drop_last().len() == 0);
    }
}

/// The whole theory over a grid of side at most 100 stays well inside the
/// address space.
proof fn lemma_theory_size(size: int)
    requires
        1 <= size <= 100,
    ensures
        formula_size(theory_formula(size)) <= 0x1900_0000,
{
    assert(1 <= size * size <= 10000) by (nonlinear_arith)
        requires 1 <= size <= 100;
    let n2 = size * size;
    let n4 = n2 * n2;
    assert(1 <= n2 * n2 <= 100000000) by (nonlinear_arith)
        requires 1 <= n2 <= 10000;
    lemma_big_lits_len(size, n2);
    lemma_pairwise_size(size, n4);
    lemma_physics_size(size, n2);
    lemma_safety_size(size, n2);
    let s1 = seq![wumpus_lits(size, n2)];
    let s2 = seq![seq![Literal::<Var>::Pos(Var::Safe { pos: Position { x: 0, y: 0 } })]];
    let s3 = pairwise(size, n4);
    let s4 = seq![gold_lits(size, n2)];
    let s5 = physics(size, n2);
    let s6 = safety(size, n2);
    lemma_formula_size_add(s1, s2);
    lemma_formula_size_add(s1 + s2, s3);
    lemma_formula_size_add(s1 + s2 + s3, s4);
    lemma_formula_size_add(s1 + s2 + s3 + s4, s5);
    lemma_formula_size_add(s1 + s2 + s3 + s4 + s5, s6);
    assert(formula_size(s1) == formula_size(s1.drop_last()) + s1.last().len());
    assert(s1.drop_last().len() == 0);
    assert(formula_size(s2) == formula_size(s2.drop_last()) + s2.last().len());
    assert(s2.drop_last().len() == 0);
    assert(formula_size(s4) == formula_size(s4.drop_last()) + s4.last().len());
    assert(s4.drop_last().len() == 0);
}

} // verus!
