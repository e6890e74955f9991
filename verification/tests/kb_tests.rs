use wumpus::encoder::EncoderSAT;
use wumpus::kb::{Formula, Var};
use wumpus::logic::Literal;
use wumpus::solver::{check_model, BacktrackOracle};
use wumpus::theory::init_kb;
use wumpus::world::Position;

fn a() -> Var {
    Var::Wumpus { pos: Position { x: 0, y: 0 } }
}

fn b() -> Var {
    Var::Pit { pos: Position { x: 0, y: 0 } }
}

fn pos(x: usize, y: usize) -> Position {
    Position { x, y }
}

fn safe(x: usize, y: usize) -> Literal<Var> {
    Literal::Pos(Var::Safe { pos: pos(x, y) })
}

#[test]
fn empty_formula_is_never_entailed() {
    let mut oracle = BacktrackOracle;
    let mut kb = EncoderSAT::new();
    kb.add(vec![Literal::Pos(a())]);
    let empty: Formula = vec![];
    assert!(!kb.ask(&empty, &mut oracle));
}

#[test]
fn unit_ask_and_purity() {
    let mut oracle = BacktrackOracle;
    let mut kb = EncoderSAT::new();
    kb.add(vec![Literal::Pos(a())]);
    let before = kb.encode();
    assert!(kb.ask(&vec![vec![Literal::Pos(a())]], &mut oracle));
    assert!(!kb.ask(&vec![vec![Literal::Neg(a())]], &mut oracle));
    let after = kb.encode();
    assert_eq!(before.0, after.0);
    assert_eq!(before.1, after.1);
}

#[test]
fn multi_clause_tseytin_ask() {
    let mut oracle = BacktrackOracle;
    let mut kb = EncoderSAT::new();
    kb.add(vec![Literal::Pos(a()), Literal::Pos(b())]);
    kb.add(vec![Literal::Neg(a())]);
    let before = kb.encode();
    // B is entailed, and asking it twice over is still entailed
    let query: Formula = vec![vec![Literal::Pos(b())], vec![Literal::Pos(b())]];
    assert!(kb.ask(&query, &mut oracle));
    let after = kb.encode();
    assert_eq!(before.0, after.0);
    assert_eq!(before.1, after.1);
}

#[test]
fn ask_agrees_with_truth_tables() {
    let mut oracle = BacktrackOracle;
    // KB {A or B} entails neither A alone nor B alone, but entails A or B
    let mut kb = EncoderSAT::new();
    kb.add(vec![Literal::Pos(a()), Literal::Pos(b())]);
    assert!(!kb.ask(&vec![vec![Literal::Pos(a())]], &mut oracle));
    assert!(!kb.ask(&vec![vec![Literal::Pos(b())]], &mut oracle));
    assert!(kb.ask(&vec![vec![Literal::Pos(a()), Literal::Pos(b())]], &mut oracle));
    // a conjunctive query needs both conjuncts
    let both: Formula = vec![vec![Literal::Pos(a())], vec![Literal::Pos(b())]];
    assert!(!kb.ask(&both, &mut oracle));
    let mut kb2 = EncoderSAT::new();
    kb2.add(vec![Literal::Pos(a())]);
    kb2.add(vec![Literal::Pos(b())]);
    assert!(kb2.ask(&both, &mut oracle));
}

#[test]
fn empty_clause_means_inconsistency() {
    let mut oracle = BacktrackOracle;
    // a satisfiable store does not entail the empty clause
    let mut kb = EncoderSAT::new();
    kb.add(vec![Literal::Pos(a())]);
    let falsum: Formula = vec![vec![]];
    assert!(!kb.ask(&falsum, &mut oracle));
    // an unsatisfiable store entails it
    let mut kb2 = EncoderSAT::new();
    kb2.add(vec![Literal::Pos(a())]);
    kb2.add(vec![Literal::Neg(a())]);
    assert!(kb2.ask(&falsum, &mut oracle));
}

#[test]
fn consistency_reports_satisfiability() {
    let mut oracle = BacktrackOracle;
    let mut kb = EncoderSAT::new();
    kb.add(vec![Literal::Pos(a())]);
    assert!(kb.consistency(&mut oracle));
    kb.add(vec![Literal::Neg(a())]);
    assert!(!kb.consistency(&mut oracle));
}

#[test]
fn is_unsafe_narrows_to_pit() {
    let mut oracle = BacktrackOracle;
    let mut kb = EncoderSAT::new();
    // this store says outright that the cell holds a pit
    kb.add(vec![Literal::Pos(Var::Pit { pos: pos(1, 0) })]);
    assert!(kb.is_unsafe(pos(1, 0), &mut oracle));
    // the verdict and the narrowing were asserted into the store
    assert!(kb.ask(
        &vec![vec![Literal::Pos(Var::Pit { pos: pos(1, 0) })]],
        &mut oracle,
    ));
}

#[test]
fn is_unsafe_undecided_tells_pit() {
    let mut oracle = BacktrackOracle;
    let mut kb = EncoderSAT::new();
    // only the disjunction is known, so neither unit is entailed
    kb.add(vec![
        Literal::Pos(Var::Wumpus { pos: pos(1, 0) }),
        Literal::Pos(Var::Pit { pos: pos(1, 0) }),
    ]);
    assert!(kb.is_unsafe(pos(1, 0), &mut oracle));
    // the Wumpus query comes back undecided, so the pit unit is told
    assert!(kb.ask(
        &vec![vec![Literal::Pos(Var::Pit { pos: pos(1, 0) })]],
        &mut oracle,
    ));
    assert!(!kb.ask(
        &vec![vec![Literal::Pos(Var::Wumpus { pos: pos(1, 0) })]],
        &mut oracle,
    ));
}

#[test]
fn is_unsafe_asks_wumpus_first() {
    let mut oracle = BacktrackOracle;
    let mut kb = EncoderSAT::new();
    // both units are entailed outright; the disambiguation asks for the
    // Wumpus first and tells its unit, never reaching the pit fallback
    kb.add(vec![Literal::Pos(Var::Wumpus { pos: pos(1, 0) })]);
    kb.add(vec![Literal::Pos(Var::Pit { pos: pos(1, 0) })]);
    assert!(kb.is_unsafe(pos(1, 0), &mut oracle));
    let (text, _) = kb.encode();
    assert_eq!(text, "p cnf 2 4\n1 0\n2 0\n1 2 0\n1 0\n");
}

#[test]
fn safe_positions_extracts_safe_literals_in_order() {
    let kb = EncoderSAT::new();
    let query: Formula = vec![
        vec![safe(0, 1), Literal::Pos(a())],
        vec![Literal::Neg(b()), safe(1, 1)],
    ];
    assert_eq!(kb.safe_positions(query), vec![pos(0, 1), pos(1, 1)]);
}

/// A hand-built model of the theory: the Wumpus in the far corner, the
/// gold at the origin, no pits anywhere.
fn theory_model(n: usize, kb: &EncoderSAT) -> Vec<bool> {
    let (_, names) = kb.encode();
    let w = pos(n - 1, n - 1);
    let adjacent = |p: Position, q: Position| -> bool {
        (p.x == q.x && (p.y + 1 == q.y || q.y + 1 == p.y))
            || (p.y == q.y && (p.x + 1 == q.x || q.x + 1 == p.x))
    };
    names
        .iter()
        .map(|v| match v {
            Var::Wumpus { pos } => *pos == w,
            Var::Gold { pos } => *pos == Position { x: 0, y: 0 },
            Var::Pit { .. } => false,
            Var::Breeze { .. } => false,
            Var::Stench { pos } => adjacent(*pos, w),
            Var::Safe { pos } => *pos != w,
            _ => false,
        })
        .collect()
}

#[test]
fn world_theory_is_satisfiable() {
    for n in 2..=6usize {
        let kb = init_kb(n);
        let assignment = theory_model(n, &kb);
        assert!(
            check_model(kb.clause_list(), &assignment),
            "theory of side {} rejects its intended model",
            n
        );
    }
}

#[test]
fn wumpus_2x2_entailment() {
    let mut oracle = BacktrackOracle;
    let mut kb = init_kb(2);
    kb.tell(&vec![
        vec![Literal::Neg(Var::Breeze { pos: pos(0, 0) })],
        vec![Literal::Neg(Var::Stench { pos: pos(0, 0) })],
    ]);
    assert!(kb.ask(&vec![vec![safe(0, 1)]], &mut oracle));
    assert!(kb.ask(&vec![vec![safe(1, 0)]], &mut oracle));
}

#[test]
fn unsafe_disambiguation_3x3() {
    let mut oracle = BacktrackOracle;
    let mut kb = init_kb(3);
    // a breeze at the origin puts a pit on (1,0) or (0,1); stillness at
    // (0,2) rules (0,1) out
    kb.tell(&vec![
        vec![Literal::Pos(Var::Breeze { pos: pos(0, 0) })],
        vec![Literal::Neg(Var::Breeze { pos: pos(0, 2) })],
    ]);
    let q: Formula = vec![vec![
        Literal::Pos(Var::Wumpus { pos: pos(1, 0) }),
        Literal::Pos(Var::Pit { pos: pos(1, 0) }),
    ]];
    assert!(kb.ask(&q, &mut oracle));
    assert!(kb.is_unsafe(pos(1, 0), &mut oracle));
}

#[test]
fn snapshot_tell_rewind_is_identity() {
    let mut kb = init_kb(2);
    let before = kb.encode();
    kb.snapshot();
    kb.tell(&vec![
        vec![Literal::Pos(Var::Gold { pos: pos(1, 1) })],
        vec![Literal::Pos(Var::Howl)],
    ]);
    kb.rewind();
    let after = kb.encode();
    assert_eq!(before.0, after.0);
    assert_eq!(before.1, after.1);
}
