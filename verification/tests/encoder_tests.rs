use wumpus::encoder::{decode_model, EncoderSAT};
use wumpus::kb::Var;
use wumpus::logic::Literal;
use wumpus::world::Position;

fn a() -> Var {
    Var::Wumpus { pos: Position { x: 0, y: 0 } }
}

fn b() -> Var {
    Var::Pit { pos: Position { x: 0, y: 0 } }
}

fn c() -> Var {
    Var::Gold { pos: Position { x: 0, y: 0 } }
}

#[test]
fn dimacs_round_trip() {
    let mut e = EncoderSAT::new();
    e.add(vec![Literal::Pos(a()), Literal::Neg(b())]);
    e.add(vec![Literal::Pos(b()), Literal::Pos(c())]);
    let (text, names) = e.encode();
    assert_eq!(text, "p cnf 3 2\n1 -2 0\n2 3 0\n");
    assert_eq!(names, vec![a(), b(), c()]);
}

#[test]
fn intern_same_name_same_id() {
    let mut e = EncoderSAT::new();
    let l1 = e.register_literal(Literal::Pos(a()));
    let l2 = e.register_literal(Literal::Neg(a()));
    assert_eq!(l1, Literal::Pos(1));
    assert_eq!(l2, Literal::Neg(1));
    let l3 = e.register_literal(Literal::Pos(b()));
    assert_eq!(l3, Literal::Pos(2));
}

#[test]
fn intern_distinct_names_consecutive_ids() {
    let mut e = EncoderSAT::new();
    let ids: Vec<_> = [a(), b(), c()]
        .into_iter()
        .map(|v| e.register_literal(Literal::Pos(v)).inner())
        .collect();
    assert_eq!(ids, vec![1, 2, 3]);
}

#[test]
fn rewind_restores_exact_state() {
    let mut e = EncoderSAT::new();
    e.add(vec![Literal::Pos(a()), Literal::Neg(b())]);
    let before = e.encode();
    e.snapshot();
    e.add(vec![Literal::Pos(c())]);
    let raw = e.create_raw_variable();
    e.add_raw_clause(vec![raw, Literal::Neg(1)]);
    e.rewind();
    let after = e.encode();
    assert_eq!(before.0, after.0);
    assert_eq!(before.1, after.1);
}

#[test]
fn clause_builder_appends_one_clause() {
    let e = EncoderSAT::new();
    let mut builder = e.clause();
    builder.add(Literal::Pos(a()));
    builder.add(Literal::Neg(b()));
    let e = builder.end();
    let (text, _) = e.encode();
    assert_eq!(text, "p cnf 2 1\n1 -2 0\n");
}

#[test]
fn decode_model_skips_first_name() {
    let vars = vec![a(), b(), c()];
    let model = vec![None, Some(true), Some(false), Some(true)];
    let decoded = decode_model(&vars, &model);
    assert_eq!(decoded, vec![(b(), Some(true)), (c(), Some(false))]);
}

#[test]
fn decode_model_handles_short_model() {
    let vars = vec![a(), b(), c()];
    let model = vec![None, Some(true)];
    let decoded = decode_model(&vars, &model);
    assert_eq!(decoded, vec![(b(), Some(true)), (c(), None)]);
}
