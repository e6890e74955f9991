use wumpus::verdict::{parse_picosat_model, picosat_is_sat, ModelError};

#[test]
fn sat_verdict_is_recognised() {
    assert!(picosat_is_sat("s SATISFIABLE\nv 1 -2 0\n"));
    assert!(picosat_is_sat("s SATISFIABLE"));
    assert!(picosat_is_sat("s SATISFIABLE\r\nv 1 0\n"));
    assert!(picosat_is_sat("  s SATISFIABLE  \nrest"));
}

#[test]
fn model_lines_are_decoded() {
    let parsed = parse_picosat_model("s SATISFIABLE\nv 1 -2 0\nv 3 0\n", 3);
    assert_eq!(
        parsed,
        Ok(vec![None, Some(true), Some(false), Some(true)])
    );
}

#[test]
fn model_of_unsat_output_is_empty() {
    assert_eq!(parse_picosat_model("s UNSATISFIABLE\n", 3), Ok(vec![]));
}

#[test]
fn empty_output_is_refused() {
    assert_eq!(parse_picosat_model("", 3), Err(ModelError::EmptyOutput));
}

#[test]
fn model_ignores_junk_and_out_of_range() {
    let parsed = parse_picosat_model("s SATISFIABLE\nv 1x 2 99 0\nw 1 0\n", 2);
    assert_eq!(parsed, Ok(vec![None, None, Some(true)]));
}

#[test]
fn model_reads_final_unterminated_token() {
    let parsed = parse_picosat_model("s SATISFIABLE\nv -1", 1);
    assert_eq!(parsed, Ok(vec![None, Some(false)]));
}

#[test]
fn other_verdicts_mean_unsat() {
    assert!(!picosat_is_sat("s UNSATISFIABLE\n"));
    assert!(!picosat_is_sat("c comment first\ns SATISFIABLE\n"));
    assert!(!picosat_is_sat("s SATISFIABLE extra\n"));
    assert!(!picosat_is_sat("nonsense"));
    assert!(!picosat_is_sat("\ns SATISFIABLE\n"));
}
