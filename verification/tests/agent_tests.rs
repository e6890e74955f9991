use wumpus::encoder::EncoderSAT;
use wumpus::hero::{
    distance_to_zero, eq_to_zero, no_heuristic, AgentError, Cache, Hero, Planner,
};
use wumpus::kb::Var;
use wumpus::logic::Literal;
use wumpus::solver::BacktrackOracle;
use wumpus::theory::init_kb;
use wumpus::world::{Action, Direction, Perceptions, Position, StepOutcome, World};

fn pos(x: usize, y: usize) -> Position {
    Position { x, y }
}

/// A planner that never finds a gold route and walks straight home.
struct StubPlanner;

impl Planner for StubPlanner {
    fn plan_gold(
        &mut self,
        _cache: &Cache,
        _size_map: usize,
        _start: Position,
    ) -> Option<Vec<Position>> {
        None
    }

    fn plan_home(
        &mut self,
        _cache: &Cache,
        _size_map: usize,
        start: Position,
    ) -> Option<Vec<Position>> {
        let mut route = Vec::new();
        let mut p = start;
        while p.x > 0 {
            p = Position { x: p.x - 1, y: p.y };
            route.push(p);
        }
        while p.y > 0 {
            p = Position { x: p.x, y: p.y - 1 };
            route.push(p);
        }
        Some(route)
    }
}

fn quiet_origin_percept(n: usize) -> Perceptions {
    Perceptions {
        glitter: false,
        stench: false,
        breeze: false,
        howl: false,
        bump: false,
        position: pos(0, 0),
        board_size: n,
    }
}

#[test]
fn cache_starts_with_safe_origin() {
    let cache = Cache::new();
    assert!(cache.is_safe(&pos(0, 0)));
    assert!(!cache.is_safe(&pos(1, 0)));
    assert!(!cache.is_visited(&pos(0, 0)));
    assert!(!cache.is_unsafe(&pos(0, 0)));
    assert!(!cache.there_is_the_wumpus(&pos(0, 0)));
    assert!(cache.safe_but_not_visited(&pos(0, 0)));
}

#[test]
fn cache_safe_neighbourhood() {
    let mut cache = Cache::new();
    // from (1,0) the origin is a safe unvisited neighbour
    assert!(cache.safe_neighbourhood(&pos(1, 0), 2));
    // once visited it no longer counts
    cache.mark_visited(pos(0, 0));
    assert!(!cache.safe_neighbourhood(&pos(1, 0), 2));
}

#[test]
fn heuristics_and_goal_test() {
    assert_eq!(distance_to_zero(&pos(3, 4)), 7);
    assert_eq!(no_heuristic(&pos(5, 5)), 1);
    assert!(eq_to_zero(&Cache::new(), &pos(0, 0)));
    assert!(!eq_to_zero(&Cache::new(), &pos(1, 0)));
}

#[test]
fn agent_moves_to_inferred_safe_cell() {
    let mut oracle = BacktrackOracle;
    let mut planner = StubPlanner;
    let kb = init_kb(2);
    let mut hero = Hero::new(kb, 2);
    // a quiet origin makes both neighbours provably safe
    let action = hero.next_action(quiet_origin_percept(2), &mut oracle, &mut planner);
    match action {
        Ok(Action::Move(Direction::Sud)) | Ok(Action::Move(Direction::East)) => {},
        other => panic!("expected a move into the board, got {:?}", other),
    }
}

#[test]
fn agent_reports_inconsistency() {
    let mut oracle = BacktrackOracle;
    let mut planner = StubPlanner;
    let v = Var::Howl;
    let mut kb = EncoderSAT::new();
    kb.add(vec![Literal::Pos(v)]);
    kb.add(vec![Literal::Neg(v)]);
    let mut hero = Hero::new(kb, 2);
    let action = hero.next_action(quiet_origin_percept(2), &mut oracle, &mut planner);
    assert_eq!(action, Err(AgentError::Inconsistent));
}

#[test]
fn agent_grabs_on_glitter() {
    let mut oracle = BacktrackOracle;
    let mut planner = StubPlanner;
    let kb = init_kb(2);
    let mut hero = Hero::new(kb, 2);
    let mut percept = quiet_origin_percept(2);
    percept.glitter = true;
    let action = hero.next_action(percept, &mut oracle, &mut planner);
    // grabbing and exiting both score maximal utility once the gold
    // glitters at the origin; the tie falls to a coin
    match action {
        Ok(Action::Grab) | Ok(Action::Exit) => {},
        other => panic!("expected Grab or Exit, got {:?}", other),
    }
}

#[test]
fn hero_settles_unsafe_cell_and_propagates() {
    let mut oracle = BacktrackOracle;
    // a breeze at the origin, stillness at (0,2) and no stench at the
    // origin pin a pit onto (1,0)
    let mut kb = init_kb(3);
    kb.tell(&vec![
        vec![Literal::Pos(Var::Breeze { pos: pos(0, 0) })],
        vec![Literal::Neg(Var::Breeze { pos: pos(0, 2) })],
        vec![Literal::Neg(Var::Stench { pos: pos(0, 0) })],
    ]);
    let mut hero = Hero::new(kb, 3);
    assert!(!hero.is_safe(pos(1, 0), pos(0, 0), &mut oracle));
    // the transitive re-query of the origin's neighbours has already
    // proven (0,1) safe, and the unsafe verdict is cached
    assert!(hero.is_safe(pos(0, 1), pos(0, 0), &mut oracle));
    assert!(!hero.is_safe(pos(1, 0), pos(0, 0), &mut oracle));
}

#[test]
fn world_delivers_percepts_and_exit() {
    let mut rng = wumpus::random::fresh_rng();
    let mut world = World::new(3, 1, &mut rng);
    let p = world.perceptions();
    assert_eq!(p.board_size, 3);
    assert_eq!(p.position, pos(0, 0));
    assert!(!p.glitter);
    let outcome = world.do_action(Action::Exit);
    assert_eq!(outcome, StepOutcome::EscapedWithoutGold);
}

#[test]
fn world_illegal_exit_elsewhere() {
    let mut rng = wumpus::random::fresh_rng();
    let mut world = World::new(3, 1, &mut rng);
    // wherever the hero wanders, exiting away from the origin is refused
    let moved = world.do_action(Action::Move(Direction::East));
    if moved == StepOutcome::Continue {
        let outcome = world.do_action(Action::Exit);
        assert_eq!(outcome, StepOutcome::IllegalExit);
    }
}

#[test]
fn random_draws_stay_in_range() {
    let mut rng = wumpus::random::fresh_rng();
    // a one-element range has only one possible draw
    assert_eq!(wumpus::random::rand_below(&mut rng, 1), 0);
    for n in 1..20usize {
        assert!(wumpus::random::rand_below(&mut rng, n) < n);
    }
    let _ = wumpus::random::coin_flip(&mut rng);
}

#[test]
fn position_moves() {
    let p = pos(1, 1);
    assert_eq!(p.move_clone(Direction::North), pos(1, 0));
    assert_eq!(p.move_clone(Direction::Sud), pos(1, 2));
    assert_eq!(p.move_clone(Direction::East), pos(2, 1));
    assert_eq!(p.move_clone(Direction::Ovest), pos(0, 1));
    assert!(!p.possible_move(Direction::Sud, 2));
    assert!(p.possible_move(Direction::North, 2));
    let mut q = pos(1, 1);
    q.move_in(Direction::East);
    assert_eq!(q, pos(2, 1));
}

#[test]
fn ground_truth_from_perception() {
    let mut percept = quiet_origin_percept(2);
    percept.breeze = true;
    percept.glitter = true;
    let f = EncoderSAT::create_ground_truth_from_perception(&percept);
    assert_eq!(
        f,
        vec![
            vec![Literal::Pos(Var::Breeze { pos: pos(0, 0) })],
            vec![Literal::Pos(Var::Gold { pos: pos(0, 0) })],
            vec![Literal::Neg(Var::Stench { pos: pos(0, 0) })],
        ]
    );
}

#[test]
fn query_from_action() {
    let q = EncoderSAT::create_query_from_action(&Action::Move(Direction::East), &pos(0, 0));
    assert_eq!(q, vec![vec![Literal::Pos(Var::Safe { pos: pos(1, 0) })]]);
    let g = EncoderSAT::create_query_from_action(&Action::Grab, &pos(1, 1));
    assert_eq!(g, vec![vec![Literal::Pos(Var::Gold { pos: pos(1, 1) })]]);
}
