//! The reasoning agent: percept assertion, cached safety inference with a
//! bounded transitive re-query, plan upkeep, and utility-driven action
//! selection.  Path planning itself is an external collaborator behind
//! the `Planner` trait.

use vstd::prelude::*;

use crate::encoder::{tell_m, wf, EncoderModel, EncoderSAT};
use crate::kb::{
    ask_result, formula_view, ground_truth, pit_formula, safe_formula, unsafe_formula,
    wumpus_formula, Formula, Var,
};
use crate::logic::{cnf_sat, Literal};
use crate::random::coin_flip;
use crate::solver::SatOracle;
use crate::theory::spec_dir_at;
use crate::world::{Action, Direction, Perceptions, Position};

verus! {

/// The agent's memo of what it has settled about cells.
pub struct Cache {
    visited: Vec<Position>,
    safe: Vec<Position>,
    _unsafe: Vec<Position>,
    wumpus: Option<Position>,
}

/// First index of `p` in `s`, or `-1` when absent.
pub open spec fn first_index_of(s: Seq<Position>, p: Position) -> int
    decreases s.len(),
{
    if s.len() == 0 {
        -1
    } else if s[0] == p {
        0
    } else {
        let r = first_index_of(s.drop_first(), p);
        if r == -1 {
            -1
        } else {
            r + 1
        }
    }
}

/// A scan that finds `p` first at `i` agrees with `first_index_of`.
proof fn lemma_first_index_found(s: Seq<Position>, p: Position, i: int)
    requires
        0 <= i < s.len(),
        s[i] == p,
        forall|j: int| 0 <= j < i ==> s[j] != p,
    ensures
        first_index_of(s, p) == i,
    decreases i,
{
    if i > 0 {
        assert(forall|k: int|
            0 <= k < s.drop_first().len() ==> #[trigger] s.drop_first()[k] == s[k + 1]);
        lemma_first_index_found(s.drop_first(), p, i - 1);
    }
}

/// A scan that never finds `p` agrees with `first_index_of`.
proof fn lemma_first_index_none(s: Seq<Position>, p: Position)
    requires
        forall|j: int| 0 <= j < s.len() ==> s[j] != p,
    ensures
        first_index_of(s, p) == -1,
    decreases s.len(),
{
    if s.len() > 0 {
        assert(forall|k: int|
            0 <= k < s.drop_first().len() ==> #[trigger] s.drop_first()[k] == s[k + 1]);
        lemma_first_index_none(s.drop_first(), p);
    }
}

/// Membership survives appending.
proof fn lemma_contains_push<A>(s: Seq<A>, x: A, y: A)
    ensures
        s.contains(y) ==> s.push(x).contains(y),
{
    if s.contains(y) {
        let i = choose|i: int| 0 <= i < s.len() && s[i] == y;
        assert(s.push(x)[i] == y);
    }
}

/// Membership after appending came from the old elements or the new one.
proof fn lemma_contains_push_inv<A>(s: Seq<A>, x: A, y: A)
    ensures
        s.push(x).contains(y) ==> s.contains(y) || y == x,
{
    if s.push(x).contains(y) {
        let i = choose|i: int| 0 <= i < s.push(x).len() && s.push(x)[i] == y;
        if i < s.len() {
            assert(s[i] == y);
        }
    }
}

/// Whether `v` holds `p`, by linear scan.
fn vec_contains(v: &Vec<Position>, p: &Position) -> (r: bool)
    ensures
        r == v@.contains(*p),
{
    let mut i: usize = 0;
    while i < v.len()
        invariant
            i <= v@.len(),
            forall|j: int| 0 <= j < i ==> v@[j] != *p,
        decreases v@.len() - i,
    {
        if v[i] == *p {
            assert(v@.contains(*p));
            return true;
        }
        i += 1;
    }
    false
}

impl Cache {
    pub closed spec fn spec_safe(&self) -> Seq<Position> {
        self.safe@
    }

    pub closed spec fn spec_unsafe(&self) -> Seq<Position> {
        self._unsafe@
    }

    pub closed spec fn spec_visited(&self) -> Seq<Position> {
        self.visited@
    }

    pub closed spec fn spec_wumpus(&self) -> Option<Position> {
        self.wumpus
    }

    /// A fresh cache: only the origin is known safe.
    pub fn new() -> (r: Self)
        ensures
            r.spec_safe() == seq![Position { x: 0, y: 0 }],
            r.spec_unsafe() == Seq::<Position>::empty(),
            r.spec_visited() == Seq::<Position>::empty(),
            r.spec_wumpus() is None,
    {
        let mut safe: Vec<Position> = Vec::new();
        safe.push(Position::new(0, 0));
        let r = Cache { safe, visited: Vec::new(), _unsafe: Vec::new(), wumpus: None };
        proof {
            assert(r.spec_safe() =~= seq![Position { x: 0, y: 0 }]);
            assert(r.spec_unsafe() =~= Seq::<Position>::empty());
            assert(r.spec_visited() =~= Seq::<Position>::empty());
        }
        r
    }

    pub fn is_safe(&self, p: &Position) -> (r: bool)
        ensures
            r == self.spec_safe().contains(*p),
    {
        vec_contains(&self.safe, p)
    }

    pub fn is_unsafe(&self, p: &Position) -> (r: bool)
        ensures
            r == self.spec_unsafe().contains(*p),
    {
        vec_contains(&self._unsafe, p)
    }

    pub fn is_visited(&self, p: &Position) -> (r: bool)
        ensures
            r == self.spec_visited().contains(*p),
    {
        vec_contains(&self.visited, p)
    }

    /// Whether `p` is the recorded Wumpus cell (which is also unsafe).
    pub fn there_is_the_wumpus(&self, p: &Position) -> (r: bool)
        ensures
            r == (self.spec_unsafe().contains(*p) && self.spec_wumpus() == Some(*p)),
    {
        self.is_unsafe(p) && match &self.wumpus {
            Some(w) => *w == *p,
            None => false,
        }
    }

    pub fn safe_but_not_visited(&self, p: &Position) -> (r: bool)
        ensures
            r == (self.spec_safe().contains(*p) && !self.spec_visited().contains(*p)),
    {
        self.is_safe(p) && !self.is_visited(p)
    }

    /// Whether some legal neighbour of `p` is safe but unvisited.
    pub fn safe_neighbourhood(&self, p: &Position, size: usize) -> (r: bool)
        requires
            size >= 1,
        ensures
            r == exists|dir: Direction|
                p.spec_possible_move(dir, size as int) && #[trigger] self.spec_safe().contains(
                    p.spec_move(dir),
                ) && !self.spec_visited().contains(p.spec_move(dir)),
    {
        let dirs = [Direction::North, Direction::Sud, Direction::East, Direction::Ovest];
        let mut d: usize = 0;
        while d < 4
            invariant
                d <= 4,
                size >= 1,
                dirs@ =~= seq![Direction::North, Direction::Sud, Direction::East, Direction::Ovest],
                forall|j: int|
                    0 <= j < d ==> !(p.spec_possible_move(#[trigger] dirs@[j], size as int)
                        && self.spec_safe().contains(p.spec_move(dirs@[j]))
                        && !self.spec_visited().contains(p.spec_move(dirs@[j]))),
            decreases 4 - d,
        {
            let dir = dirs[d];
            if p.possible_move(dir, size) {
                if self.safe_but_not_visited(&p.move_clone(dir)) {
                    return true;
                }
            }
            d += 1;
        }
        proof {
            assert forall|dir: Direction| !(p.spec_possible_move(dir, size as int)
                && #[trigger] self.spec_safe().contains(p.spec_move(dir))
                && !self.spec_visited().contains(p.spec_move(dir))) by {
                match dir {
                    Direction::North => assert(dirs@[0] == dir),
                    Direction::Sud => assert(dirs@[1] == dir),
                    Direction::East => assert(dirs@[2] == dir),
                    Direction::Ovest => assert(dirs@[3] == dir),
                }
            }
        }
        false
    }

    /// Record `p` as safe.
    pub fn mark_safe(&mut self, p: Position)
        ensures
            final(self).spec_safe() == old(self).spec_safe().push(p),
            final(self).spec_unsafe() == old(self).spec_unsafe(),
            final(self).spec_visited() == old(self).spec_visited(),
            final(self).spec_wumpus() == old(self).spec_wumpus(),
    {
        self.safe.push(p);
    }

    /// Record `p` as unsafe.
    pub fn mark_unsafe(&mut self, p: Position)
        ensures
            final(self).spec_unsafe() == old(self).spec_unsafe().push(p),
            final(self).spec_safe() == old(self).spec_safe(),
            final(self).spec_visited() == old(self).spec_visited(),
            final(self).spec_wumpus() == old(self).spec_wumpus(),
    {
        self._unsafe.push(p);
    }

    /// Record `p` as visited.
    pub fn mark_visited(&mut self, p: Position)
        ensures
            final(self).spec_visited() == old(self).spec_visited().push(p),
            final(self).spec_safe() == old(self).spec_safe(),
            final(self).spec_unsafe() == old(self).spec_unsafe(),
            final(self).spec_wumpus() == old(self).spec_wumpus(),
    {
        self.visited.push(p);
    }

    /// Record the Wumpus's cell.
    pub fn set_wumpus(&mut self, p: Position)
        ensures
            final(self).spec_wumpus() == Some(p),
            final(self).spec_safe() == old(self).spec_safe(),
            final(self).spec_unsafe() == old(self).spec_unsafe(),
            final(self).spec_visited() == old(self).spec_visited(),
    {
        self.wumpus = Some(p);
    }
}

/// The agent's current goal.
#[derive(Clone, Copy, PartialEq, Eq, Structural, Debug)]
pub enum Objective {
    TakeGold,
    GoHome,
}

/// Manhattan distance to the origin; the homeward heuristic.
pub fn distance_to_zero(p: &Position) -> (r: i32)
    requires
        p.x + p.y <= i32::MAX,
    ensures
        r == p.x + p.y,
{
    (p.x as i32) + (p.y as i32)
}

/// The goldward search runs uninformed.
pub fn no_heuristic(_p: &Position) -> (r: i32)
    ensures
        r == 1,
{
    1
}

/// The homeward goal test.
pub fn eq_to_zero(_cache: &Cache, this: &Position) -> (r: bool)
    ensures
        r == (*this == (Position { x: 0, y: 0 })),
{
    *this == Position::new(0, 0)
}

/// Route finding over the safe-cell cache: an external collaborator,
/// replaceable by any search strategy; the agent checks what comes back.
pub trait Planner {
    /// A route from `start` toward some safe-but-unvisited cell.
    fn plan_gold(&mut self, cache: &Cache, size_map: usize, start: Position) -> Option<
        Vec<Position>,
    >;

    /// A route from `start` back to the origin.
    fn plan_home(&mut self, cache: &Cache, size_map: usize, start: Position) -> Option<
        Vec<Position>,
    >;
}

/// One cache only gains knowledge relative to another: nothing settled
/// safe or unsafe is forgotten, and the visited set is untouched.
pub open spec fn cache_extends(a: Cache, b: Cache) -> bool {
    &&& forall|q: Position| a.spec_safe().contains(q) ==> b.spec_safe().contains(q)
    &&& forall|q: Position| a.spec_unsafe().contains(q) ==> b.spec_unsafe().contains(q)
    &&& b.spec_visited() == a.spec_visited()
}

/// Identifiers the safety queries of one `is_safe` call may allocate,
/// including its bounded transitive re-queries.
pub open spec fn query_budget(depth: nat) -> nat
    decreases depth,
{
    if depth == 0 {
        12
    } else {
        12 + 8 * query_budget((depth - 1) as nat)
    }
}

/// The knowledge and cache facts the safety inference acts on: the
/// store, the settled cells, and the recorded Wumpus location.
#[verifier::ext_equal]
pub ghost struct InferState {
    pub kb: EncoderModel,
    pub safe: Seq<Position>,
    pub unsafe_set: Seq<Position>,
    pub wumpus: Option<Position>,
}

/// No cell is cached both safe and unsafe.
pub open spec fn cache_disjoint(c: Cache) -> bool {
    forall|q: Position| !(c.spec_safe().contains(q) && #[trigger] c.spec_unsafe().contains(q))
}

/// What one safety decision does to the store and the cache: a cached
/// cell is answered from the cache; an entailed `Safe` is told and
/// cached; an entailed unsafe disjunction is told and cached, narrowed
/// by asking for the Wumpus first (recording its cell) and telling the
/// pit unit otherwise, and followed — down to the given depth — by a
/// re-query of the four neighbours of the cell and of the origin of the
/// inference.
pub open spec fn is_safe_m(
    s: InferState,
    pos: Position,
    origin: Position,
    depth: nat,
    size: int,
) -> (InferState, bool)
    decreases depth, 1int, 0int,
{
    if s.safe.contains(pos) {
        (s, true)
    } else if s.unsafe_set.contains(pos) {
        (s, false)
    } else if ask_result(s.kb, safe_formula(pos)) {
        (
            InferState { kb: tell_m(s.kb, safe_formula(pos)), safe: s.safe.push(pos), ..s },
            true,
        )
    } else if ask_result(s.kb, unsafe_formula(pos)) {
        let kb1 = tell_m(s.kb, unsafe_formula(pos));
        let s1 = InferState { kb: kb1, unsafe_set: s.unsafe_set.push(pos), ..s };
        let s2 = if ask_result(kb1, wumpus_formula(pos)) {
            InferState { kb: tell_m(kb1, wumpus_formula(pos)), wumpus: Some(pos), ..s1 }
        } else {
            InferState { kb: tell_m(kb1, pit_formula(pos)), ..s1 }
        };
        let s3 = if depth > 0 {
            let sa = requery_m(s2, pos, origin, (depth - 1) as nat, size, 0);
            requery_m(sa, origin, origin, (depth - 1) as nat, size, 0)
        } else {
            s2
        };
        (s3, false)
    } else {
        (s, false)
    }
}

/// Re-query the legal neighbours of `center` from direction `d` on, in
/// emission order, each at the given depth.
pub open spec fn requery_m(
    s: InferState,
    center: Position,
    origin: Position,
    depth: nat,
    size: int,
    d: int,
) -> InferState
    decreases depth, 2int, 4 - d,
{
    if d < 0 || d >= 4 {
        s
    } else {
        let dir = spec_dir_at(d);
        let s1 = if center.spec_possible_move(dir, size) {
            is_safe_m(s, center.spec_move(dir), origin, depth, size).0
        } else {
            s
        };
        requery_m(s1, center, origin, depth, size, d + 1)
    }
}

/// The reasoning agent.
pub struct Hero {
    kb: EncoderSAT,
    obj: Objective,
    t: usize,
    cache: Cache,
    rng: rand::rngs::ThreadRng,
    plan: Option<Vec<Position>>,
    size_map: usize,
}

impl Hero {
    pub closed spec fn spec_kb(&self) -> crate::encoder::EncoderModel {
        self.kb@
    }

    pub closed spec fn spec_obj(&self) -> Objective {
        self.obj
    }

    pub closed spec fn spec_cache(&self) -> Cache {
        self.cache
    }

    pub closed spec fn spec_plan(&self) -> Option<Seq<Position>> {
        match self.plan {
            Some(v) => Some(v@),
            None => None,
        }
    }

    pub closed spec fn spec_size_map(&self) -> int {
        self.size_map as int
    }

    /// The number of turns already taken.
    pub closed spec fn spec_t(&self) -> int {
        self.t as int
    }

    /// The inference-facing view of the agent: its store and what the
    /// cache has settled.
    pub open spec fn infer_state(&self) -> InferState {
        InferState {
            kb: self.spec_kb(),
            safe: self.spec_cache().spec_safe(),
            unsafe_set: self.spec_cache().spec_unsafe(),
            wumpus: self.spec_cache().spec_wumpus(),
        }
    }

    /// The agent's invariant: a well-formed knowledge base with no
    /// snapshot pending, on a board of workable side, and a cache that
    /// never settles a cell both ways.
    pub open spec fn wf(&self) -> bool {
        &&& wf(self.spec_kb())
        &&& self.spec_kb().snap is None
        &&& 1 <= self.spec_size_map() <= 100
        &&& cache_disjoint(self.spec_cache())
    }

    /// A fresh agent around an existing knowledge base: gold-seeking,
    /// with only the origin known safe.
    pub fn new(kb: EncoderSAT, size_map: usize) -> (r: Self)
        requires
            wf(kb@),
            kb@.snap is None,
            1 <= size_map <= 100,
        ensures
            r.wf(),
            r.spec_kb() == kb@,
            r.spec_obj() == Objective::TakeGold,
            r.spec_cache().spec_safe() == seq![Position { x: 0, y: 0 }],
            r.spec_cache().spec_unsafe() == Seq::<Position>::empty(),
            r.spec_cache().spec_visited() == Seq::<Position>::empty(),
            r.spec_plan() is None,
            r.spec_size_map() == size_map,
    {
        Hero {
            kb,
            t: 0,
            cache: Cache::new(),
            rng: crate::random::fresh_rng(),
            obj: Objective::TakeGold,
            plan: None,
            size_map,
        }
    }

    /// Decide the safety of `pos` and cache the outcome.  A proven safe
    /// cell is told; a proven unsafe cell is told and narrowed, asking
    /// for the Wumpus first and falling back to the pit unit, and the
    /// neighbours of `pos` and of `original_position` are re-queried
    /// down to the given depth.  The store, the cache and the answer
    /// follow `is_safe_m` exactly.
    fn is_safe_rec<O: SatOracle>(
        &mut self,
        pos: Position,
        original_position: Position,
        depth: usize,
        oracle: &mut O,
    ) -> (r: bool)
        requires
            old(self).wf(),
            old(self).spec_kb().counter + query_budget(depth as nat) <= usize::MAX,
        ensures
            final(self).wf(),
            final(self).spec_kb().counter <= old(self).spec_kb().counter + query_budget(
                depth as nat,
            ),
            final(self).infer_state() == is_safe_m(
                old(self).infer_state(),
                pos,
                original_position,
                depth as nat,
                old(self).spec_size_map(),
            ).0,
            r == is_safe_m(
                old(self).infer_state(),
                pos,
                original_position,
                depth as nat,
                old(self).spec_size_map(),
            ).1,
            cache_extends(old(self).spec_cache(), final(self).spec_cache()),
            final(self).spec_obj() == old(self).spec_obj(),
            final(self).spec_plan() == old(self).spec_plan(),
            final(self).spec_size_map() == old(self).spec_size_map(),
            final(self).spec_t() == old(self).spec_t(),
            r ==> final(self).spec_cache().spec_safe().contains(pos),
            !r ==> !old(self).spec_cache().spec_safe().contains(pos),
        decreases depth,
    {
        let ghost s_in = self.infer_state();
        let ghost gsize = self.spec_size_map();
        if self.cache.is_safe(&pos) {
            return true;
        }
        if self.cache.is_unsafe(&pos) {
            return false;
        }
        let ghost c0 = self.spec_cache();
        let safe_f: Formula = vec![vec![Literal::Pos(Var::Safe { pos })]];
        proof {
            crate::kb::lemma_one_clause_size(formula_view(safe_f));
            assert(formula_view(safe_f) =~~= safe_formula(pos));
        }
        if self.kb.ask(&safe_f, oracle) {
            let ghost kb0 = self.spec_kb();
            self.kb.tell(&safe_f);
            proof {
                crate::encoder::lemma_tell_extends(kb0, formula_view(safe_f));
            }
            let ghost s0 = self.spec_cache().spec_safe();
            self.cache.mark_safe(pos);
            proof {
                assert(self.spec_cache().spec_safe().contains(pos)) by {
                    assert(self.spec_cache().spec_safe().last() == pos);
                }
                assert forall|q: Position| c0.spec_safe().contains(q)
                    implies self.spec_cache().spec_safe().contains(q) by {
                    lemma_contains_push(s0, pos, q);
                }
                assert(cache_disjoint(self.spec_cache())) by {
                    assert forall|q: Position|
                        !(self.spec_cache().spec_safe().contains(q)
                            && #[trigger] self.spec_cache().spec_unsafe().contains(q)) by {
                        lemma_contains_push_inv(s0, pos, q);
                    }
                }
                assert(self.infer_state() =~= is_safe_m(
                    s_in,
                    pos,
                    original_position,
                    depth as nat,
                    gsize,
                ).0);
            }
            return true;
        }
        let unsafe_f: Formula = vec![
            vec![Literal::Pos(Var::Wumpus { pos }), Literal::Pos(Var::Pit { pos })],
        ];
        proof {
            crate::kb::lemma_one_clause_size(formula_view(unsafe_f));
            assert(formula_view(unsafe_f) =~~= unsafe_formula(pos));
        }
        if self.kb.ask(&unsafe_f, oracle) {
            let ghost kb1 = self.spec_kb();
            self.kb.tell(&unsafe_f);
            proof {
                crate::encoder::lemma_tell_extends(kb1, formula_view(unsafe_f));
            }
            let ghost u0 = self.spec_cache().spec_unsafe();
            self.cache.mark_unsafe(pos);
            proof {
                assert forall|q: Position| c0.spec_unsafe().contains(q)
                    implies self.spec_cache().spec_unsafe().contains(q) by {
                    lemma_contains_push(u0, pos, q);
                }
                assert(cache_disjoint(self.spec_cache())) by {
                    assert forall|q: Position|
                        !(self.spec_cache().spec_safe().contains(q)
                            && #[trigger] self.spec_cache().spec_unsafe().contains(q)) by {
                        lemma_contains_push_inv(u0, pos, q);
                    }
                }
            }
            let wumpus_f: Formula = vec![vec![Literal::Pos(Var::Wumpus { pos })]];
            let pit_f: Formula = vec![vec![Literal::Pos(Var::Pit { pos })]];
            proof {
                crate::kb::lemma_one_clause_size(formula_view(wumpus_f));
                crate::kb::lemma_one_clause_size(formula_view(pit_f));
                assert(formula_view(wumpus_f) =~~= wumpus_formula(pos));
                assert(formula_view(pit_f) =~~= pit_formula(pos));
            }
            let ghost kb2 = self.spec_kb();
            if self.kb.ask(&wumpus_f, oracle) {
                self.kb.tell(&wumpus_f);
                self.cache.set_wumpus(pos);
            } else {
                self.kb.tell(&pit_f);
            }
            proof {
                crate::encoder::lemma_tell_extends(kb2, formula_view(wumpus_f));
                crate::encoder::lemma_tell_extends(kb2, formula_view(pit_f));
            }
            let ghost s2val = self.infer_state();
            proof {
                assert(s2val =~= ({
                    let kbu = tell_m(s_in.kb, unsafe_formula(pos));
                    let s1 = InferState {
                        kb: kbu,
                        unsafe_set: s_in.unsafe_set.push(pos),
                        ..s_in
                    };
                    if ask_result(kbu, wumpus_formula(pos)) {
                        InferState {
                            kb: tell_m(kbu, wumpus_formula(pos)),
                            wumpus: Some(pos),
                            ..s1
                        }
                    } else {
                        InferState { kb: tell_m(kbu, pit_formula(pos)), ..s1 }
                    }
                }));
            }
            if depth > 0 {
                let ghost mid = *self;
                let ghost b = query_budget((depth - 1) as nat);
                let ghost bd = (depth - 1) as nat;
                proof {
                    assert(query_budget(depth as nat) == 12 + 8 * b);
                }
                let dirs = [Direction::North, Direction::Sud, Direction::East, Direction::Ovest];
                let mut d: usize = 0;
                while d < 4
                    invariant
                        d <= 4,
                        self.wf(),
                        b == query_budget(bd),
                        bd == (depth - 1) as nat,
                        self.spec_kb().counter <= mid.spec_kb().counter + d * b,
                        mid.spec_kb().counter + 8 * b <= usize::MAX,
                        1 <= depth,
                        dirs@ =~= seq![
                            Direction::North,
                            Direction::Sud,
                            Direction::East,
                            Direction::Ovest,
                        ],
                        requery_m(s2val, pos, original_position, bd, gsize, 0) == requery_m(
                            self.infer_state(),
                            pos,
                            original_position,
                            bd,
                            gsize,
                            d as int,
                        ),
                        cache_extends(mid.spec_cache(), self.spec_cache()),
                        self.spec_obj() == mid.spec_obj(),
                        self.spec_plan() == mid.spec_plan(),
                        self.spec_t() == mid.spec_t(),
                        self.spec_size_map() == gsize,
                    decreases 4 - d,
                {
                    proof {
                        assert(d * b <= 7 * b) by (nonlinear_arith)
                            requires 0 <= d <= 7, b >= 0;
                        assert(d * b + b == (d + 1) * b) by (nonlinear_arith);
                    }
                    let dir = dirs[d];
                    proof {
                        assert(dir == spec_dir_at(d as int)) by {
                            if d == 0 {
                            } else if d == 1 {
                            } else if d == 2 {
                            } else {
                                assert(d == 3);
                            }
                        }
                    }
                    let ghost pre = self.infer_state();
                    if pos.possible_move(dir, self.size_map) {
                        let _ = self.is_safe_rec(
                            pos.move_clone(dir),
                            original_position,
                            depth - 1,
                            oracle,
                        );
                    }
                    proof {
                        assert(requery_m(pre, pos, original_position, bd, gsize, d as int)
                            == requery_m(
                            self.infer_state(),
                            pos,
                            original_position,
                            bd,
                            gsize,
                            d + 1,
                        ));
                    }
                    d += 1;
                }
                let ghost sa = self.infer_state();
                proof {
                    assert(sa == requery_m(s2val, pos, original_position, bd, gsize, 0));
                }
                let mut d2: usize = 0;
                while d2 < 4
                    invariant
                        d2 <= 4,
                        self.wf(),
                        b == query_budget(bd),
                        bd == (depth - 1) as nat,
                        self.spec_kb().counter <= mid.spec_kb().counter + (4 + d2) * b,
                        mid.spec_kb().counter + 8 * b <= usize::MAX,
                        1 <= depth,
                        dirs@ =~= seq![
                            Direction::North,
                            Direction::Sud,
                            Direction::East,
                            Direction::Ovest,
                        ],
                        requery_m(sa, original_position, original_position, bd, gsize, 0)
                            == requery_m(
                            self.infer_state(),
                            original_position,
                            original_position,
                            bd,
                            gsize,
                            d2 as int,
                        ),
                        cache_extends(mid.spec_cache(), self.spec_cache()),
                        self.spec_obj() == mid.spec_obj(),
                        self.spec_plan() == mid.spec_plan(),
                        self.spec_t() == mid.spec_t(),
                        self.spec_size_map() == gsize,
                    decreases 4 - d2,
                {
                    proof {
                        assert((4 + d2) * b <= 7 * b) by (nonlinear_arith)
                            requires 0 <= 4 + d2 <= 7, b >= 0;
                        assert((4 + d2) * b + b == (4 + d2 + 1) * b) by (nonlinear_arith);
                    }
                    let dir = dirs[d2];
                    proof {
                        assert(dir == spec_dir_at(d2 as int)) by {
                            if d2 == 0 {
                            } else if d2 == 1 {
                            } else if d2 == 2 {
                            } else {
                                assert(d2 == 3);
                            }
                        }
                    }
                    let ghost pre = self.infer_state();
                    if original_position.possible_move(dir, self.size_map) {
                        let _ = self.is_safe_rec(
                            original_position.move_clone(dir),
                            original_position,
                            depth - 1,
                            oracle,
                        );
                    }
                    proof {
                        assert(requery_m(
                            pre,
                            original_position,
                            original_position,
                            bd,
                            gsize,
                            d2 as int,
                        ) == requery_m(
                            self.infer_state(),
                            original_position,
                            original_position,
                            bd,
                            gsize,
                            d2 + 1,
                        ));
                    }
                    d2 += 1;
                }
                proof {
                    assert(8 * b == (4 + 4) * b);
                    assert(self.infer_state() == requery_m(
                        sa,
                        original_position,
                        original_position,
                        bd,
                        gsize,
                        0,
                    ));
                    assert(self.infer_state() == is_safe_m(
                        s_in,
                        pos,
                        original_position,
                        depth as nat,
                        gsize,
                    ).0);
                }
            } else {
                proof {
                    assert(self.infer_state() == is_safe_m(
                        s_in,
                        pos,
                        original_position,
                        depth as nat,
                        gsize,
                    ).0);
                }
            }
        } else {
            proof {
                assert(self.infer_state() == is_safe_m(
                    s_in,
                    pos,
                    original_position,
                    depth as nat,
                    gsize,
                ).0);
            }
        }
        false
    }

    /// Decide the safety of `pos` with one level of transitive re-query,
    /// as the inference loop does on candidate destinations: the answer
    /// and every change to the store and the cache are `is_safe_m` at
    /// depth one.
    pub fn is_safe<O: SatOracle>(
        &mut self,
        pos: Position,
        original_position: Position,
        oracle: &mut O,
    ) -> (r: bool)
        requires
            old(self).wf(),
            old(self).spec_kb().counter + 108 <= usize::MAX,
        ensures
            final(self).wf(),
            final(self).spec_kb().counter <= old(self).spec_kb().counter + 108,
            final(self).infer_state() == is_safe_m(
                old(self).infer_state(),
                pos,
                original_position,
                1,
                old(self).spec_size_map(),
            ).0,
            r == is_safe_m(
                old(self).infer_state(),
                pos,
                original_position,
                1,
                old(self).spec_size_map(),
            ).1,
            cache_extends(old(self).spec_cache(), final(self).spec_cache()),
            final(self).spec_obj() == old(self).spec_obj(),
            final(self).spec_plan() == old(self).spec_plan(),
            final(self).spec_size_map() == old(self).spec_size_map(),
            final(self).spec_t() == old(self).spec_t(),
            r ==> final(self).spec_cache().spec_safe().contains(pos),
            !r ==> !old(self).spec_cache().spec_safe().contains(pos),
    {
        proof {
            assert(query_budget(0) == 12);
            assert(query_budget(1) == 108);
        }
        self.is_safe_rec(pos, original_position, 1, oracle)
    }
}

impl Hero {
    /// Pick the best-scoring candidate, breaking exact ties with a coin:
    /// the returned score is the maximum the candidates attain, and the
    /// returned action attains it.
    fn pick_best(&mut self, suitable: &Vec<Action>, p: &Perceptions) -> (r: (Option<Action>, i32))
        requires
            old(self).wf(),
            old(self).spec_obj() == Objective::GoHome ==> old(self).spec_plan() is Some,
            p.board_size == old(self).spec_size_map(),
            p.position.x < old(self).spec_size_map(),
            p.position.y < old(self).spec_size_map(),
            forall|i: int|
                0 <= i < suitable@.len() ==> action_admissible(
                    old(self).spec_cache(),
                    *p,
                    #[trigger] suitable@[i],
                ),
        ensures
            final(self).wf(),
            same_but_plan(*old(self), *final(self)),
            old(self).spec_obj() == Objective::GoHome ==> final(self).spec_plan() == old(
                self,
            ).spec_plan(),
            r.0 is Some ==> suitable@.contains(r.0->0),
            (r.0 is None) == (suitable@.len() == 0),
            r.1 as int == best_score(
                old(self).spec_cache().spec_visited(),
                old(self).spec_plan(),
                old(self).spec_obj(),
                suitable@,
                p.position,
                suitable@.len() as int,
            ),
            forall|i: int|
                0 <= i < suitable@.len() ==> #[trigger] cand_score(
                    old(self).spec_cache().spec_visited(),
                    old(self).spec_plan(),
                    old(self).spec_obj(),
                    suitable@,
                    p.position,
                    i,
                ) <= r.1 as int,
            r.0 is Some ==> exists|i: int|
                0 <= i < suitable@.len() && suitable@[i] == r.0->0 && cand_score(
                    old(self).spec_cache().spec_visited(),
                    old(self).spec_plan(),
                    old(self).spec_obj(),
                    suitable@,
                    p.position,
                    i,
                ) == r.1 as int,
            final(self).spec_plan() == plan_at(
                old(self).spec_cache().spec_visited(),
                old(self).spec_plan(),
                old(self).spec_obj(),
                suitable@,
                p.position,
                suitable@.len() as int,
            ),
    {
        let ghost v0 = old(self).spec_cache().spec_visited();
        let ghost plan0 = old(self).spec_plan();
        let ghost obj0 = old(self).spec_obj();
        let mut best: Option<Action> = None;
        let mut best_u: i32 = i32::MIN;
        let mut i: usize = 0;
        while i < suitable.len()
            invariant
                i <= suitable@.len(),
                self.wf(),
                same_but_plan(*old(self), *self),
                v0 == old(self).spec_cache().spec_visited(),
                plan0 == old(self).spec_plan(),
                obj0 == old(self).spec_obj(),
                old(self).spec_obj() == Objective::GoHome ==> self.spec_plan() == old(
                    self,
                ).spec_plan(),
                self.spec_obj() == Objective::GoHome ==> self.spec_plan() is Some,
                p.board_size == self.spec_size_map(),
                p.position.x < self.spec_size_map(),
                p.position.y < self.spec_size_map(),
                forall|j: int|
                    0 <= j < suitable@.len() ==> action_admissible(
                        old(self).spec_cache(),
                        *p,
                        #[trigger] suitable@[j],
                    ),
                best is Some ==> suitable@.contains(best->0),
                (best is None) == (i == 0),
                self.spec_plan() == plan_at(v0, plan0, obj0, suitable@, p.position, i as int),
                best_u as int == best_score(v0, plan0, obj0, suitable@, p.position, i as int),
                forall|j: int|
                    0 <= j < i ==> #[trigger] cand_score(
                        v0,
                        plan0,
                        obj0,
                        suitable@,
                        p.position,
                        j,
                    ) <= best_u as int,
                best is Some ==> exists|j: int|
                    0 <= j < i && suitable@[j] == best->0 && cand_score(
                        v0,
                        plan0,
                        obj0,
                        suitable@,
                        p.position,
                        j,
                    ) == best_u as int,
            decreases suitable@.len() - i,
        {
            let a = suitable[i];
            proof {
                assert(action_admissible(old(self).spec_cache(), *p, a));
            }
            let ghost plan_i = self.spec_plan();
            let u = self.utility(&a, &p.position);
            proof {
                assert(u as int == cand_score(v0, plan0, obj0, suitable@, p.position, i as int));
                assert(self.spec_plan() == plan_at(
                    v0,
                    plan0,
                    obj0,
                    suitable@,
                    p.position,
                    i + 1,
                ));
            }
            if best.is_none() || u > best_u {
                best = Some(a);
                best_u = u;
                proof {
                    assert(suitable@.contains(a)) by {
                        assert(suitable@[i as int] == a);
                    }
                }
            } else if u == best_u {
                if coin_flip(&mut self.rng) {
                    best = Some(a);
                    proof {
                        assert(suitable@.contains(a)) by {
                            assert(suitable@[i as int] == a);
                        }
                    }
                }
            }
            i += 1;
        }
        (best, best_u)
    }

    /// One turn of the inference loop: check consistency, assert the
    /// percept, settle the safety of candidate destinations, keep the
    /// plan alive, and choose the best-scoring admissible action.  The
    /// store and the settled cells end exactly as `settle_m` says; the
    /// current cell is marked visited; glitter forces the homeward
    /// objective, which is never left; and an answer is owed whenever a
    /// candidate that needs no planner scores above the sentinels.
    #[verifier::rlimit(100)]
    pub fn next_action<O: SatOracle, P: Planner>(
        &mut self,
        p: Perceptions,
        oracle: &mut O,
        planner: &mut P,
    ) -> (r: Result<Action, AgentError>)
        requires
            old(self).wf(),
            old(self).spec_kb().counter + 1024 <= usize::MAX,
            p.board_size == old(self).spec_size_map(),
            p.position.x < old(self).spec_size_map(),
            p.position.y < old(self).spec_size_map(),
            old(self).spec_cache().spec_safe().contains(p.position),
        ensures
            final(self).wf(),
            final(self).spec_size_map() == old(self).spec_size_map(),
            final(self).spec_kb().counter <= old(self).spec_kb().counter + 1024,
            (r == Err::<Action, AgentError>(AgentError::Inconsistent)) == !cnf_sat(
                old(self).spec_kb().clauses,
                old(self).spec_kb().counter,
            ),
            (match r {
                Ok(a) => action_admissible(final(self).spec_cache(), p, a),
                Err(_) => true,
            }),
            r != Err::<Action, AgentError>(AgentError::Inconsistent) ==> final(self).infer_state()
                == settle_m(
                (InferState {
                    kb: tell_m(old(self).spec_kb(), ground_truth(p)),
                    ..old(self).infer_state()
                }),
                consider_list(old(self).spec_cache(), p, 4),
                p.position,
                old(self).spec_size_map(),
            ),
            r != Err::<Action, AgentError>(AgentError::Inconsistent) ==> final(self).spec_cache().spec_visited()
                == old(self).spec_cache().spec_visited().push(p.position),
            old(self).spec_obj() == Objective::GoHome ==> final(self).spec_obj()
                == Objective::GoHome,
            p.glitter && r != Err::<Action, AgentError>(AgentError::Inconsistent) ==> final(self).spec_obj()
                == Objective::GoHome,
            r == Err::<Action, AgentError>(AgentError::NoPlanHome) ==> final(self).spec_obj()
                == Objective::GoHome,
            p.glitter ==> r != Err::<Action, AgentError>(AgentError::NoAction),
            r is Ok ==> final(self).spec_t() == (if old(self).spec_t() < usize::MAX as int {
                old(self).spec_t() + 1
            } else {
                old(self).spec_t()
            }),
            cnf_sat(old(self).spec_kb().clauses, old(self).spec_kb().counter) && !p.glitter
                && old(self).spec_obj() == Objective::TakeGold && (exists|dir: Direction|
                p.position.spec_possible_move(dir, p.board_size as int) && #[trigger] old(
                    self,
                ).spec_cache().spec_safe().contains(p.position.spec_move(dir)) && !old(
                    self,
                ).spec_cache().spec_visited().contains(p.position.spec_move(dir))) ==> r is Ok,
            cnf_sat(old(self).spec_kb().clauses, old(self).spec_kb().counter) && !p.glitter
                && old(self).spec_obj() == Objective::GoHome && p.position == (Position {
                x: 0,
                y: 0,
            }) && old(self).spec_plan() is Some && old(self).spec_plan()->0.len() > 0 ==> r
                is Ok,
    {
        let ghost gsize = old(self).spec_size_map();
        let ghost old_cache = old(self).spec_cache();
        let ghost old_visited = old(self).spec_cache().spec_visited();
        if !self.kb.consistency(oracle) {
            return Err(AgentError::Inconsistent);
        }
        let gt = EncoderSAT::create_ground_truth_from_perception(&p);
        proof {
            crate::kb::lemma_ground_truth_size(p);
        }
        let ghost kb0 = self.spec_kb();
        self.kb.tell(&gt);
        proof {
            crate::encoder::lemma_tell_extends(kb0, formula_view(gt));
        }
        let ghost s0 = self.infer_state();
        proof {
            assert(s0 =~= (InferState {
                kb: tell_m(old(self).spec_kb(), ground_truth(p)),
                ..old(self).infer_state()
            }));
        }
        let ghost c_tell = self.spec_kb().counter;
        let ghost full = consider_list(old_cache, p, 4);

        let mut suitable: Vec<Action> = Vec::new();
        if p.position == Position::new(0, 0) {
            suitable.push(Action::Exit);
            proof {
                assert(suitable@.last() == Action::Exit);
            }
        }
        let dirs = [Direction::North, Direction::Sud, Direction::East, Direction::Ovest];
        let mut to_consider: Vec<Direction> = Vec::new();
        let mut d: usize = 0;
        proof {
            assert(to_consider@ =~= consider_list(old_cache, p, 0));
        }
        while d < 4
            invariant
                d <= 4,
                self.wf(),
                p.board_size == self.spec_size_map(),
                gsize == self.spec_size_map(),
                self.spec_cache() == old_cache,
                self.infer_state() == s0,
                self.spec_obj() == old(self).spec_obj(),
                self.spec_plan() == old(self).spec_plan(),
                self.spec_t() == old(self).spec_t(),
                dirs@ =~= seq![Direction::North, Direction::Sud, Direction::East, Direction::Ovest],
                to_consider@.len() <= d,
                to_consider@ == consider_list(old_cache, p, d as int),
                p.position == (Position { x: 0, y: 0 }) ==> suitable@.contains(Action::Exit),
                forall|j: int|
                    0 <= j < d && p.position.spec_possible_move(
                        #[trigger] dirs@[j],
                        p.board_size as int,
                    ) && old_cache.spec_safe().contains(p.position.spec_move(dirs@[j]))
                        && !old_cache.spec_unsafe().contains(p.position.spec_move(dirs@[j]))
                        ==> suitable@.contains(Action::Move(dirs@[j])),
                forall|j: int|
                    0 <= j < suitable@.len() ==> action_admissible(
                        self.spec_cache(),
                        p,
                        #[trigger] suitable@[j],
                    ),
                forall|j: int|
                    0 <= j < to_consider@.len() ==> p.position.spec_possible_move(
                        #[trigger] to_consider@[j],
                        p.board_size as int,
                    ),
            decreases 4 - d,
        {
            let dir = dirs[d];
            proof {
                assert(dir == spec_dir_at(d as int)) by {
                    if d == 0 {
                    } else if d == 1 {
                    } else if d == 2 {
                    } else {
                        assert(d == 3);
                    }
                }
            }
            let ghost su_pre = suitable@;
            if p.position.possible_move(dir, self.size_map) {
                let mv = p.position.move_clone(dir);
                if !self.cache.is_unsafe(&mv) {
                    if self.cache.is_safe(&mv) {
                        suitable.push(Action::Move(dir));
                    } else {
                        to_consider.push(dir);
                    }
                }
            }
            proof {
                assert(su_pre.is_prefix_of(suitable@)) by {
                    if su_pre =~= suitable@ {
                        assert(suitable@.subrange(0, su_pre.len() as int) =~= su_pre);
                    } else {
                        lemma_push_prefix(su_pre, suitable@.last());
                        assert(suitable@ =~= su_pre.push(suitable@.last()));
                    }
                }
                assert(to_consider@ =~= consider_list(old_cache, p, d + 1));
                if p.position == (Position { x: 0, y: 0 }) {
                    lemma_prefix_contains(su_pre, suitable@, Action::Exit);
                }
                assert forall|j: int|
                    0 <= j < d + 1 && p.position.spec_possible_move(
                        #[trigger] dirs@[j],
                        p.board_size as int,
                    ) && old_cache.spec_safe().contains(p.position.spec_move(dirs@[j]))
                        && !old_cache.spec_unsafe().contains(p.position.spec_move(dirs@[j]))
                    implies suitable@.contains(Action::Move(dirs@[j])) by {
                    if j < d {
                        lemma_prefix_contains(su_pre, suitable@, Action::Move(dirs@[j]));
                    } else {
                        assert(suitable@.last() == Action::Move(dir));
                    }
                }
            }
            d += 1;
        }
        proof {
            assert forall|dir: Direction|
                p.position.spec_possible_move(dir, p.board_size as int)
                    && #[trigger] old_cache.spec_safe().contains(p.position.spec_move(dir))
                    && !old_cache.spec_unsafe().contains(p.position.spec_move(dir))
                implies suitable@.contains(Action::Move(dir)) by {
                match dir {
                    Direction::North => assert(dirs@[0] == dir),
                    Direction::Sud => assert(dirs@[1] == dir),
                    Direction::East => assert(dirs@[2] == dir),
                    Direction::Ovest => assert(dirs@[3] == dir),
                }
            }
        }
        let ghost su_mid = suitable@;
        if p.glitter {
            suitable.push(Action::Grab);
            self.obj = Objective::GoHome;
            self.plan = None;
            proof {
                assert(suitable@.last() == Action::Grab);
                lemma_push_prefix(su_mid, Action::Grab);
            }
        }
        proof {
            assert(su_mid.is_prefix_of(suitable@)) by {
                if !p.glitter {
                    assert(suitable@.subrange(0, su_mid.len() as int) =~= su_mid);
                }
            }
        }
        let ghost su2 = suitable@;
        let ghost obj_g = self.spec_obj();
        let ghost plan_g = self.spec_plan();
        let mut k: usize = 0;
        proof {
            assert(self.infer_state() == s0);
            assert(full.skip(0) =~= full);
        }
        while k < to_consider.len()
            invariant
                k <= to_consider@.len(),
                to_consider@.len() <= 4,
                to_consider@ == full,
                full == consider_list(old_cache, p, 4),
                self.wf(),
                p.board_size == self.spec_size_map(),
                gsize == self.spec_size_map(),
                p.position.x < self.spec_size_map(),
                p.position.y < self.spec_size_map(),
                self.spec_kb().counter <= c_tell + k * 108,
                c_tell + 4 * 108 + 1 <= usize::MAX,
                settle_m(s0, full, p.position, gsize) == settle_m(
                    self.infer_state(),
                    full.skip(k as int),
                    p.position,
                    gsize,
                ),
                self.spec_cache().spec_visited() == old_visited,
                forall|q: Position|
                    old_cache.spec_safe().contains(q) ==> #[trigger] self.spec_cache().spec_safe().contains(q),
                self.spec_obj() == obj_g,
                self.spec_plan() == plan_g,
                self.spec_t() == old(self).spec_t(),
                su2.is_prefix_of(suitable@),
                forall|j: int|
                    0 <= j < suitable@.len() ==> action_admissible(
                        self.spec_cache(),
                        p,
                        #[trigger] suitable@[j],
                    ),
                forall|j: int|
                    0 <= j < to_consider@.len() ==> p.position.spec_possible_move(
                        #[trigger] to_consider@[j],
                        p.board_size as int,
                    ),
            decreases to_consider@.len() - k,
        {
            let dir = to_consider[k];
            let mv = p.position.move_clone(dir);
            let ghost cpre = self.spec_cache();
            let ghost spre = self.infer_state();
            let safe_here = self.is_safe(mv, p.position, oracle);
            proof {
                assert(full.skip(k as int)[0] == full[k as int]);
                assert(full.skip(k as int).drop_first() =~= full.skip(k + 1));
                assert(settle_m(spre, full.skip(k as int), p.position, gsize) == settle_m(
                    self.infer_state(),
                    full.skip(k + 1),
                    p.position,
                    gsize,
                ));
                assert forall|j: int|
                    0 <= j < suitable@.len() implies action_admissible(
                    self.spec_cache(),
                    p,
                    #[trigger] suitable@[j],
                ) by {
                    assert(action_admissible(cpre, p, suitable@[j]));
                }
            }
            let ghost su_pre = suitable@;
            if safe_here {
                suitable.push(Action::Move(dir));
            }
            proof {
                assert(su_pre.is_prefix_of(suitable@)) by {
                    if su_pre =~= suitable@ {
                        assert(suitable@.subrange(0, su_pre.len() as int) =~= su_pre);
                    } else {
                        lemma_push_prefix(su_pre, suitable@.last());
                        assert(suitable@ =~= su_pre.push(suitable@.last()));
                    }
                }
                lemma_prefix_trans(su2, su_pre, suitable@);
            }
            k += 1;
        }
        proof {
            assert(full.skip(full.len() as int) =~= Seq::<Direction>::empty());
            assert(self.infer_state() == settle_m(s0, full, p.position, gsize));
        }
        let ghost cvis = self.spec_cache();
        let ghost s_settled = self.infer_state();
        self.cache.mark_visited(p.position);
        proof {
            assert forall|j: int|
                0 <= j < suitable@.len() implies action_admissible(
                self.spec_cache(),
                p,
                #[trigger] suitable@[j],
            ) by {
                assert(action_admissible(cvis, p, suitable@[j]));
            }
            assert(self.infer_state() =~= s_settled);
            assert(self.spec_cache().spec_visited() == old_visited.push(p.position));
        }

        let need = match &self.plan {
            None => true,
            Some(v) => v.len() == 0,
        };
        proof {
            // a fresh safe unvisited neighbour, when the hypothesis of the
            // owed-success clause holds, guarantees the gold-seeking plan
            if cnf_sat(old(self).spec_kb().clauses, old(self).spec_kb().counter) && !p.glitter
                && old(self).spec_obj() == Objective::TakeGold && (exists|dir: Direction|
                p.position.spec_possible_move(dir, p.board_size as int) && #[trigger] old(
                    self,
                ).spec_cache().spec_safe().contains(p.position.spec_move(dir)) && !old(
                    self,
                ).spec_cache().spec_visited().contains(p.position.spec_move(dir))) {
                let dir = choose|dir: Direction|
                    p.position.spec_possible_move(dir, p.board_size as int)
                        && #[trigger] old_cache.spec_safe().contains(p.position.spec_move(dir))
                        && !old_cache.spec_visited().contains(p.position.spec_move(dir));
                let mv = p.position.spec_move(dir);
                assert(mv != p.position) by {
                    match dir {
                        Direction::North => {},
                        Direction::Sud => {},
                        Direction::East => {},
                        Direction::Ovest => {},
                    }
                }
                assert(self.spec_cache().spec_safe().contains(mv));
                assert(!self.spec_cache().spec_visited().contains(mv)) by {
                    lemma_contains_push_inv(old_visited, p.position, mv);
                }
                assert(p.position.spec_possible_move(dir, self.spec_size_map()));
            }
        }
        if need {
            self.plan = None;
            if !self.create_plan(p.position, planner) {
                if matches!(self.obj, Objective::GoHome) {
                    return Err(AgentError::NoPlanHome);
                }
                self.obj = Objective::GoHome;
                if !self.create_plan(p.position, planner) {
                    return Err(AgentError::NoPlanHome);
                }
            }
        }

        let ghost vis_pb = self.spec_cache().spec_visited();
        let ghost plan_pb = self.spec_plan();
        let ghost obj_pb = self.spec_obj();
        let (best, best_u) = self.pick_best(&suitable, &p);
        proof {
            if cnf_sat(old(self).spec_kb().clauses, old(self).spec_kb().counter) && !p.glitter
                && old(self).spec_obj() == Objective::TakeGold && (exists|dir: Direction|
                p.position.spec_possible_move(dir, p.board_size as int) && #[trigger] old(
                    self,
                ).spec_cache().spec_safe().contains(p.position.spec_move(dir)) && !old(
                    self,
                ).spec_cache().spec_visited().contains(p.position.spec_move(dir))) {
                let dir = choose|dir: Direction|
                    p.position.spec_possible_move(dir, p.board_size as int)
                        && #[trigger] old_cache.spec_safe().contains(p.position.spec_move(dir))
                        && !old_cache.spec_visited().contains(p.position.spec_move(dir));
                let mv = p.position.spec_move(dir);
                assert(!old_cache.spec_unsafe().contains(mv));
                assert(su2.contains(Action::Move(dir))) by {
                    lemma_prefix_contains(su_mid, su2, Action::Move(dir));
                }
                lemma_prefix_contains(su2, suitable@, Action::Move(dir));
                let i = choose|i: int|
                    0 <= i < suitable@.len() && suitable@[i] == Action::Move(dir);
                assert(mv != p.position) by {
                    match dir {
                        Direction::North => {},
                        Direction::Sud => {},
                        Direction::East => {},
                        Direction::Ovest => {},
                    }
                }
                assert(!vis_pb.contains(mv)) by {
                    lemma_contains_push_inv(old_visited, p.position, mv);
                }
                assert(cand_score(vis_pb, plan_pb, obj_pb, suitable@, p.position, i) == 1);
                assert(best_u as int >= 1);
            }
            if p.glitter {
                assert(su2.contains(Action::Grab)) by {
                    assert(su2.last() == Action::Grab);
                }
                lemma_prefix_contains(su2, suitable@, Action::Grab);
                let i = choose|i: int| 0 <= i < suitable@.len() && suitable@[i] == Action::Grab;
                assert(cand_score(vis_pb, plan_pb, obj_pb, suitable@, p.position, i)
                    == i32::MAX as int);
                assert(best_u == i32::MAX);
            }
            if !p.glitter && old(self).spec_obj() == Objective::GoHome && p.position == (Position {
                x: 0,
                y: 0,
            }) && old(self).spec_plan() is Some && old(self).spec_plan()->0.len() > 0 {
                assert(su2.contains(Action::Exit)) by {
                    lemma_prefix_contains(su_mid, su2, Action::Exit);
                }
                lemma_prefix_contains(su2, suitable@, Action::Exit);
                let i = choose|i: int| 0 <= i < suitable@.len() && suitable@[i] == Action::Exit;
                assert(obj_pb == Objective::GoHome);
                assert(cand_score(vis_pb, plan_pb, obj_pb, suitable@, p.position, i)
                    == i32::MAX as int);
                assert(best_u == i32::MAX);
            }
        }
        if best_u == i32::MIN || best_u == i32::MIN + 1 {
            // the plan led nowhere useful: rebuild it once and rescore,
            // falling back to heading home before giving up
            self.plan = None;
            if !self.create_plan(p.position, planner) {
                if matches!(self.obj, Objective::GoHome) {
                    return Err(AgentError::NoPlanHome);
                }
                self.obj = Objective::GoHome;
                if !self.create_plan(p.position, planner) {
                    return Err(AgentError::NoPlanHome);
                }
            }
            let (best2, best_u2) = self.pick_best(&suitable, &p);
            if best_u2 == i32::MIN || best_u2 == i32::MIN + 1 {
                return Err(AgentError::NoAction);
            }
            match best2 {
                Some(a) => {
                    if self.t < usize::MAX {
                        self.t = self.t + 1;
                    }
                    return Ok(a);
                },
                None => {
                    return Err(AgentError::NoAction);
                },
            }
        }
        match best {
            Some(a) => {
                if self.t < usize::MAX {
                    self.t = self.t + 1;
                }
                Ok(a)
            },
            None => Err(AgentError::NoAction),
        }
    }
}

/// Why the agent cannot go on.
#[derive(Clone, Copy, PartialEq, Eq, Structural, Debug)]
pub enum AgentError {
    /// The knowledge base is unsatisfiable: the theory is broken.
    Inconsistent,
    /// No candidate action scored above the impossible.
    NoAction,
    /// No route home exists, which the world contract rules out.
    NoPlanHome,
}

/// Two agent states that agree on everything but the plan.
pub open spec fn same_but_plan(a: Hero, b: Hero) -> bool {
    &&& b.spec_kb() == a.spec_kb()
    &&& b.spec_obj() == a.spec_obj()
    &&& b.spec_cache().spec_safe() == a.spec_cache().spec_safe()
    &&& b.spec_cache().spec_unsafe() == a.spec_cache().spec_unsafe()
    &&& b.spec_cache().spec_visited() == a.spec_cache().spec_visited()
    &&& b.spec_cache().spec_wumpus() == a.spec_cache().spec_wumpus()
    &&& b.spec_size_map() == a.spec_size_map()
    &&& b.spec_t() == a.spec_t()
}

/// Appending keeps the old elements a prefix.
proof fn lemma_push_prefix<A>(s: Seq<A>, x: A)
    ensures
        s.is_prefix_of(s.push(x)),
{
    assert(s.push(x).subrange(0, s.len() as int) =~= s);
}

/// A prefix keeps every element of the shorter sequence.
proof fn lemma_prefix_contains<A>(a: Seq<A>, b: Seq<A>, x: A)
    requires
        a.is_prefix_of(b),
        a.contains(x),
    ensures
        b.contains(x),
{
    let i = choose|i: int| 0 <= i < a.len() && a[i] == x;
    assert(b.subrange(0, a.len() as int)[i] == b[i]);
    assert(b[i] == x);
}

/// Being a prefix is transitive.
proof fn lemma_prefix_trans<A>(a: Seq<A>, b: Seq<A>, c: Seq<A>)
    requires
        a.is_prefix_of(b),
        b.is_prefix_of(c),
    ensures
        a.is_prefix_of(c),
{
    assert forall|i: int| 0 <= i < a.len() implies a[i] == c.subrange(0, a.len() as int)[i] by {
        assert(b.subrange(0, a.len() as int)[i] == b[i]);
        assert(c.subrange(0, b.len() as int)[i] == c[i]);
    }
    assert(a =~= c.subrange(0, a.len() as int));
}

impl Hero {
    /// Score a candidate action while seeking the gold; scoring the last
    /// step of the plan consumes the plan.
    fn utility_take_gold(&mut self, a: &Action, p: &Position) -> (r: i32)
        requires
            !matches!(*a, Action::Shoot(_)),
            (match *a {
                Action::Move(dir) => p.spec_possible_move(dir, old(self).spec_size_map()),
                _ => true,
            }),
        ensures
            same_but_plan(*old(self), *final(self)),
            final(self).spec_plan() == tg_plan_after(
                old(self).spec_cache().spec_visited(),
                old(self).spec_plan(),
                *a,
                *p,
            ),
            r as int == tg_score(
                old(self).spec_cache().spec_visited(),
                old(self).spec_plan(),
                *a,
                *p,
            ),
    {
        match *a {
            Action::Move(direction) => {
                let mv = p.move_clone(direction);
                if self.cache.is_visited(&mv) {
                    let search: Option<(usize, usize)> = match &self.plan {
                        Some(plan) => match find_first(plan, &mv) {
                            Some(i) => Some((i, plan.len())),
                            None => None,
                        },
                        None => None,
                    };
                    match &self.plan {
                        Some(_) => {
                            match search {
                                Some((i, glen)) => {
                                    let g = glen - i - 1;
                                    let r = if g <= (i32::MAX as usize) {
                                        (-(g as i64)) as i32
                                    } else {
                                        i32::MIN + 1
                                    };
                                    if i == glen - 1 {
                                        self.plan = None;
                                    }
                                    r
                                },
                                None => i32::MIN + 1,
                            }
                        },
                        None => i32::MIN,
                    }
                } else {
                    1
                }
            },
            Action::Grab => i32::MAX,
            Action::Shoot(_) => {
                proof {
                    assert(false);
                }
                i32::MIN
            },
            Action::Exit => i32::MIN,
        }
    }

    /// Score a candidate action while heading home.
    fn utility_go_home(&mut self, a: &Action, p: &Position) -> (r: i32)
        requires
            old(self).wf(),
            old(self).spec_plan() is Some,
            p.x < old(self).spec_size_map(),
            p.y < old(self).spec_size_map(),
            (match *a {
                Action::Move(dir) => p.spec_possible_move(dir, old(self).spec_size_map()),
                _ => true,
            }),
        ensures
            same_but_plan(*old(self), *final(self)),
            final(self).spec_plan() == old(self).spec_plan(),
            r as int == gh_score(old(self).spec_plan()->0, *a, *p),
    {
        match *a {
            Action::Move(direction) => {
                let mv = p.move_clone(direction);
                let found = match &self.plan {
                    Some(plan) => vec_contains(plan, &mv),
                    None => false,
                };
                if found {
                    -distance_to_zero(&mv)
                } else {
                    i32::MIN
                }
            },
            Action::Grab => i32::MAX,
            Action::Shoot(_) => i32::MIN,
            Action::Exit => i32::MAX,
        }
    }

    /// Score a candidate action under the current objective.
    fn utility(&mut self, a: &Action, p: &Position) -> (r: i32)
        requires
            old(self).wf(),
            !matches!(*a, Action::Shoot(_)),
            old(self).spec_obj() == Objective::GoHome ==> old(self).spec_plan() is Some,
            p.x < old(self).spec_size_map(),
            p.y < old(self).spec_size_map(),
            (match *a {
                Action::Move(dir) => p.spec_possible_move(dir, old(self).spec_size_map()),
                _ => true,
            }),
        ensures
            same_but_plan(*old(self), *final(self)),
            old(self).spec_obj() == Objective::GoHome ==> final(self).spec_plan() == old(
                self,
            ).spec_plan(),
            r as int == (if old(self).spec_obj() == Objective::TakeGold {
                tg_score(
                    old(self).spec_cache().spec_visited(),
                    old(self).spec_plan(),
                    *a,
                    *p,
                )
            } else {
                gh_score(old(self).spec_plan()->0, *a, *p)
            }),
            final(self).spec_plan() == (if old(self).spec_obj() == Objective::TakeGold {
                tg_plan_after(
                    old(self).spec_cache().spec_visited(),
                    old(self).spec_plan(),
                    *a,
                    *p,
                )
            } else {
                old(self).spec_plan()
            }),
    {
        match self.obj {
            Objective::TakeGold => self.utility_take_gold(a, p),
            Objective::GoHome => self.utility_go_home(a, p),
        }
    }

    /// Ask the planner for a route fitting the current objective; while
    /// gold-seeking, a safe unvisited neighbour needs no plan at all, so
    /// the call is owed success whenever one exists.
    fn create_plan<P: Planner>(&mut self, actual_position: Position, planner: &mut P) -> (r:
        bool)
        requires
            old(self).wf(),
            old(self).spec_plan() is None,
        ensures
            final(self).wf(),
            same_but_plan(*old(self), *final(self)),
            final(self).spec_obj() == Objective::GoHome && r ==> final(self).spec_plan() is Some,
            !r ==> final(self).spec_plan() is None,
            old(self).spec_obj() == Objective::TakeGold && (exists|dir: Direction|
                actual_position.spec_possible_move(dir, old(self).spec_size_map())
                    && #[trigger] old(self).spec_cache().spec_safe().contains(
                    actual_position.spec_move(dir),
                ) && !old(self).spec_cache().spec_visited().contains(
                    actual_position.spec_move(dir),
                )) ==> r,
    {
        match self.obj {
            Objective::TakeGold => {
                if self.cache.safe_neighbourhood(&actual_position, self.size_map) {
                    return true;
                }
                self.plan = planner.plan_gold(&self.cache, self.size_map, actual_position);
            },
            Objective::GoHome => {
                self.plan = planner.plan_home(&self.cache, self.size_map, actual_position);
            },
        }
        match &self.plan {
            Some(_) => true,
            None => false,
        }
    }
}

/// An action the agent may legitimately hand to the world: exit only at
/// the origin, grab only on glitter, move only to a legal neighbour
/// settled safe.
pub open spec fn action_admissible(c: Cache, p: Perceptions, a: Action) -> bool {
    match a {
        Action::Exit => p.position == (Position { x: 0, y: 0 }),
        Action::Grab => p.glitter,
        Action::Move(dir) => p.position.spec_possible_move(dir, p.board_size as int)
            && c.spec_safe().contains(p.position.spec_move(dir)),
        Action::Shoot(_) => false,
    }
}

/// The gold-seeking score of a candidate action: grabbing beats all,
/// stepping onto fresh safe ground is good, backtracking along the plan
/// costs the distance still to walk, and everything else is hopeless.
pub open spec fn tg_score(
    visited: Seq<Position>,
    plan: Option<Seq<Position>>,
    a: Action,
    p: Position,
) -> int {
    match a {
        Action::Grab => i32::MAX as int,
        Action::Exit => i32::MIN as int,
        Action::Shoot(_) => i32::MIN as int,
        Action::Move(dir) => {
            let mv = p.spec_move(dir);
            if !visited.contains(mv) {
                1
            } else {
                match plan {
                    None => i32::MIN as int,
                    Some(pl) => {
                        let i = first_index_of(pl, mv);
                        if i == -1 {
                            i32::MIN + 1
                        } else {
                            let g = pl.len() - i - 1;
                            if g <= i32::MAX {
                                -g
                            } else {
                                i32::MIN + 1
                            }
                        }
                    },
                }
            }
        },
    }
}

/// The plan after scoring one gold-seeking action: consumed once the
/// scored move is its final step, kept otherwise.
pub open spec fn tg_plan_after(
    visited: Seq<Position>,
    plan: Option<Seq<Position>>,
    a: Action,
    p: Position,
) -> Option<Seq<Position>> {
    match a {
        Action::Move(dir) => {
            let mv = p.spec_move(dir);
            if visited.contains(mv) {
                match plan {
                    Some(pl) => {
                        let i = first_index_of(pl, mv);
                        if i != -1 && i == pl.len() - 1 {
                            None
                        } else {
                            plan
                        }
                    },
                    None => None,
                }
            } else {
                plan
            }
        },
        _ => plan,
    }
}

/// The homeward score of a candidate action: exiting or grabbing beats
/// all, a move along the plan is worth minus its distance from the
/// origin, anything else is hopeless.
pub open spec fn gh_score(plan: Seq<Position>, a: Action, p: Position) -> int {
    match a {
        Action::Grab => i32::MAX as int,
        Action::Exit => i32::MAX as int,
        Action::Shoot(_) => i32::MIN as int,
        Action::Move(dir) => {
            let mv = p.spec_move(dir);
            if plan.contains(mv) {
                -(mv.x + mv.y)
            } else {
                i32::MIN as int
            }
        },
    }
}

/// The score a candidate receives under the given objective.
pub open spec fn score_of(
    visited: Seq<Position>,
    plan: Option<Seq<Position>>,
    obj: Objective,
    a: Action,
    p: Position,
) -> int {
    if obj == Objective::TakeGold {
        tg_score(visited, plan, a, p)
    } else {
        gh_score(plan->0, a, p)
    }
}

/// The plan after scoring one candidate under the given objective.
pub open spec fn plan_step(
    visited: Seq<Position>,
    plan: Option<Seq<Position>>,
    obj: Objective,
    a: Action,
    p: Position,
) -> Option<Seq<Position>> {
    if obj == Objective::TakeGold {
        tg_plan_after(visited, plan, a, p)
    } else {
        plan
    }
}

/// The plan in force when the `i`-th candidate is scored: scoring runs
/// left to right and may consume the plan along the way.
pub open spec fn plan_at(
    visited: Seq<Position>,
    plan0: Option<Seq<Position>>,
    obj: Objective,
    acts: Seq<Action>,
    p: Position,
    i: int,
) -> Option<Seq<Position>>
    decreases i,
{
    if i <= 0 {
        plan0
    } else {
        plan_step(visited, plan_at(visited, plan0, obj, acts, p, i - 1), obj, acts[i - 1], p)
    }
}

/// The score the `i`-th candidate receives.
pub open spec fn cand_score(
    visited: Seq<Position>,
    plan0: Option<Seq<Position>>,
    obj: Objective,
    acts: Seq<Action>,
    p: Position,
    i: int,
) -> int {
    score_of(visited, plan_at(visited, plan0, obj, acts, p, i), obj, acts[i], p)
}

/// The best score among the first `i` candidates (`i32::MIN` when there
/// are none).
pub open spec fn best_score(
    visited: Seq<Position>,
    plan0: Option<Seq<Position>>,
    obj: Objective,
    acts: Seq<Action>,
    p: Position,
    i: int,
) -> int
    decreases i,
{
    if i <= 0 {
        i32::MIN as int
    } else {
        let prev = best_score(visited, plan0, obj, acts, p, i - 1);
        let cur = cand_score(visited, plan0, obj, acts, p, i - 1);
        if cur >= prev {
            cur
        } else {
            prev
        }
    }
}

/// The directions the inference loop must still settle: legal
/// neighbours of the current cell neither cached safe nor cached
/// unsafe, in emission order.
pub open spec fn consider_list(c: Cache, p: Perceptions, d: int) -> Seq<Direction>
    decreases d,
{
    if d <= 0 {
        Seq::empty()
    } else {
        consider_list(c, p, d - 1) + ({
            let dir = spec_dir_at(d - 1);
            let mv = p.position.spec_move(dir);
            if p.position.spec_possible_move(dir, p.board_size as int) && !c.spec_unsafe().contains(
                mv,
            ) && !c.spec_safe().contains(mv) {
                seq![dir]
            } else {
                Seq::empty()
            }
        })
    }
}

/// Settle each listed direction in turn with a depth-one safety query
/// issued from `start`.
pub open spec fn settle_m(
    s: InferState,
    ds: Seq<Direction>,
    start: Position,
    size: int,
) -> InferState
    decreases ds.len(),
{
    if ds.len() == 0 {
        s
    } else {
        settle_m(
            is_safe_m(s, start.spec_move(ds[0]), start, 1, size).0,
            ds.drop_first(),
            start,
            size,
        )
    }
}

/// First index of `p` in `v`, by linear scan.
fn find_first(v: &Vec<Position>, p: &Position) -> (r: Option<usize>)
    ensures
        match r {
            Some(i) => i < v@.len() && first_index_of(v@, *p) == i,
            None => first_index_of(v@, *p) == -1,
        },
{
    let mut i: usize = 0;
    while i < v.len()
        invariant
            i <= v@.len(),
            forall|j: int| 0 <= j < i ==> v@[j] != *p,
        decreases v@.len() - i,
    {
        if v[i] == *p {
            proof {
                lemma_first_index_found(v@, *p, i as int);
            }
            return Some(i);
        }
        i += 1;
    }
    proof {
        lemma_first_index_none(v@, *p);
    }
    None
}

} // verus!
