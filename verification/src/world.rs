//! The Wumpus-World grid: positions, directions, actions, percepts, and the
//! simulated dungeon itself.

use vstd::prelude::*;

use crate::random::rand_below;

verus! {

/// A cell of the `size x size` grid; `x` grows East, `y` grows Sud.
#[derive(Clone, Copy, Debug, Hash, PartialEq, Eq, Structural)]
pub struct Position {
    pub x: usize,
    pub y: usize,
}

/// The four grid directions.
#[derive(Clone, Copy, Hash, PartialEq, Eq, Structural, Debug)]
pub enum Direction {
    North,
    Sud,
    East,
    Ovest,
}

/// What the agent can do on its turn.
#[derive(Clone, Copy, PartialEq, Eq, Structural, Debug)]
pub enum Action {
    Move(Direction),
    Grab,
    Shoot(Direction),
    Exit,
}

/// The percept vector the world delivers each turn.
#[derive(Debug)]
pub struct Perceptions {
    pub glitter: bool,
    pub stench: bool,
    pub breeze: bool,
    pub howl: bool,
    pub bump: bool,
    pub position: Position,
    pub board_size: usize,
}

impl Default for Perceptions {
    /// All percepts off, at the origin of an empty board.
    fn default() -> (r: Self)
        ensures
            !r.glitter && !r.stench && !r.breeze && !r.howl && !r.bump,
            r.position == (Position { x: 0, y: 0 }),
            r.board_size == 0,
    {
        Perceptions {
            glitter: false,
            stench: false,
            breeze: false,
            howl: false,
            bump: false,
            position: Position { x: 0, y: 0 },
            board_size: 0,
        }
    }
}

/// What happens to the simulation after one action.
#[derive(Clone, Copy, PartialEq, Eq, Structural, Debug)]
pub enum StepOutcome {
    /// The hero survives; the run goes on.
    Continue,
    /// Exit taken at the origin while the gold was already grabbed.
    EscapedWithGold,
    /// Exit taken at the origin with the gold still in the dungeon.
    EscapedWithoutGold,
    /// The hero stepped onto the Wumpus or into a pit.
    Dead,
    /// Grab on a cell holding something other than the gold.
    IllegalGrab,
    /// Exit taken away from the origin.
    IllegalExit,
}

impl Default for Position {
    /// The origin cell.
    fn default() -> (r: Self)
        ensures
            r == (Position { x: 0, y: 0 }),
    {
        Position { x: 0, y: 0 }
    }
}

impl Position {
    pub fn new(x: usize, y: usize) -> (r: Self)
        ensures
            r == (Position { x, y }),
    {
        Self { x, y }
    }

    /// The neighbouring cell in direction `dir`, as a spec-level map.
    pub open spec fn spec_move(self, dir: Direction) -> Position {
        match dir {
            Direction::North => Position { x: self.x, y: (self.y - 1) as usize },
            Direction::Sud => Position { x: self.x, y: (self.y + 1) as usize },
            Direction::East => Position { x: (self.x + 1) as usize, y: self.y },
            Direction::Ovest => Position { x: (self.x - 1) as usize, y: self.y },
        }
    }

    /// Whether moving in `dir` stays on a `size x size` board.
    pub open spec fn spec_possible_move(self, dir: Direction, size: int) -> bool {
        match dir {
            Direction::North => self.y > 0,
            Direction::Sud => self.y < size - 1,
            Direction::East => self.x < size - 1,
            Direction::Ovest => self.x > 0,
        }
    }

    /// The neighbouring cell in direction `dir`.
    pub fn move_clone(&self, dir: Direction) -> (r: Self)
        requires
            matches!(dir, Direction::North) ==> self.y >= 1,
            matches!(dir, Direction::Ovest) ==> self.x >= 1,
            matches!(dir, Direction::Sud) ==> self.y < usize::MAX,
            matches!(dir, Direction::East) ==> self.x < usize::MAX,
        ensures
            r == self.spec_move(dir),
    {
        match dir {
            Direction::North => Self::new(self.x, self.y - 1),
            Direction::Sud => Self::new(self.x, self.y + 1),
            Direction::East => Self::new(self.x + 1, self.y),
            Direction::Ovest => Self::new(self.x - 1, self.y),
        }
    }

    /// Move this position one cell in direction `dir`.
    pub fn move_in(&mut self, dir: Direction)
        requires
            matches!(dir, Direction::North) ==> old(self).y >= 1,
            matches!(dir, Direction::Ovest) ==> old(self).x >= 1,
            matches!(dir, Direction::Sud) ==> old(self).y < usize::MAX,
            matches!(dir, Direction::East) ==> old(self).x < usize::MAX,
        ensures
            *final(self) == old(self).spec_move(dir),
    {
        match dir {
            Direction::North => self.y = self.y - 1,
            Direction::Sud => self.y = self.y + 1,
            Direction::East => self.x = self.x + 1,
            Direction::Ovest => self.x = self.x - 1,
        }
    }

    /// Whether moving in `dir` keeps the position on a `size x size` board.
    pub fn possible_move(&self, dir: Direction, size: usize) -> (r: bool)
        requires
            size >= 1,
        ensures
            r == self.spec_possible_move(dir, size as int),
    {
        match dir {
            Direction::North => self.y > 0,
            Direction::Sud => self.y < size - 1,
            Direction::East => self.x < size - 1,
            Direction::Ovest => self.x > 0,
        }
    }
}

/// What a dungeon cell can hold.
#[derive(Clone, Copy, Debug, PartialEq, Eq, Structural)]
enum Entity {
    Pit,
    Wumpus,
    Gold,
}

/// The simulated dungeon: a square grid of cells, the hero's position,
/// and whether the gold is still inside.
pub struct World {
    dungeon: Vec<Vec<Option<Entity>>>,
    gold_in_dungeon: bool,
    hero_pos: Position,
    arrow: bool,
}

/// Every cell of a `dim x dim` board but the origin, in row-major
/// order: pairwise distinct, on the board, and away from the origin.
fn free_cells(dim: usize) -> (free: Vec<Position>)
    requires
        1 <= dim <= 0xFFFF,
    ensures
        free@.len() == dim * dim - 1,
        forall|i: int|
            0 <= i < free@.len() ==> (#[trigger] free@[i]).x < dim && free@[i].y < dim
                && free@[i] != (Position { x: 0, y: 0 }),
        forall|i: int, j: int| 0 <= i < j < free@.len() ==> free@[i] != free@[j],
{
    let mut free: Vec<Position> = Vec::new();
    let mut k: usize = 1;
    proof {
        assert(1 <= dim * dim) by (nonlinear_arith)
            requires dim >= 1;
        assert(dim * dim <= 0xFFFF * 0xFFFF) by (nonlinear_arith)
            requires 1 <= dim <= 0xFFFF;
    }
    let n2 = dim * dim;
    while k < n2
        invariant
            1 <= k <= n2,
            n2 == dim * dim,
            dim >= 1,
            free@.len() == k - 1,
            forall|i: int|
                0 <= i < free@.len() ==> (#[trigger] free@[i]) == (Position {
                    x: ((i + 1) as int % dim as int) as usize,
                    y: ((i + 1) as int / dim as int) as usize,
                }),
            forall|i: int|
                0 <= i < free@.len() ==> (#[trigger] free@[i]).x < dim && free@[i].y < dim
                    && free@[i] != (Position { x: 0, y: 0 }),
        decreases n2 - k,
    {
        let px = k % dim;
        let py = k / dim;
        proof {
            assert(k / dim < dim) by (nonlinear_arith)
                requires dim >= 1, k < dim * dim;
            assert(k % dim < dim) by (nonlinear_arith)
                requires dim >= 1;
            assert(!(px == 0 && py == 0)) by (nonlinear_arith)
                requires
                    px == k % dim,
                    py == k / dim,
                    1 <= k,
                    dim >= 1,
            ;
        }
        let ghost fr0 = free@;
        free.push(Position::new(px, py));
        proof {
            assert forall|i: int|
                0 <= i < free@.len() implies (#[trigger] free@[i]) == (Position {
                x: ((i + 1) as int % dim as int) as usize,
                y: ((i + 1) as int / dim as int) as usize,
            }) by {
                if i == free@.len() - 1 {
                    assert(free@[i] == (Position { x: px, y: py }));
                    assert((i + 1) as int == k as int);
                } else {
                    assert(free@[i] == fr0[i]);
                }
            }
            assert forall|i: int|
                0 <= i < free@.len() implies (#[trigger] free@[i]).x < dim && free@[i].y < dim
                && free@[i] != (Position { x: 0, y: 0 }) by {
                if i == free@.len() - 1 {
                    assert(free@[i] == (Position { x: px, y: py }));
                    if px == 0 && py == 0 {
                        vstd::arithmetic::div_mod::lemma_fundamental_div_mod(
                            k as int,
                            dim as int,
                        );
                    }
                } else {
                    assert(free@[i] == fr0[i]);
                }
            }
        }
        k += 1;
    }
    proof {
        // the cell index decomposes uniquely, so the cells are pairwise
        // distinct
        assert forall|i: int, j: int|
            0 <= i < j < free@.len() implies free@[i] != free@[j] by {
            vstd::arithmetic::div_mod::lemma_fundamental_div_mod(i + 1, dim as int);
            vstd::arithmetic::div_mod::lemma_fundamental_div_mod(j + 1, dim as int);
        }
    }
    free
}

/// A row prefix without pits counts none.
proof fn lemma_pit_row_none(w: World, y: int, x: int)
    requires
        forall|a: int| 0 <= a < x ==> !w.pit_at(a, y),
    ensures
        w.pit_count_row(y, x) == 0,
    decreases x,
{
    if x > 0 {
        lemma_pit_row_none(w, y, x - 1);
    }
}

/// A board without pits in its first rows counts none there.
proof fn lemma_pit_count_none(w: World, y: int)
    requires
        forall|a: int, b: int| 0 <= a < w.spec_size() && 0 <= b < y ==> !w.pit_at(a, b),
    ensures
        w.pit_count_rows(y) == 0,
    decreases y,
{
    if y > 0 {
        lemma_pit_count_none(w, y - 1);
        lemma_pit_row_none(w, y - 1, w.spec_size());
    }
}

/// Rows that agree on their pits count alike.
proof fn lemma_pit_row_same(w1: World, w2: World, y: int, x: int)
    requires
        forall|a: int| 0 <= a < x ==> w2.pit_at(a, y) == w1.pit_at(a, y),
    ensures
        w2.pit_count_row(y, x) == w1.pit_count_row(y, x),
    decreases x,
{
    if x > 0 {
        lemma_pit_row_same(w1, w2, y, x - 1);
    }
}

/// Boards that agree on their pits below row `y` count alike there.
proof fn lemma_pit_count_same(w1: World, w2: World, y: int)
    requires
        w1.spec_size() == w2.spec_size(),
        forall|a: int, b: int|
            0 <= a < w1.spec_size() && 0 <= b < y ==> w2.pit_at(a, b) == w1.pit_at(a, b),
    ensures
        w2.pit_count_rows(y) == w1.pit_count_rows(y),
    decreases y,
{
    if y > 0 {
        lemma_pit_count_same(w1, w2, y - 1);
        lemma_pit_row_same(w1, w2, y - 1, w1.spec_size());
    }
}

/// Changing one cell of a row changes its count by that cell alone.
proof fn lemma_pit_row_update(w1: World, w2: World, y: int, x: int, ux: int)
    requires
        0 <= ux < x,
        forall|a: int| 0 <= a < x && a != ux ==> w2.pit_at(a, y) == w1.pit_at(a, y),
    ensures
        w2.pit_count_row(y, x) == w1.pit_count_row(y, x) + (if w2.pit_at(ux, y) {
            1int
        } else {
            0int
        }) - (if w1.pit_at(ux, y) {
            1int
        } else {
            0int
        }),
    decreases x,
{
    if ux == x - 1 {
        lemma_pit_row_same(w1, w2, y, x - 1);
    } else {
        lemma_pit_row_update(w1, w2, y, x - 1, ux);
    }
}

/// Changing one cell of the board changes the pit count by that cell
/// alone.
proof fn lemma_pit_count_cell(w1: World, w2: World, ux: int, uy: int, y: int)
    requires
        w1.spec_size() == w2.spec_size(),
        0 <= ux < w1.spec_size(),
        0 <= uy < y,
        forall|a: int, b: int|
            0 <= a < w1.spec_size() && 0 <= b < y && !(a == ux && b == uy) ==> w2.pit_at(a, b)
                == w1.pit_at(a, b),
    ensures
        w2.pit_count_rows(y) == w1.pit_count_rows(y) + (if w2.pit_at(ux, uy) {
            1int
        } else {
            0int
        }) - (if w1.pit_at(ux, uy) {
            1int
        } else {
            0int
        }),
    decreases y,
{
    if uy == y - 1 {
        lemma_pit_count_same(w1, w2, y - 1);
        lemma_pit_row_update(w1, w2, y - 1, w1.spec_size(), ux);
    } else {
        lemma_pit_count_cell(w1, w2, ux, uy, y - 1);
        lemma_pit_row_same(w1, w2, y - 1, w1.spec_size());
    }
}

impl World {
    /// The side of the square grid.
    pub closed spec fn spec_size(&self) -> int {
        self.dungeon@.len() as int
    }

    /// The hero's position.
    pub closed spec fn spec_hero(&self) -> Position {
        self.hero_pos
    }

    /// Whether the gold is still in the dungeon.
    pub closed spec fn spec_gold_in_dungeon(&self) -> bool {
        self.gold_in_dungeon
    }

    /// Whether cell `(x, y)` holds a pit.
    pub closed spec fn pit_at(&self, x: int, y: int) -> bool {
        self.dungeon@[y]@[x] == Some(Entity::Pit)
    }

    /// Whether cell `(x, y)` holds the Wumpus.
    pub closed spec fn wumpus_at(&self, x: int, y: int) -> bool {
        self.dungeon@[y]@[x] == Some(Entity::Wumpus)
    }

    /// Whether cell `(x, y)` holds the gold.
    pub closed spec fn gold_at(&self, x: int, y: int) -> bool {
        self.dungeon@[y]@[x] == Some(Entity::Gold)
    }

    /// Whether cell `(x, y)` holds nothing.
    pub closed spec fn empty_at(&self, x: int, y: int) -> bool {
        self.dungeon@[y]@[x] is None
    }

    /// The grid is square and the hero is on it.
    pub closed spec fn wf(&self) -> bool {
        &&& 1 <= self.spec_size() <= usize::MAX
        &&& forall|y: int|
            0 <= y < self.spec_size() ==> (#[trigger] self.dungeon@[y])@.len()
                == self.spec_size()
        &&& self.hero_pos.x < self.spec_size()
        &&& self.hero_pos.y < self.spec_size()
    }

    /// Pits in row `y` among the first `x` cells.
    pub closed spec fn pit_count_row(&self, y: int, x: int) -> int
        decreases x,
    {
        if x <= 0 {
            0
        } else {
            self.pit_count_row(y, x - 1) + if self.pit_at(x - 1, y) {
                1int
            } else {
                0int
            }
        }
    }

    /// Pits in the first `y` rows.
    pub closed spec fn pit_count_rows(&self, y: int) -> int
        decreases y,
    {
        if y <= 0 {
            0
        } else {
            self.pit_count_rows(y - 1) + self.pit_count_row(y - 1, self.spec_size())
        }
    }

    /// The number of pits on the whole board.
    pub open spec fn pit_count(&self) -> int {
        self.pit_count_rows(self.spec_size())
    }

    /// Whether the hero's cell at `(x, y)` holds the given entity.
    fn there_is_something(&self, x: usize, y: usize, entity: Entity) -> (r: bool)
        requires
            self.wf(),
            x < self.spec_size(),
            y < self.spec_size(),
        ensures
            r == (self.dungeon@[y as int]@[x as int] == Some(entity)),
    {
        match &self.dungeon[y][x] {
            Some(e) => *e == entity,
            None => false,
        }
    }

    fn there_is_a_pit(&self, x: usize, y: usize) -> (r: bool)
        requires
            self.wf(),
            x < self.spec_size(),
            y < self.spec_size(),
        ensures
            r == self.pit_at(x as int, y as int),
    {
        self.there_is_something(x, y, Entity::Pit)
    }

    fn there_is_the_wumpus(&self, x: usize, y: usize) -> (r: bool)
        requires
            self.wf(),
            x < self.spec_size(),
            y < self.spec_size(),
        ensures
            r == self.wumpus_at(x as int, y as int),
    {
        self.there_is_something(x, y, Entity::Wumpus)
    }

    fn there_is_gold(&self, x: usize, y: usize) -> (r: bool)
        requires
            self.wf(),
            x < self.spec_size(),
            y < self.spec_size(),
        ensures
            r == self.gold_at(x as int, y as int),
    {
        self.there_is_something(x, y, Entity::Gold)
    }

    /// Replace the contents of cell `(x, y)`.
    fn set_cell(&mut self, x: usize, y: usize, v: Option<Entity>)
        requires
            old(self).wf(),
            x < old(self).spec_size(),
            y < old(self).spec_size(),
        ensures
            final(self).wf(),
            final(self).spec_size() == old(self).spec_size(),
            final(self).spec_hero() == old(self).spec_hero(),
            final(self).spec_gold_in_dungeon() == old(self).spec_gold_in_dungeon(),
            final(self).dungeon@[y as int]@ == old(self).dungeon@[y as int]@.update(x as int, v),
            forall|j: int|
                0 <= j < old(self).spec_size() && j != y ==> #[trigger] final(self).dungeon@[j]
                    == old(self).dungeon@[j],
    {
        let row = &self.dungeon[y];
        let mut new_row: Vec<Option<Entity>> = Vec::new();
        let mut i: usize = 0;
        while i < row.len()
            invariant
                i <= row@.len(),
                x < row@.len(),
                new_row@ == if i <= x {
                    row@.take(i as int)
                } else {
                    row@.update(x as int, v).take(i as int)
                },
            decreases row@.len() - i,
        {
            if i == x {
                new_row.push(v);
            } else {
                new_row.push(row[i]);
            }
            proof {
                if i < x {
                    assert(row@.take(i + 1) =~= row@.take(i as int).push(row@[i as int]));
                } else if i == x {
                    assert(row@.update(x as int, v).take(i + 1) =~= row@.take(i as int).push(v));
                } else {
                    assert(row@.update(x as int, v).take(i + 1) =~= row@.update(
                        x as int,
                        v,
                    ).take(i as int).push(row@[i as int]));
                }
            }
            i += 1;
        }
        proof {
            assert(row@.update(x as int, v).take(row@.len() as int) =~= row@.update(x as int, v));
        }
        self.dungeon.set(y, new_row);
    }

    /// Generate a dungeon: exactly `pit_number` pits, then the Wumpus,
    /// then the gold, each at a random free cell away from the origin,
    /// which is left empty for the hero.  The Wumpus and the gold each
    /// sit in exactly one cell.
    pub fn new(dim: usize, pit_number: usize, rng: &mut rand::rngs::ThreadRng) -> (w: World)
        requires
            dim >= 1,
            dim <= 0xFFFF,
            dim * dim > pit_number + 2,
        ensures
            w.wf(),
            w.spec_size() == dim,
            w.spec_hero() == (Position { x: 0, y: 0 }),
            w.spec_gold_in_dungeon(),
            w.empty_at(0, 0),
            w.pit_count() == pit_number,
            exists|x: int, y: int|
                0 <= x < dim && 0 <= y < dim && #[trigger] w.wumpus_at(x, y),
            exists|x: int, y: int| 0 <= x < dim && 0 <= y < dim && #[trigger] w.gold_at(x, y),
            forall|x1: int, y1: int, x2: int, y2: int|
                0 <= x1 < dim && 0 <= y1 < dim && 0 <= x2 < dim && 0 <= y2 < dim
                    && #[trigger] w.wumpus_at(x1, y1) && #[trigger] w.wumpus_at(x2, y2) ==> x1
                    == x2 && y1 == y2,
            forall|x1: int, y1: int, x2: int, y2: int|
                0 <= x1 < dim && 0 <= y1 < dim && 0 <= x2 < dim && 0 <= y2 < dim
                    && #[trigger] w.gold_at(x1, y1) && #[trigger] w.gold_at(x2, y2) ==> x1 == x2
                    && y1 == y2,
    {
        let mut dungeon: Vec<Vec<Option<Entity>>> = Vec::new();
        let mut y: usize = 0;
        while y < dim
            invariant
                y <= dim,
                dungeon@.len() == y,
                forall|j: int|
                    0 <= j < y ==> (#[trigger] dungeon@[j])@ =~= Seq::new(
                        dim as nat,
                        |i: int| None::<Entity>,
                    ),
            decreases dim - y,
        {
            let mut row: Vec<Option<Entity>> = Vec::new();
            let mut x: usize = 0;
            while x < dim
                invariant
                    x <= dim,
                    row@ =~= Seq::new(x as nat, |i: int| None::<Entity>),
                decreases dim - x,
            {
                row.push(None);
                proof {
                    assert(row@ =~= Seq::new((x + 1) as nat, |i: int| None::<Entity>));
                }
                x += 1;
            }
            dungeon.push(row);
            y += 1;
        }
        let mut w = World {
            dungeon,
            hero_pos: Position::new(0, 0),
            arrow: true,
            gold_in_dungeon: true,
        };
        proof {
            assert forall|yy: int, xx: int|
                0 <= yy < dim && 0 <= xx < dim implies w.empty_at(xx, yy) by {
                assert(w.dungeon@[yy]@ =~= Seq::new(dim as nat, |i: int| None::<Entity>));
            }
        }
        // every cell but the origin starts free
        let mut free: Vec<Position> = free_cells(dim);
        proof {
            assert(1 <= dim * dim) by (nonlinear_arith)
                requires dim >= 1;
            assert(dim * dim <= 0xFFFF * 0xFFFF) by (nonlinear_arith)
                requires 1 <= dim <= 0xFFFF;
        }
        let n2 = dim * dim;
        proof {
            // the untouched board counts no pits and houses nobody
            assert forall|a: int, b: int| 0 <= a < dim && 0 <= b < dim implies !w.pit_at(a, b)
                && !w.wumpus_at(a, b) && !w.gold_at(a, b) by {
                assert(w.empty_at(a, b));
            }
            lemma_pit_count_none(w, dim as int);
        }
        let mut placed: usize = 0;
        while placed < pit_number
            invariant
                placed <= pit_number,
                n2 == dim * dim,
                n2 > pit_number + 2,
                dim >= 1,
                w.wf(),
                w.spec_size() == dim,
                w.spec_hero() == (Position { x: 0, y: 0 }),
                w.spec_gold_in_dungeon(),
                free@.len() == n2 - 1 - placed,
                forall|i: int|
                    0 <= i < free@.len() ==> (#[trigger] free@[i]).x < dim && free@[i].y < dim
                        && free@[i] != (Position { x: 0, y: 0 }),
                forall|i: int, j: int| 0 <= i < j < free@.len() ==> free@[i] != free@[j],
                forall|i: int|
                    0 <= i < free@.len() ==> w.empty_at(
                        (#[trigger] free@[i]).x as int,
                        free@[i].y as int,
                    ),
                w.empty_at(0, 0),
                w.pit_count() == placed,
                forall|a: int, b: int|
                    0 <= a < dim && 0 <= b < dim ==> !w.wumpus_at(a, b) && !#[trigger] w.gold_at(
                        a,
                        b,
                    ),
            decreases pit_number - placed,
        {
            let idx = rand_below(rng, free.len());
            let ghost free0 = free@;
            let p = free.swap_remove(idx);
            proof {
                assert forall|i: int, j: int|
                    0 <= i < j < free@.len() implies free@[i] != free@[j] by {}
            }
            let ghost w0 = w;
            w.set_cell(p.x, p.y, Some(Entity::Pit));
            proof {
                assert(p == free0[idx as int]);
                assert(w0.empty_at(p.x as int, p.y as int));
                assert forall|a: int, b: int|
                    0 <= a < dim && 0 <= b < dim && !(a == p.x as int && b == p.y as int)
                    implies w.pit_at(a, b) == w0.pit_at(a, b) && w.wumpus_at(a, b)
                    == w0.wumpus_at(a, b) && w.gold_at(a, b) == w0.gold_at(a, b) by {
                    if b != p.y as int {
                        assert(w.dungeon@[b] == w0.dungeon@[b]);
                    } else {
                        assert(w.dungeon@[b]@[a] == w0.dungeon@[b]@[a]);
                    }
                }
                assert(w.pit_at(p.x as int, p.y as int));
                assert(!w0.pit_at(p.x as int, p.y as int));
                lemma_pit_count_cell(w0, w, p.x as int, p.y as int, dim as int);
                assert(!w.wumpus_at(p.x as int, p.y as int));
                assert(!w.gold_at(p.x as int, p.y as int));
            }
            placed += 1;
        }
        let idx = rand_below(rng, free.len());
        let ghost freew = free@;
        let pw = free.swap_remove(idx);
        let ghost w1 = w;
        w.set_cell(pw.x, pw.y, Some(Entity::Wumpus));
        proof {
            assert(pw == freew[idx as int]);
            assert(w1.empty_at(pw.x as int, pw.y as int));
            assert forall|a: int, b: int|
                0 <= a < dim && 0 <= b < dim && !(a == pw.x as int && b == pw.y as int)
                implies w.pit_at(a, b) == w1.pit_at(a, b) && w.wumpus_at(a, b) == w1.wumpus_at(
                a,
                b,
            ) && w.gold_at(a, b) == w1.gold_at(a, b) by {
                if b != pw.y as int {
                    assert(w.dungeon@[b] == w1.dungeon@[b]);
                } else {
                    assert(w.dungeon@[b]@[a] == w1.dungeon@[b]@[a]);
                }
            }
            assert(!w.pit_at(pw.x as int, pw.y as int));
            assert(!w1.pit_at(pw.x as int, pw.y as int));
            lemma_pit_count_cell(w1, w, pw.x as int, pw.y as int, dim as int);
            assert(w.pit_count() == pit_number);
            // the Wumpus sits exactly where it was just placed
            assert forall|a: int, b: int|
                0 <= a < dim && 0 <= b < dim && #[trigger] w.wumpus_at(a, b) implies a
                == pw.x as int && b == pw.y as int by {}
            // the remaining free cells are still empty and differ from
            // the Wumpus's cell
            assert forall|i: int|
                0 <= i < free@.len() implies (#[trigger] free@[i]).x < dim && free@[i].y < dim
                && w.empty_at(free@[i].x as int, free@[i].y as int) && free@[i] != pw by {
                assert(free@[i] == freew.update(idx as int, freew.last()).drop_last()[i]);
            }
        }
        let idx2 = rand_below(rng, free.len());
        let ghost freeg = free@;
        let pg = free.swap_remove(idx2);
        let ghost w2 = w;
        w.set_cell(pg.x, pg.y, Some(Entity::Gold));
        proof {
            assert(pg == freeg[idx2 as int]);
            assert(w2.empty_at(pg.x as int, pg.y as int));
            assert(pg != pw);
            assert forall|a: int, b: int|
                0 <= a < dim && 0 <= b < dim && !(a == pg.x as int && b == pg.y as int)
                implies w.pit_at(a, b) == w2.pit_at(a, b) && w.wumpus_at(a, b) == w2.wumpus_at(
                a,
                b,
            ) && w.gold_at(a, b) == w2.gold_at(a, b) by {
                if b != pg.y as int {
                    assert(w.dungeon@[b] == w2.dungeon@[b]);
                } else {
                    assert(w.dungeon@[b]@[a] == w2.dungeon@[b]@[a]);
                }
            }
            assert(!w.pit_at(pg.x as int, pg.y as int));
            assert(!w2.pit_at(pg.x as int, pg.y as int));
            lemma_pit_count_cell(w2, w, pg.x as int, pg.y as int, dim as int);
            assert(w.pit_count() == pit_number);
            assert(w.wumpus_at(pw.x as int, pw.y as int));
            assert(w.gold_at(pg.x as int, pg.y as int));
            // each of the two sits in exactly one cell
            assert forall|a: int, b: int|
                0 <= a < dim && 0 <= b < dim && #[trigger] w.wumpus_at(a, b) implies a
                == pw.x as int && b == pw.y as int by {}
            assert forall|a: int, b: int|
                0 <= a < dim && 0 <= b < dim && #[trigger] w.gold_at(a, b) implies a
                == pg.x as int && b == pg.y as int by {}
        }
        w
    }

    /// Apply one action: move (and perhaps die), grab the gold, or exit
    /// at the origin.
    pub fn do_action(&mut self, action: Action) -> (r: StepOutcome)
        requires
            old(self).wf(),
            !matches!(action, Action::Shoot(_)),
            (match action {
                Action::Move(dir) => old(self).spec_hero().spec_possible_move(
                    dir,
                    old(self).spec_size(),
                ),
                _ => true,
            }),
        ensures
            final(self).wf(),
            final(self).spec_size() == old(self).spec_size(),
            match action {
                Action::Move(dir) => {
                    let dest = old(self).spec_hero().spec_move(dir);
                    &&& final(self).spec_hero() == dest
                    &&& final(self).same_dungeon(*old(self))
                    &&& final(self).spec_gold_in_dungeon() == old(self).spec_gold_in_dungeon()
                    &&& r == (if old(self).wumpus_at(dest.x as int, dest.y as int) || old(
                        self,
                    ).pit_at(dest.x as int, dest.y as int) {
                        StepOutcome::Dead
                    } else {
                        StepOutcome::Continue
                    })
                },
                Action::Grab => {
                    let hx = old(self).spec_hero().x as int;
                    let hy = old(self).spec_hero().y as int;
                    if old(self).pit_at(hx, hy) || old(self).wumpus_at(hx, hy) {
                        &&& *final(self) == *old(self)
                        &&& r == StepOutcome::IllegalGrab
                    } else {
                        &&& final(self).spec_hero() == old(self).spec_hero()
                        &&& !final(self).spec_gold_in_dungeon()
                        &&& final(self).empty_at(hx, hy)
                        &&& (forall|x: int, y: int|
                            0 <= x < old(self).spec_size() && 0 <= y < old(self).spec_size() && !(
                            x == hx && y == hy) ==> (#[trigger] final(self).pit_at(x, y) == old(
                                self,
                            ).pit_at(x, y)) && final(self).wumpus_at(x, y) == old(
                                self,
                            ).wumpus_at(x, y) && final(self).gold_at(x, y) == old(self).gold_at(
                                x,
                                y,
                            ))
                        &&& r == StepOutcome::Continue
                    }
                },
                Action::Shoot(_) => true,
                Action::Exit => {
                    &&& *final(self) == *old(self)
                    &&& r == (if old(self).spec_hero() == (Position { x: 0, y: 0 }) {
                        if old(self).spec_gold_in_dungeon() {
                            StepOutcome::EscapedWithoutGold
                        } else {
                            StepOutcome::EscapedWithGold
                        }
                    } else {
                        StepOutcome::IllegalExit
                    })
                },
            },
    {
        match action {
            Action::Move(dir) => {
                self.hero_pos.move_in(dir);
                let hx = self.hero_pos.x;
                let hy = self.hero_pos.y;
                if self.there_is_the_wumpus(hx, hy) || self.there_is_a_pit(hx, hy) {
                    StepOutcome::Dead
                } else {
                    StepOutcome::Continue
                }
            },
            Action::Grab => {
                let hx = self.hero_pos.x;
                let hy = self.hero_pos.y;
                if self.there_is_a_pit(hx, hy) || self.there_is_the_wumpus(hx, hy) {
                    StepOutcome::IllegalGrab
                } else {
                    self.gold_in_dungeon = false;
                    self.set_cell(hx, hy, None);
                    StepOutcome::Continue
                }
            },
            Action::Shoot(_) => {
                proof {
                    assert(false);
                }
                StepOutcome::Continue
            },
            Action::Exit => {
                if self.hero_pos.x == 0 && self.hero_pos.y == 0 {
                    if self.gold_in_dungeon {
                        StepOutcome::EscapedWithoutGold
                    } else {
                        StepOutcome::EscapedWithGold
                    }
                } else {
                    StepOutcome::IllegalExit
                }
            },
        }
    }

    /// Whether two worlds hold the same grid contents.
    pub closed spec fn same_dungeon(&self, other: World) -> bool {
        self.dungeon@ == other.dungeon@
    }

    /// Whether some cell adjacent to `(x, y)` holds a pit.
    pub open spec fn breeze_source(&self, x: int, y: int) -> bool {
        ||| (x > 0 && self.pit_at(x - 1, y))
        ||| (y > 0 && self.pit_at(x, y - 1))
        ||| (x < self.spec_size() - 1 && self.pit_at(x + 1, y))
        ||| (y < self.spec_size() - 1 && self.pit_at(x, y + 1))
    }

    /// Whether some cell adjacent to `(x, y)` holds the Wumpus.
    pub open spec fn stench_source(&self, x: int, y: int) -> bool {
        ||| (x > 0 && self.wumpus_at(x - 1, y))
        ||| (y > 0 && self.wumpus_at(x, y - 1))
        ||| (x < self.spec_size() - 1 && self.wumpus_at(x + 1, y))
        ||| (y < self.spec_size() - 1 && self.wumpus_at(x, y + 1))
    }

    /// The percepts at the hero's cell: glitter on the gold, a breeze
    /// beside a pit, a stench beside the Wumpus.
    pub fn perceptions(&self) -> (p: Perceptions)
        requires
            self.wf(),
        ensures
            p.board_size as int == self.spec_size(),
            p.position == self.spec_hero(),
            p.glitter == self.gold_at(self.spec_hero().x as int, self.spec_hero().y as int),
            p.breeze == self.breeze_source(
                self.spec_hero().x as int,
                self.spec_hero().y as int,
            ),
            p.stench == self.stench_source(
                self.spec_hero().x as int,
                self.spec_hero().y as int,
            ),
            !p.howl && !p.bump,
    {
        let mut p = Perceptions::default();
        p.board_size = self.dungeon.len();
        p.position = self.hero_pos;
        let x = self.hero_pos.x;
        let y = self.hero_pos.y;
        if self.there_is_gold(x, y) {
            p.glitter = true;
        }
        if x != 0 {
            if self.there_is_a_pit(x - 1, y) {
                p.breeze = true;
            } else if self.there_is_the_wumpus(x - 1, y) {
                p.stench = true;
            }
        }
        if y != 0 {
            if self.there_is_a_pit(x, y - 1) {
                p.breeze = true;
            } else if self.there_is_the_wumpus(x, y - 1) {
                p.stench = true;
            }
        }
        if x != self.dungeon.len() - 1 {
            if self.there_is_a_pit(x + 1, y) {
                p.breeze = true;
            } else if self.there_is_the_wumpus(x + 1, y) {
                p.stench = true;
            }
        }
        if y != self.dungeon.len() - 1 {
            if self.there_is_a_pit(x, y + 1) {
                p.breeze = true;
            } else if self.there_is_the_wumpus(x, y + 1) {
                p.stench = true;
            }
        }
        p
    }
}

} // verus!
