//! One run of the agent over a map, driven by a rule set, and the tester that
//! runs a rule set from every starting cell.
use vstd::prelude::*;
use crate::geometry::{Dir, Location, Nearby};
use crate::grid::{BoolMap, count_of, map_cells, nth_from};
use crate::rules::{Rule, SpaceCondition, cond_holds};

verus! {

/// Why a run was aborted.
#[derive(Debug, Clone, Copy)]
pub enum GameError {
    /// Sensing around the agent at (`x`, `y`) would read outside the map.
    OutOfBounds { x: i32, y: i32 },
    /// No rule applies in `state` with neighbours `nearby`.
    NoRule { state: u32, nearby: Nearby },
    /// Two rules apply at once: the first two that do, in rule order.
    Ambiguous { first: Rule, second: Rule },
    /// The one applicable rule moves the agent into a wall.
    MoveIntoWall { dir: Dir },
}

/// The abstract state of a run: the wall and visited cells row by row, the
/// map's shape, where the agent stands and its state id.
pub struct Sim {
    pub walls: Seq<bool>,
    pub visited: Seq<bool>,
    pub w: int,
    pub h: int,
    pub bot: Location,
    pub bot_state: u32,
}

impl Sim {
    /// Whether `loc` lies on the map.
    pub open spec fn contains(self, loc: Location) -> bool {
        0 <= loc.x < self.w && 0 <= loc.y < self.h
    }

    /// Position of `loc` in the row-by-row order.
    pub open spec fn idx(self, loc: Location) -> int {
        loc.y * self.w + loc.x
    }

    /// Whether `loc` holds a wall.
    pub open spec fn wall(self, loc: Location) -> bool {
        self.walls[self.idx(loc)]
    }

    /// Whether the agent and its four neighbours lie on the map.
    pub open spec fn senses_inside(self) -> bool {
        1 <= self.bot.x < self.w - 1 && 1 <= self.bot.y < self.h - 1
    }

    /// Which of the agent's four neighbours are walls.
    pub open spec fn sensed(self) -> Nearby {
        Nearby(
            [
                self.wall(self.bot.next_spec(Dir::N)),
                self.wall(self.bot.next_spec(Dir::E)),
                self.wall(self.bot.next_spec(Dir::W)),
                self.wall(self.bot.next_spec(Dir::S)),
            ],
        )
    }

    /// Clear cells minus visited cells.
    pub open spec fn unvisited(self) -> int {
        count_of(self.walls, false) - count_of(self.visited, true)
    }

    /// Whether no clear cell is left unvisited, as the counts tell it.
    pub open spec fn complete(self) -> bool {
        self.unvisited() <= 0
    }
}

/// The first index from `from` on whose rule applies in state `st` with
/// neighbours `nb`, or the number of rules when none does.
pub open spec fn first_applying(rules: Seq<Rule>, st: u32, nb: Nearby, from: int) -> int
    decreases rules.len() - from,
{
    if from < 0 || from >= rules.len() {
        rules.len() as int
    } else if rules[from].applies(st, nb) {
        from
    } else {
        first_applying(rules, st, nb, from + 1)
    }
}

/// One step of a run: sense, pick the one applicable rule, take on its state
/// and move where it says, marking the new cell visited.
pub open spec fn step_spec(s: Sim, rules: Seq<Rule>) -> Result<Sim, GameError> {
    if !s.senses_inside() {
        Err(GameError::OutOfBounds { x: s.bot.x, y: s.bot.y })
    } else {
        let nb = s.sensed();
        let i = first_applying(rules, s.bot_state, nb, 0);
        let j = first_applying(rules, s.bot_state, nb, i + 1);
        if i >= rules.len() {
            Err(GameError::NoRule { state: s.bot_state, nearby: nb })
        } else if j < rules.len() {
            Err(GameError::Ambiguous { first: rules[i], second: rules[j] })
        } else {
            let dest = s.bot.next_spec(rules[i].go);
            if s.wall(dest) {
                Err(GameError::MoveIntoWall { dir: rules[i].go })
            } else {
                Ok(
                    Sim {
                        visited: s.visited.update(s.idx(dest), true),
                        bot: dest,
                        bot_state: rules[i].state,
                        ..s
                    },
                )
            }
        }
    }
}

/// The outcome of running from `s` with `count` moves already made: `true` once
/// complete, `false` when `limit` moves have been made first.
pub open spec fn run_spec(s: Sim, rules: Seq<Rule>, limit: nat, count: nat) -> Result<
    bool,
    GameError,
>
    decreases limit - count,
{
    if s.complete() {
        Ok(true)
    } else if count >= limit {
        Ok(false)
    } else {
        match step_spec(s, rules) {
            Ok(s2) => run_spec(s2, rules, limit, count + 1),
            Err(e) => Err(e),
        }
    }
}

/// The state a run from `s`, with `count` moves already made, ends in: where it
/// completes, where the budget runs out, or where a step fails.
pub open spec fn run_final(s: Sim, rules: Seq<Rule>, limit: nat, count: nat) -> Sim
    decreases limit - count,
{
    if s.complete() || count >= limit {
        s
    } else {
        match step_spec(s, rules) {
            Ok(s2) => run_final(s2, rules, limit, count + 1),
            Err(_) => s,
        }
    }
}

/// The number of moves made, `count` included, when a run from `s` ends.
pub open spec fn run_moves(s: Sim, rules: Seq<Rule>, limit: nat, count: nat) -> nat
    decreases limit - count,
{
    if s.complete() || count >= limit {
        count
    } else {
        match step_spec(s, rules) {
            Ok(s2) => run_moves(s2, rules, limit, count + 1),
            Err(_) => count,
        }
    }
}

/// A run ends complete when it reports `true`, incomplete after exactly `limit`
/// moves when it reports `false`, and never makes more than `limit` moves.
pub proof fn lemma_run_outcome(s: Sim, rules: Seq<Rule>, limit: nat, count: nat)
    requires
        count <= limit,
    ensures
        count <= run_moves(s, rules, limit, count) <= limit,
        run_spec(s, rules, limit, count) == Ok::<bool, GameError>(true) ==> run_final(
            s,
            rules,
            limit,
            count,
        ).complete(),
        run_spec(s, rules, limit, count) == Ok::<bool, GameError>(false) ==> !run_final(
            s,
            rules,
            limit,
            count,
        ).complete() && run_moves(s, rules, limit, count) == limit,
    decreases limit - count,
{
    if !s.complete() && count < limit {
        if let Ok(s2) = step_spec(s, rules) {
            lemma_run_outcome(s2, rules, limit, count + 1);
        }
    }
}

/// The cells of `s` fill its shape, and the agent stands on the map.
pub open spec fn sim_shaped(s: Sim) -> bool {
    &&& s.w >= 1
    &&& s.h >= 1
    &&& s.walls.len() == s.w * s.h
    &&& s.visited.len() == s.w * s.h
    &&& s.w <= i32::MAX
    &&& s.h <= i32::MAX
    &&& s.contains(s.bot)
}

/// A step keeps the shape, and visits at most one new cell.
proof fn lemma_step_visits_one(s: Sim, rules: Seq<Rule>)
    requires
        sim_shaped(s),
        step_spec(s, rules) is Ok,
    ensures
        sim_shaped(step_spec(s, rules)->Ok_0),
        step_spec(s, rules)->Ok_0.unvisited() >= s.unvisited() - 1,
{
    let s2 = step_spec(s, rules)->Ok_0;
    let i = first_applying(rules, s.bot_state, s.sensed(), 0);
    let go = rules[i].go;
    let d = s2.bot;
    assert(s.senses_inside());
    assert(d == s.bot.next_spec(go));
    assert(0 <= d.x < s.w && 0 <= d.y < s.h) by {
        match go {
            Dir::N => {},
            Dir::E => {},
            Dir::W => {},
            Dir::S => {},
        }
    }
    let x = d.x as int;
    let y = d.y as int;
    assert(0 <= y * s.w + x < s.w * s.h) by (nonlinear_arith)
        requires
            0 <= x < s.w,
            0 <= y < s.h,
    ;
    crate::grid::lemma_count_update(s.visited, s.idx(d), true, true);
}

/// A run that starts with more unvisited clear cells than moves left in its
/// budget cannot complete: each move visits at most one new cell.
pub proof fn lemma_budget_bounds_coverage(s: Sim, rules: Seq<Rule>, limit: nat, count: nat)
    requires
        sim_shaped(s),
        count <= limit,
        s.unvisited() > limit - count,
    ensures
        run_spec(s, rules, limit, count) != Ok::<bool, GameError>(true),
    decreases limit - count,
{
    if !s.complete() && count < limit {
        if step_spec(s, rules) is Ok {
            lemma_step_visits_one(s, rules);
            lemma_budget_bounds_coverage(step_spec(s, rules)->Ok_0, rules, limit, count + 1);
        }
    }
}

/// Where no rule applies, the scan for one runs off the end.
proof fn lemma_first_applying_none(rules: Seq<Rule>, st: u32, nb: Nearby, from: int)
    requires
        0 <= from,
        forall|i: int| 0 <= i < rules.len() ==> !#[trigger] rules[i].applies(st, nb),
    ensures
        first_applying(rules, st, nb, from) == rules.len(),
    decreases rules.len() - from,
{
    if from < rules.len() {
        lemma_first_applying_none(rules, st, nb, from + 1);
    }
}

/// The state a run on `map` starts in from the clear cell of rank `k`.
pub open spec fn start_sim(map: [[u8; 25]; 25], k: nat) -> Sim {
    let walls = map_cells(map);
    let p = nth_from(walls, false, k, 0);
    Sim {
        walls,
        visited: Seq::new(625, |i: int| i == p),
        w: 25,
        h: 25,
        bot: Location { x: (p % 25) as i32, y: (p / 25) as i32 },
        bot_state: 0,
    }
}

/// The wall map, the visited map, and the agent's place and state id.
pub struct MapState {
    pub walls: BoolMap,
    pub visited: BoolMap,
    pub bot: Location,
    pub bot_state: u32,
}

impl View for MapState {
    type V = Sim;

    open spec fn view(&self) -> Sim {
        Sim {
            walls: self.walls.cells(),
            visited: self.visited.cells(),
            w: self.walls.w(),
            h: self.walls.h(),
            bot: self.bot,
            bot_state: self.bot_state,
        }
    }
}

impl MapState {
    /// Both maps are well formed and of one shape, the agent stands on a clear
    /// cell it has visited, and only clear cells are visited.
    pub open spec fn wf(&self) -> bool {
        &&& self.walls.wf()
        &&& self.visited.wf()
        &&& self.walls.w() == self.visited.w()
        &&& self.walls.h() == self.visited.h()
        &&& self.walls.contains(self.bot)
        &&& !self.walls.at(self.bot)
        &&& self.visited.at(self.bot)
        &&& forall|i: int|
            0 <= i < self.visited.cells().len() ==> #[trigger] self.visited.cells()[i]
                ==> !self.walls.cells()[i]
    }

    /// Clear cells minus visited cells.
    pub fn unvisited(&self) -> (r: i64)
        requires
            self.wf(),
        ensures
            r == self@.unvisited(),
    {
        self.walls.false_count() as i64 - self.visited.true_count() as i64
    }

    /// Which of the agent's neighbours are walls, or `None` when one of them
    /// lies off the map.
    pub fn nearby_walls(&self) -> (r: Option<Nearby>)
        requires
            self.wf(),
        ensures
            r is Some <==> self@.senses_inside(),
            r matches Some(nb) ==> nb == self@.sensed(),
    {
        if self.bot.x >= 1 && self.bot.y >= 1 && self.bot.x < self.walls.width() - 1 && self.bot.y
            < self.walls.height() - 1 {
            let nb = self.walls.nearby(self.bot);
            assert(nb.at(Dir::N) == self@.sensed().0@[0]);
            assert(nb.at(Dir::E) == self@.sensed().0@[1]);
            assert(nb.at(Dir::W) == self@.sensed().0@[2]);
            assert(nb.at(Dir::S) == self@.sensed().0@[3]);
            assert(nb.0 =~= self@.sensed().0);
            Some(nb)
        } else {
            None
        }
    }

    /// Moves the agent to the clear cell `dest` and marks it visited.
    pub fn move_to(&mut self, dest: Location)
        requires
            old(self).wf(),
            old(self).walls.contains(dest),
            !old(self).walls.at(dest),
        ensures
            final(self).wf(),
            final(self)@ == (Sim {
                visited: old(self)@.visited.update(old(self)@.idx(dest), true),
                bot: dest,
                ..old(self)@
            }),
    {
        proof {
            self.walls.lemma_idx_in_range(dest);
        }
        self.visited.set(dest, true);
        self.bot = dest;
    }

    /// Moves the agent one cell towards `dir` when that cell is clear; reports
    /// whether it moved.
    pub fn try_move_bot(&mut self, dir: Dir) -> (r: bool)
        requires
            old(self).wf(),
            old(self)@.senses_inside(),
        ensures
            final(self).wf(),
            r == !old(self)@.wall(old(self).bot.next_spec(dir)),
            r ==> final(self)@ == (Sim {
                visited: old(self)@.visited.update(
                    old(self)@.idx(old(self).bot.next_spec(dir)),
                    true,
                ),
                bot: old(self).bot.next_spec(dir),
                ..old(self)@
            }),
            !r ==> final(self)@ == old(self)@,
    {
        assert(self.walls.contains_around(self.bot));
        let nb = self.walls.nearby(self.bot);
        if !nb.get(dir) {
            let dest = self.bot.next(dir);
            self.move_to(dest);
            true
        } else {
            false
        }
    }

    /// The state a run on `from_map` starts in from the clear cell of rank
    /// `start_index`, or `None` when the map has no more than `start_index` clear cells.
    pub fn create(from_map: &[[u8; 25]; 25], start_index: usize) -> (r: Option<MapState>)
        ensures
            r is Some <==> start_index < count_of(map_cells(*from_map), false),
            r matches Some(m) ==> m.wf() && m@ == start_sim(*from_map, start_index as nat),
    {
        let walls = BoolMap::load(from_map);
        let visited = BoolMap::clear(walls.width(), walls.height(), false);
        let start_at = walls.get_nth_location(start_index, false);
        if let Some(start_location) = start_at {
            let mut visited = visited;
            proof {
                walls.lemma_idx_in_range(start_location);
            }
            visited.set(start_location, true);
            let state = MapState { walls, visited, bot: start_location, bot_state: 0 };
            proof {
                let p = nth_from(map_cells(*from_map), false, start_index as nat, 0);
                assert(p == state.walls.idx(start_location));
                assert(state@.visited =~= start_sim(*from_map, start_index as nat).visited);
            }
            Some(state)
        } else {
            None
        }
    }
}


/// A run in progress: the map state and the rules that drive it.
pub struct Game {
    map: MapState,
    rules: Vec<Rule>,
}

impl Game {
    /// The abstract state of the run.
    pub closed spec fn sim(&self) -> Sim {
        self.map@
    }

    /// The rules, in order.
    pub closed spec fn rule_seq(&self) -> Seq<Rule> {
        self.rules@
    }

    /// The run's state is well formed.
    pub closed spec fn wf(&self) -> bool {
        self.map.wf()
    }

    /// The state of a well-formed run fills its map's shape.
    pub proof fn lemma_shaped(&self)
        requires
            self.wf(),
        ensures
            sim_shaped(self.sim()),
    {
    }

    /// The map state of the run.
    pub fn map_state(&self) -> (r: &MapState)
        requires
            self.wf(),
        ensures
            r.wf(),
            r@ == self.sim(),
    {
        &self.map
    }

    /// The one rule that applies in state `st` with neighbours `nb`, or why
    /// there is none: no rule applies, or the first two that apply.
    fn matching_rule(&self, st: u32, nb: Nearby) -> (r: Result<Rule, GameError>)
        ensures
            ({
                let rules = self.rules@;
                let i = first_applying(rules, st, nb, 0);
                let j = first_applying(rules, st, nb, i + 1);
                if i >= rules.len() {
                    r == Err::<Rule, GameError>(GameError::NoRule { state: st, nearby: nb })
                } else if j < rules.len() {
                    r == Err::<Rule, GameError>(
                        GameError::Ambiguous { first: rules[i], second: rules[j] },
                    )
                } else {
                    r == Ok::<Rule, GameError>(rules[i])
                }
            }),
    {
        let ghost rules = self.rules@;
        let mut first: Option<usize> = None;
        let mut k: usize = 0;
        while k < self.rules.len()
            invariant
                rules == self.rules@,
                0 <= k <= rules.len(),
                first is None ==> first_applying(rules, st, nb, k as int) == first_applying(
                    rules,
                    st,
                    nb,
                    0,
                ),
                first matches Some(i) ==> i < k && i == first_applying(rules, st, nb, 0)
                    && first_applying(rules, st, nb, k as int) == first_applying(
                    rules,
                    st,
                    nb,
                    i + 1,
                ),
            decreases rules.len() - k,
        {
            if self.rules[k].matches(st, nb) {
                match first {
                    None => {
                        first = Some(k);
                    },
                    Some(i) => {
                        return Err(GameError::Ambiguous { first: self.rules[i], second: self.rules[k] });
                    },
                }
            }
            k += 1;
        }
        match first {
            None => Err(GameError::NoRule { state: st, nearby: nb }),
            Some(i) => Ok(self.rules[i]),
        }
    }

    /// Makes one move: senses, picks the one applicable rule, takes on its
    /// state and moves where it says. On an error the run is left as it was.
    pub fn step(&mut self) -> (r: Result<(), GameError>)
        requires
            old(self).wf(),
        ensures
            final(self).wf(),
            final(self).rule_seq() == old(self).rule_seq(),
            match step_spec(old(self).sim(), old(self).rule_seq()) {
                Ok(s2) => r is Ok && final(self).sim() == s2,
                Err(e) => r == Err::<(), GameError>(e) && final(self).sim() == old(self).sim(),
            },
            ({
                let s = old(self).sim();
                let rules = old(self).rule_seq();
                s.senses_inside() && (exists|i: int, j: int|
                    0 <= i < j < rules.len() && #[trigger] rules[i].applies(s.bot_state, s.sensed())
                        && #[trigger] rules[j].applies(s.bot_state, s.sensed()))
                    ==> r matches Err(GameError::Ambiguous { .. })
            }),
            ({
                let s = old(self).sim();
                let rules = old(self).rule_seq();
                s.senses_inside() && (forall|i: int|
                    0 <= i < rules.len() ==> !#[trigger] rules[i].applies(s.bot_state, s.sensed()))
                    ==> r == Err::<(), GameError>(
                    GameError::NoRule { state: s.bot_state, nearby: s.sensed() },
                )
            }),
    {
        proof {
            let s = self.sim();
            let rules = self.rule_seq();
            if s.senses_inside() {
                if exists|i: int, j: int|
                    0 <= i < j < rules.len() && #[trigger] rules[i].applies(s.bot_state, s.sensed())
                        && #[trigger] rules[j].applies(s.bot_state, s.sensed()) {
                    let (i, j) = choose|i: int, j: int|
                        0 <= i < j < rules.len() && #[trigger] rules[i].applies(
                            s.bot_state,
                            s.sensed(),
                        ) && #[trigger] rules[j].applies(s.bot_state, s.sensed());
                    lemma_two_applicable_rules_abort(s, rules, i, j);
                }
                if forall|i: int|
                    0 <= i < rules.len() ==> !#[trigger] rules[i].applies(s.bot_state, s.sensed()) {
                    lemma_first_applying_none(rules, s.bot_state, s.sensed(), 0);
                }
            }
        }
        let nb = match self.map.nearby_walls() {
            Some(nb) => nb,
            None => {
                return Err(GameError::OutOfBounds { x: self.map.bot.x, y: self.map.bot.y });
            },
        };
        let rule = self.matching_rule(self.map.bot_state, nb)?;
        let ghost before = self.map@;
        if !self.map.try_move_bot(rule.go) {
            return Err(GameError::MoveIntoWall { dir: rule.go });
        }
        self.map.bot_state = rule.state;
        assert(self.map@ == step_spec(before, self.rules@)->Ok_0);
        Ok(())
    }

    /// Whether no clear cell is left unvisited.
    pub fn is_complete(&self) -> (r: bool)
        requires
            self.wf(),
        ensures
            r == self.sim().complete(),
            r <==> forall|i: int|
                0 <= i < self.sim().walls.len() ==> !#[trigger] self.sim().walls[i]
                    ==> self.sim().visited[i],
    {
        proof {
            lemma_complete_means_covered(&self.map);
        }
        self.map.unvisited() <= 0
    }

    /// Steps until every clear cell is visited (`Ok(true)`) or `limit_moves`
    /// moves have been made (`Ok(false)`), or until a step fails.
    pub fn play_to_end(&mut self, limit_moves: usize) -> (r: Result<bool, GameError>)
        requires
            old(self).wf(),
        ensures
            final(self).wf(),
            final(self).rule_seq() == old(self).rule_seq(),
            r == run_spec(old(self).sim(), old(self).rule_seq(), limit_moves as nat, 0),
            final(self).sim() == run_final(
                old(self).sim(),
                old(self).rule_seq(),
                limit_moves as nat,
                0,
            ),
            run_moves(old(self).sim(), old(self).rule_seq(), limit_moves as nat, 0)
                <= limit_moves,
            r == Ok::<bool, GameError>(true) ==> final(self).sim().complete(),
            r == Ok::<bool, GameError>(false) ==> !final(self).sim().complete() && run_moves(
                old(self).sim(),
                old(self).rule_seq(),
                limit_moves as nat,
                0,
            ) == limit_moves,
    {
        let ghost s0 = self.sim();
        let ghost rules = self.rule_seq();
        let ghost lim = limit_moves as nat;
        proof {
            lemma_run_outcome(s0, rules, lim, 0);
        }
        let mut move_count: usize = 0;
        loop
            invariant
                self.wf(),
                s0 == old(self).sim(),
                rules == old(self).rule_seq(),
                lim == limit_moves,
                self.rule_seq() == rules,
                move_count <= limit_moves,
                run_spec(s0, rules, lim, 0) == run_spec(self.sim(), rules, lim, move_count as nat),
                run_final(s0, rules, lim, 0) == run_final(
                    self.sim(),
                    rules,
                    lim,
                    move_count as nat,
                ),
                run_moves(s0, rules, lim, 0) == run_moves(
                    self.sim(),
                    rules,
                    lim,
                    move_count as nat,
                ),
                run_moves(s0, rules, lim, 0) <= lim,
                run_spec(s0, rules, lim, 0) == Ok::<bool, GameError>(false) ==> run_moves(
                    s0,
                    rules,
                    lim,
                    0,
                ) == lim,
            decreases limit_moves - move_count,
        {
            if self.is_complete() {
                return Ok(true);
            }
            if move_count >= limit_moves {
                return Ok(false);
            }
            let stepped = self.step();
            if let Err(e) = stepped {
                return Err(e);
            }
            move_count += 1;
        }
    }

    /// A run on `from_map` from the clear cell of rank `starting_position`, or
    /// `None` when the map has no more than `starting_position` clear cells.
    pub fn create(from_map: &[[u8; 25]; 25], starting_position: usize, rules: Vec<Rule>) -> (r:
        Option<Game>)
        ensures
            r is Some <==> starting_position < count_of(map_cells(*from_map), false),
            r matches Some(g) ==> g.wf() && g.sim() == start_sim(
                *from_map,
                starting_position as nat,
            ) && g.rule_seq() == rules@,
    {
        match MapState::create(from_map, starting_position) {
            Some(map) => Some(Game { rules, map }),
            None => None,
        }
    }
}


/// Move budget each run of a `RuleSetTester` gets.
pub const TURN_LIMIT: usize = 1000000;

/// Why a rule set failed on a map.
#[derive(Debug, Clone, Copy)]
pub enum TestFailure {
    /// The map has no clear cell to start from.
    NoStart,
    /// The run from the clear cell of rank `start_index` ran out of moves.
    Incomplete { start_index: usize },
    /// The run from the clear cell of rank `start_index` was aborted.
    Aborted { start_index: usize, error: GameError },
}

/// Runs one rule set on one map from every clear cell in turn.
pub struct RuleSetTester {
    rules: Vec<Rule>,
    map: &'static [[u8; 25]; 25],
    turn_limit: usize,
}

/// The outcome of the run on `map` from the clear cell of rank `k`.
pub open spec fn run_from(map: [[u8; 25]; 25], rules: Seq<Rule>, limit: nat, k: nat) -> Result<
    bool,
    GameError,
> {
    run_spec(start_sim(map, k), rules, limit, 0)
}

impl RuleSetTester {
    /// The rules, in order.
    pub closed spec fn rule_seq(&self) -> Seq<Rule> {
        self.rules@
    }

    /// The map.
    pub closed spec fn map_table(&self) -> [[u8; 25]; 25] {
        *self.map
    }

    /// The move budget of each run.
    pub closed spec fn limit(&self) -> nat {
        self.turn_limit as nat
    }

    /// A tester of the rules written in `rules` on `map`, with a budget of
    /// `TURN_LIMIT` moves per run; the parse error when the text is malformed.
    pub fn create(map: &'static [[u8; 25]; 25], rules: &str) -> (r: Result<RuleSetTester, String>)
        ensures
            crate::rules::errors_from(rules@, 0).len() == 0 ==> (r matches Ok(t) && t.rule_seq()
                == crate::rules::rules_from(rules@, 0) && t.map_table() == *map && t.limit()
                == TURN_LIMIT),
            crate::rules::errors_from(rules@, 0).len() > 0 ==> (r matches Err(e) && e@
                == crate::rules::errors_from(rules@, 0)),
    {
        match Rule::parse_all(rules) {
            Ok(rules) => Ok(RuleSetTester { rules, map, turn_limit: TURN_LIMIT }),
            Err(e) => Err(e),
        }
    }

    /// Runs the rules from every clear cell of the map, by rank, and succeeds
    /// when each run visits every clear cell within the budget. Stops at the
    /// first run that does not.
    pub fn test_all(&mut self) -> (r: Result<(), TestFailure>)
        ensures
            *final(self) == *old(self),
            ({
                let m = old(self).map_table();
                let rules = old(self).rule_seq();
                let lim = old(self).limit();
                let n = count_of(map_cells(m), false);
                &&& n == 0 ==> r == Err::<(), TestFailure>(TestFailure::NoStart)
                &&& r matches Err(TestFailure::NoStart) ==> n == 0
                &&& n > 0 ==> (r is Ok <==> forall|k: nat| k < n ==> #[trigger] run_from(m, rules, lim, k) == Ok::<bool, GameError>(true))
                &&& r matches Err(TestFailure::Incomplete { start_index: k }) ==> k < n
                    && run_from(m, rules, lim, k as nat) == Ok::<bool, GameError>(false)
                    && forall|k2: nat| k2 < k ==> #[trigger] run_from(m, rules, lim, k2) == Ok::<bool, GameError>(true)
                &&& r matches Err(TestFailure::Aborted { start_index: k, error: e }) ==> k < n
                    && run_from(m, rules, lim, k as nat) == Err::<bool, GameError>(e)
                    && forall|k2: nat| k2 < k ==> #[trigger] run_from(m, rules, lim, k2) == Ok::<bool, GameError>(true)
            }),
    {
        let ghost m = self.map_table();
        let ghost rules = self.rule_seq();
        let ghost lim = self.limit();
        let ghost n = count_of(map_cells(m), false);
        proof {
            crate::grid::lemma_count_total(map_cells(m));
        }
        let mut start_index: usize = 0;
        loop
            invariant
                m == self.map_table(),
                rules == self.rule_seq(),
                lim == self.limit(),
                n == count_of(map_cells(m), false),
                n <= 625,
                start_index <= n,
                forall|k2: nat| k2 < start_index ==> #[trigger] run_from(m, rules, lim, k2) == Ok::<bool, GameError>(true),
            decreases n - start_index,
        {
            let game_maybe = Game::create(self.map, start_index, self.rules.clone());
            match game_maybe {
                Some(mut game) => {
                    assert(game.rule_seq() == rules);
                    match game.play_to_end(self.turn_limit) {
                        Ok(true) => {},
                        Ok(false) => {
                            return Err(TestFailure::Incomplete { start_index });
                        },
                        Err(e) => {
                            return Err(TestFailure::Aborted { start_index, error: e });
                        },
                    }
                },
                None => {
                    if start_index == 0 {
                        return Err(TestFailure::NoStart);
                    }
                    return Ok(());
                },
            }
            start_index += 1;
        }
    }
}


/// Whether conditions `a` and `b` contradict each other: one asks for a wall,
/// the other for a clear cell.
pub open spec fn conflicting(a: SpaceCondition, b: SpaceCondition) -> bool {
    (a == SpaceCondition::Wall && b == SpaceCondition::Clear) || (a == SpaceCondition::Clear && b
        == SpaceCondition::Wall)
}

/// Whether rules `a` and `b` share their state id and contradict each other in
/// no direction.
pub open spec fn compatible(a: Rule, b: Rule) -> bool {
    &&& a.match_state == b.match_state
    &&& forall|k: int| 0 <= k < 4 ==> !conflicting(#[trigger] a.match_nearby@[k], b.match_nearby@[k])
}

/// Whether no two distinct rules of `rules` are compatible.
pub open spec fn unambiguous(rules: Seq<Rule>) -> bool {
    forall|i: int, j: int|
        0 <= i < rules.len() && 0 <= j < rules.len() && i != j ==> !compatible(
            #[trigger] rules[i],
            #[trigger] rules[j],
        )
}

/// Two compatible rules both apply to some neighbourhood in their state.
pub proof fn lemma_compatible_rules_overlap(a: Rule, b: Rule)
    requires
        compatible(a, b),
    ensures
        exists|nb: Nearby| a.applies(a.match_state, nb) && b.applies(a.match_state, nb),
{
    let wall = |k: int| a.match_nearby@[k] == SpaceCondition::Wall || b.match_nearby@[k] == SpaceCondition::Wall;
    let nb = Nearby([wall(0), wall(1), wall(2), wall(3)]);
    assert forall|k: int| 0 <= k < 4 implies cond_holds(#[trigger] a.match_nearby@[k], nb.0@[k]) && cond_holds(
        b.match_nearby@[k],
        nb.0@[k],
    ) by {
        assert(!conflicting(a.match_nearby@[k], b.match_nearby@[k]));
        assert(nb.0@[k] == wall(k));
    }
    assert(a.applies(a.match_state, nb) && b.applies(a.match_state, nb));
}

/// In an unambiguous rule set at most one rule applies to any state and neighbourhood.
pub proof fn lemma_unambiguous_at_most_one(rules: Seq<Rule>, st: u32, nb: Nearby, i: int, j: int)
    requires
        unambiguous(rules),
        0 <= i < rules.len(),
        0 <= j < rules.len(),
        rules[i].applies(st, nb),
        rules[j].applies(st, nb),
    ensures
        i == j,
{
    if i != j {
        assert forall|k: int| 0 <= k < 4 implies !conflicting(
            #[trigger] rules[i].match_nearby@[k],
            rules[j].match_nearby@[k],
        ) by {
            assert(cond_holds(rules[i].match_nearby@[k], nb.0@[k]));
            assert(cond_holds(rules[j].match_nearby@[k], nb.0@[k]));
        }
        assert(compatible(rules[i], rules[j]));
    }
}

/// The first index from `from` on whose rule applies lies at or before any such index.
proof fn lemma_first_applying_le(rules: Seq<Rule>, st: u32, nb: Nearby, from: int, i: int)
    requires
        0 <= from <= i < rules.len(),
        rules[i].applies(st, nb),
    ensures
        from <= first_applying(rules, st, nb, from) <= i,
    decreases i - from,
{
    if from < i && !rules[from].applies(st, nb) {
        lemma_first_applying_le(rules, st, nb, from + 1, i);
    }
}

/// When two rules apply where the agent stands, the step is refused as ambiguous.
pub proof fn lemma_two_applicable_rules_abort(s: Sim, rules: Seq<Rule>, i: int, j: int)
    requires
        s.senses_inside(),
        0 <= i < j < rules.len(),
        rules[i].applies(s.bot_state, s.sensed()),
        rules[j].applies(s.bot_state, s.sensed()),
    ensures
        step_spec(s, rules) matches Err(GameError::Ambiguous { .. }),
{
    let nb = s.sensed();
    lemma_first_applying_le(rules, s.bot_state, nb, 0, i);
    let f = first_applying(rules, s.bot_state, nb, 0);
    if f < i {
        lemma_first_applying_le(rules, s.bot_state, nb, f + 1, i);
    } else {
        lemma_first_applying_le(rules, s.bot_state, nb, f + 1, j);
    }
}

/// Only clear cells are counted as visited, so no more cells are visited than
/// are clear, and as many are exactly when every clear cell is visited.
pub proof fn lemma_visited_within_clear(v: Seq<bool>, w: Seq<bool>)
    requires
        v.len() == w.len(),
        forall|i: int| 0 <= i < v.len() ==> #[trigger] v[i] ==> !w[i],
    ensures
        count_of(v, true) <= count_of(w, false),
        count_of(v, true) == count_of(w, false) <==> forall|i: int|
            0 <= i < v.len() ==> !#[trigger] w[i] ==> v[i],
    decreases v.len(),
{
    if v.len() > 0 {
        let v2 = v.drop_last();
        let w2 = w.drop_last();
        assert forall|i: int| 0 <= i < v2.len() && #[trigger] v2[i] implies !w2[i] by {
            assert(v2[i] == v[i] && w2[i] == w[i]);
        }
        lemma_visited_within_clear(v2, w2);
        if count_of(v, true) == count_of(w, false) {
            assert forall|i: int| 0 <= i < v.len() && !#[trigger] w[i] implies v[i] by {
                if i < v2.len() {
                    assert(v2[i] == v[i] && w2[i] == w[i]);
                }
            }
        }
        if forall|i: int| 0 <= i < v.len() ==> !#[trigger] w[i] ==> v[i] {
            assert forall|i: int| 0 <= i < v2.len() && !#[trigger] w2[i] implies v2[i] by {
                assert(v2[i] == v[i] && w2[i] == w[i]);
            }
        }
    }
}

/// On a well-formed state the counts say the run is complete exactly when
/// every clear cell has been visited.
pub proof fn lemma_complete_means_covered(m: &MapState)
    requires
        m.wf(),
    ensures
        m@.complete() <==> forall|i: int|
            0 <= i < m@.walls.len() ==> !#[trigger] m@.walls[i] ==> m@.visited[i],
{
    lemma_visited_within_clear(m@.visited, m@.walls);
}

} // verus!
