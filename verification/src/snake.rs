//! The deterministic grid simulation: snake movement, apple placement,
//! collision and termination rules, and the reward signal.
//!
//! Rewards are expressed in centi-units: -400 on death, +400 on apple
//! consumption, -1 (a -0.01 step cost) otherwise.

use vstd::prelude::*;

use crate::state::Fake;
use crate::state::MapState;
use crate::state::MyState;
use crate::sys::random_below;

verus! {

/// One of the four unit moves.
#[derive(Copy, Clone, PartialEq, Eq, Structural, Debug)]
pub enum Action {
    XPos,
    XNeg,
    YPos,
    YNeg,
}

/// Reward on death, in centi-units (-4.0).
pub const REWARD_DEATH_CENTI: i64 = -400;

/// Reward on apple consumption, in centi-units (+4.0).
pub const REWARD_APPLE_CENTI: i64 = 400;

/// Reward of an ordinary survival step, in centi-units (-0.01).
pub const REWARD_STEP_CENTI: i64 = -1;

/// How many uniform samples apple placement tries before falling back to a
/// deterministic scan of the arena.
pub const APPLE_SAMPLE_TRIES: usize = 64;

/// Largest accepted arena side, so that every coordinate computation fits
/// comfortably in `i32` and the arena area fits in `usize`.
pub const MAX_ARENA_SIDE: i32 = 16384;

/// Largest accepted observation window side.
pub const MAX_BOUND: usize = 255;

/// The failure of an apple respawn: the snake occupies every cell of the
/// arena, so no apple can be placed.
#[derive(Copy, Clone, PartialEq, Eq, Structural, Debug)]
pub enum ArenaError {
    ArenaExhausted,
}

/// What one call of `tick` reports: whether the snake died, and the reward
/// of the transition, in centi-units.
#[derive(Copy, Clone, PartialEq, Eq, Structural, Debug)]
pub struct TickOutcome {
    /// True when the move hit a wall or the snake's own body.
    pub died: bool,
    /// Exactly one of -400 (death), 400 (apple) or -1 (step).
    pub reward_centi: i64,
}

/// A list of grid positions as mathematical integer pairs.
pub open spec fn segs_view(v: Seq<(i32, i32)>) -> Seq<(int, int)> {
    v.map_values(|p: (i32, i32)| (p.0 as int, p.1 as int))
}

/// The candidate next head position for a move.
pub open spec fn move_target(head: (int, int), action: Action) -> (int, int) {
    match action {
        Action::XPos => (head.0 + 1, head.1),
        Action::XNeg => (head.0 - 1, head.1),
        Action::YPos => (head.0, head.1 + 1),
        Action::YNeg => (head.0, head.1 - 1),
    }
}

/// Whether a position lies within a `w` x `h` arena.
pub open spec fn pos_in_bounds(p: (int, int), w: int, h: int) -> bool {
    &&& 0 <= p.0 < w
    &&& 0 <= p.1 < h
}

/// The fixed three-segment snake a game starts with (and resets to on
/// death): vertical, tail first, centered in the arena.
pub open spec fn initial_snake(w: int, h: int) -> Seq<(int, int)> {
    seq![(w / 2, h / 2 - 2), (w / 2, h / 2 - 1), (w / 2, h / 2)]
}

/// Whether the given segments occupy every cell of a `w` x `h` arena,
/// leaving no room for an apple.
pub open spec fn all_covered(snake: Seq<(int, int)>, w: int, h: int) -> bool {
    forall|x: int, y: int| 0 <= x < w && 0 <= y < h ==> #[trigger] snake.contains((x, y))
}

/// The grid world owned by one simulation engine: the snake (oldest segment
/// first, head last), the apple, the arena dimensions, the latest reward and
/// the latest observation.
pub struct Arena {
    /// Snake segments, tail to head.
    pub snake: Vec<(i32, i32)>,
    /// Apple position and whether it is currently spawned.
    pub apple_pos: (i32, i32, bool),
    /// Arena width and height.
    pub arena_size: (i32, i32),
    /// Reward of the most recent tick, in centi-units.
    pub reward_for_last_action: i64,
    /// The observation encoding the state after the most recent tick.
    pub state: MyState,
    /// Side length of the egocentric observation window (odd).
    pub bound: usize,
}

impl Arena {
    /// Arena width as a mathematical integer.
    pub open spec fn spec_w(self) -> int {
        self.arena_size.0 as int
    }

    /// Arena height as a mathematical integer.
    pub open spec fn spec_h(self) -> int {
        self.arena_size.1 as int
    }

    /// The snake as a sequence of integer positions.
    pub open spec fn spec_snake(self) -> Seq<(int, int)> {
        segs_view(self.snake@)
    }

    /// The snake's head: the last segment.
    pub open spec fn spec_head(self) -> (int, int) {
        self.spec_snake().last()
    }

    /// The apple's position as a mathematical integer pair.
    pub open spec fn spec_apple(self) -> (int, int) {
        (self.apple_pos.0 as int, self.apple_pos.1 as int)
    }

    /// The arena dimensions lie within the accepted machine limits.
    pub open spec fn dims_ok(self) -> bool {
        &&& 1 <= self.arena_size.0 <= MAX_ARENA_SIDE
        &&& 4 <= self.arena_size.1 <= MAX_ARENA_SIDE
    }

    /// The snake is at least the initial length, within bounds, and free of
    /// self-overlap.
    pub open spec fn snake_ok(self) -> bool {
        &&& 3 <= self.spec_snake().len()
        &&& forall|i: int|
            0 <= i < self.spec_snake().len() ==> pos_in_bounds(
                #[trigger] self.spec_snake()[i],
                self.spec_w(),
                self.spec_h(),
            )
        &&& forall|i: int, j: int|
            0 <= i < j < self.spec_snake().len() ==> #[trigger] self.spec_snake()[i]
                != #[trigger] self.spec_snake()[j]
    }

    /// When the apple is spawned, it lies within bounds and never on a snake
    /// segment.
    pub open spec fn apple_ok(self) -> bool {
        self.apple_pos.2 ==> {
            &&& pos_in_bounds(self.spec_apple(), self.spec_w(), self.spec_h())
            &&& !self.spec_snake().contains(self.spec_apple())
        }
    }

    /// The well-formedness invariant of every reachable arena: accepted
    /// dimensions and window side, the bounds and no-self-collision
    /// invariants of the snake, the apple validity invariant, and a square
    /// observation window.
    pub open spec fn wf(self) -> bool {
        &&& self.dims_ok()
        &&& 3 <= self.bound <= MAX_BOUND
        &&& self.bound % 2 == 1
        &&& self.snake_ok()
        &&& self.apple_ok()
        &&& self.state.is_square(self.bound as nat)
    }
}

/// Whether the listed segments contain the given position.
pub fn seg_list_contains(segs: &Vec<(i32, i32)>, x: i32, y: i32) -> (r: bool)
    ensures
        r == segs_view(segs@).contains((x as int, y as int)),
{
    let mut i: usize = 0;
    let mut found: bool = false;
    while i < segs.len()
        invariant
            i <= segs@.len(),
            found == exists|k: int|
                0 <= k < i && segs_view(segs@)[k] == ((x as int, y as int)),
        decreases segs@.len() - i,
    {
        let seg: (i32, i32) = segs[i];
        if seg.0 == x && seg.1 == y {
            proof {
                assert(segs_view(segs@)[i as int] == ((x as int, y as int)));
            }
            found = true;
        }
        i = i + 1;
    }
    proof {
        if found {
            assert(segs_view(segs@).contains((x as int, y as int)));
        } else {
            assert(forall|k: int|
                0 <= k < segs_view(segs@).len() ==> segs_view(segs@)[k] != ((x as int, y as int)));
        }
    }
    found
}

impl Arena {
    /// Replaces the snake with the fixed initial three-segment snake.
    fn new_snake(&mut self)
        requires
            old(self).dims_ok(),
        ensures
            final(self).spec_snake() == initial_snake(old(self).spec_w(), old(self).spec_h()),
            final(self).arena_size == old(self).arena_size,
            final(self).apple_pos == old(self).apple_pos,
            final(self).bound == old(self).bound,
            final(self).state == old(self).state,
            final(self).reward_for_last_action == old(self).reward_for_last_action,
    {
        let half_x: i32 = ((self.arena_size.0 as usize) / 2) as i32;
        let half_y: i32 = ((self.arena_size.1 as usize) / 2) as i32;
        let mut new_snake: Vec<(i32, i32)> = Vec::new();
        new_snake.push((half_x, half_y - 2));
        new_snake.push((half_x, half_y - 1));
        new_snake.push((half_x, half_y));
        self.snake = new_snake;
        proof {
            assert(half_x as int == self.spec_w() / 2);
            assert(half_y as int == self.spec_h() / 2);
            assert(self.spec_snake() =~= initial_snake(self.spec_w(), self.spec_h()));
        }
    }

    /// Whether the snake currently occupies the given position.
    fn snake_occupies(&self, x: i32, y: i32) -> (r: bool)
        ensures
            r == self.spec_snake().contains((x as int, y as int)),
    {
        seg_list_contains(&self.snake, x, y)
    }

    /// Respawns the apple on a uniformly sampled free cell, rejecting
    /// samples that land on the snake; after a bounded number of samples it
    /// falls back to a deterministic scan.  Fails exactly when the snake
    /// covers the whole arena.
    fn gen_apple(&mut self) -> (r: Result<(), ArenaError>)
        requires
            old(self).dims_ok(),
        ensures
            final(self).snake == old(self).snake,
            final(self).arena_size == old(self).arena_size,
            final(self).bound == old(self).bound,
            final(self).state == old(self).state,
            final(self).reward_for_last_action == old(self).reward_for_last_action,
            r is Ok <==> !all_covered(old(self).spec_snake(), old(self).spec_w(), old(self).spec_h()),
            r is Ok ==> {
                &&& final(self).apple_pos.2
                &&& pos_in_bounds(final(self).spec_apple(), final(self).spec_w(), final(self).spec_h())
                &&& !final(self).spec_snake().contains(final(self).spec_apple())
            },
            r is Err ==> !final(self).apple_pos.2,
    {
        self.apple_pos = (self.apple_pos.0, self.apple_pos.1, false);
        let w: i32 = self.arena_size.0;
        let h: i32 = self.arena_size.1;
        let mut tries: usize = 0;
        while tries < APPLE_SAMPLE_TRIES
            invariant
                self.snake == old(self).snake,
                self.arena_size == old(self).arena_size,
                self.bound == old(self).bound,
                self.state == old(self).state,
                self.reward_for_last_action == old(self).reward_for_last_action,
                self.apple_pos == (old(self).apple_pos.0, old(self).apple_pos.1, false),
                self.dims_ok(),
                w == self.arena_size.0,
                h == self.arena_size.1,
            decreases APPLE_SAMPLE_TRIES - tries,
        {
            let x: i32 = random_below(w);
            let y: i32 = random_below(h);
            if !self.snake_occupies(x, y) {
                self.apple_pos = (x, y, true);
                return Ok(());
            }
            tries = tries + 1;
        }
        let mut x: i32 = 0;
        while x < w
            invariant
                self.snake == old(self).snake,
                self.arena_size == old(self).arena_size,
                self.bound == old(self).bound,
                self.state == old(self).state,
                self.reward_for_last_action == old(self).reward_for_last_action,
                self.apple_pos == (old(self).apple_pos.0, old(self).apple_pos.1, false),
                self.dims_ok(),
                w == self.arena_size.0,
                h == self.arena_size.1,
                0 <= x <= w,
                forall|a: int, b: int|
                    0 <= a < x && 0 <= b < h ==> #[trigger] self.spec_snake().contains((a, b)),
            decreases w - x,
        {
            let mut y: i32 = 0;
            while y < h
                invariant
                    self.snake == old(self).snake,
                    self.arena_size == old(self).arena_size,
                    self.bound == old(self).bound,
                    self.state == old(self).state,
                    self.reward_for_last_action == old(self).reward_for_last_action,
                    self.apple_pos == (old(self).apple_pos.0, old(self).apple_pos.1, false),
                    self.dims_ok(),
                    w == self.arena_size.0,
                    h == self.arena_size.1,
                    0 <= x < w,
                    0 <= y <= h,
                    forall|a: int, b: int|
                        0 <= a < x && 0 <= b < h ==> #[trigger] self.spec_snake().contains((a, b)),
                    forall|b: int|
                        0 <= b < y ==> #[trigger] self.spec_snake().contains((x as int, b)),
                decreases h - y,
            {
                if !self.snake_occupies(x, y) {
                    self.apple_pos = (x, y, true);
                    return Ok(());
                }
                y = y + 1;
            }
            x = x + 1;
        }
        proof {
            assert(all_covered(self.spec_snake(), self.spec_w(), self.spec_h()));
        }
        Err(ArenaError::ArenaExhausted)
    }
}

/// The sign of an integer displacement: -1, 0 or +1.
pub open spec fn sign(x: int) -> int {
    if x > 0 {
        1
    } else if x < 0 {
        -1
    } else {
        0
    }
}

/// The tag of one cell of the egocentric window: cell `(i, j)` of the window
/// maps to arena position `(i - bound/2 + head.x, j - bound/2 + head.y)` and
/// is deadly when that position is on the snake or outside the arena.
pub open spec fn obs_cell(
    snake: Seq<(int, int)>,
    w: int,
    h: int,
    head: (int, int),
    bound: int,
    i: int,
    j: int,
) -> MapState {
    let p = (i - bound / 2 + head.0, j - bound / 2 + head.1);
    if snake.contains(p) || !pos_in_bounds(p, w, h) {
        MapState::Death
    } else {
        MapState::Empty
    }
}

/// What the state encoder owes: `st` is the egocentric observation of the
/// given snake within a `w` x `h` arena, with the discretized direction from
/// the head towards `apple` and the given pass-through reward.
pub open spec fn obs_matches(
    st: MyState,
    snake: Seq<(int, int)>,
    apple: (int, int),
    w: int,
    h: int,
    bound: int,
    reward: i64,
) -> bool {
    let head = snake.last();
    &&& st.is_square(bound as nat)
    &&& forall|i: int, j: int|
        0 <= i < bound && 0 <= j < bound ==> #[trigger] st.map_view()[i][j] == obs_cell(
            snake,
            w,
            h,
            head,
            bound,
            i,
            j,
        )
    &&& st.curr_apple.0 as int == sign(apple.0 - head.0)
    &&& st.curr_apple.1 as int == sign(apple.1 - head.1)
    &&& st.reward == (Fake::Val(reward))
}

/// The state encoder: builds the egocentric observation of the given snake,
/// apple and arena.  A pure function of its inputs.
pub fn observe(
    snake: &Vec<(i32, i32)>,
    apple_xy: (i32, i32),
    arena_size: (i32, i32),
    bound: usize,
    reward_centi: i64,
) -> (st: MyState)
    requires
        1 <= snake@.len(),
        1 <= arena_size.0 <= MAX_ARENA_SIDE,
        1 <= arena_size.1 <= MAX_ARENA_SIDE,
        pos_in_bounds(segs_view(snake@).last(), arena_size.0 as int, arena_size.1 as int),
        1 <= bound <= MAX_BOUND,
    ensures
        obs_matches(
            st,
            segs_view(snake@),
            (apple_xy.0 as int, apple_xy.1 as int),
            arena_size.0 as int,
            arena_size.1 as int,
            bound as int,
            reward_centi,
        ),
{
    let ghost snake_v = segs_view(snake@);
    let head: (i32, i32) = snake[snake.len() - 1];
    proof {
        assert(snake_v.last() == ((head.0 as int, head.1 as int)));
    }
    let c: i32 = (bound / 2) as i32;
    let w: i32 = arena_size.0;
    let h: i32 = arena_size.1;
    let mut map: Vec<Vec<MapState>> = Vec::new();
    let mut i: usize = 0;
    while i < bound
        invariant
            i <= bound,
            1 <= bound <= MAX_BOUND,
            c as int == bound as int / 2,
            snake_v == segs_view(snake@),
            snake_v.last() == ((head.0 as int, head.1 as int)),
            0 <= head.0 < arena_size.0,
            0 <= head.1 < arena_size.1,
            1 <= arena_size.0 <= MAX_ARENA_SIDE,
            1 <= arena_size.1 <= MAX_ARENA_SIDE,
            w == arena_size.0,
            h == arena_size.1,
            map@.len() == i,
            forall|k: int| 0 <= k < i ==> (#[trigger] map@[k])@.len() == bound,
            forall|k: int, j: int|
                0 <= k < i && 0 <= j < bound ==> map@[k]@[j] == obs_cell(
                    snake_v,
                    w as int,
                    h as int,
                    (head.0 as int, head.1 as int),
                    bound as int,
                    k,
                    j,
                ),
        decreases bound - i,
    {
        let mut row: Vec<MapState> = Vec::new();
        let mut j: usize = 0;
        while j < bound
            invariant
                j <= bound,
                i < bound,
                1 <= bound <= MAX_BOUND,
                c as int == bound as int / 2,
                snake_v == segs_view(snake@),
                snake_v.last() == ((head.0 as int, head.1 as int)),
                0 <= head.0 < arena_size.0,
                0 <= head.1 < arena_size.1,
                1 <= arena_size.0 <= MAX_ARENA_SIDE,
                1 <= arena_size.1 <= MAX_ARENA_SIDE,
                w == arena_size.0,
                h == arena_size.1,
                row@.len() == j,
                forall|k: int|
                    0 <= k < j ==> row@[k] == obs_cell(
                        snake_v,
                        w as int,
                        h as int,
                        (head.0 as int, head.1 as int),
                        bound as int,
                        i as int,
                        k,
                    ),
            decreases bound - j,
        {
            let px: i32 = (i as i32) - c + head.0;
            let py: i32 = (j as i32) - c + head.1;
            let deadly: bool = seg_list_contains(snake, px, py) || px < 0 || py < 0 || px >= w
                || py >= h;
            if deadly {
                row.push(MapState::Death);
            } else {
                row.push(MapState::Empty);
            }
            j = j + 1;
        }
        map.push(row);
        i = i + 1;
    }
    let ax: i32 = apple_xy.0;
    let ay: i32 = apple_xy.1;
    let dir_x: i32 = if ax > head.0 {
        1
    } else if ax < head.0 {
        -1
    } else {
        0
    };
    let dir_y: i32 = if ay > head.1 {
        1
    } else if ay < head.1 {
        -1
    } else {
        0
    };
    let st = MyState { map, curr_apple: (dir_x, dir_y), reward: Fake::Val(reward_centi) };
    proof {
        assert forall|i2: int, j2: int| 0 <= i2 < bound && 0 <= j2 < bound implies #[trigger] st
            .map_view()[i2][j2] == obs_cell(
            snake_v,
            w as int,
            h as int,
            (head.0 as int, head.1 as int),
            bound as int,
            i2,
            j2,
        ) by {
            assert(st.map_view()[i2] == st.map@[i2]@);
        }
    }
    st
}

impl Arena {
    /// Re-encodes the observation from the current snake, apple and reward.
    fn update_state(&mut self)
        requires
            old(self).dims_ok(),
            1 <= old(self).spec_snake().len(),
            pos_in_bounds(old(self).spec_head(), old(self).spec_w(), old(self).spec_h()),
            1 <= old(self).bound <= MAX_BOUND,
        ensures
            final(self).snake == old(self).snake,
            final(self).apple_pos == old(self).apple_pos,
            final(self).arena_size == old(self).arena_size,
            final(self).bound == old(self).bound,
            final(self).reward_for_last_action == old(self).reward_for_last_action,
            obs_matches(
                final(self).state,
                old(self).spec_snake(),
                old(self).spec_apple(),
                old(self).spec_w(),
                old(self).spec_h(),
                old(self).bound as int,
                old(self).reward_for_last_action,
            ),
    {
        let st = observe(
            &self.snake,
            (self.apple_pos.0, self.apple_pos.1),
            self.arena_size,
            self.bound,
            self.reward_for_last_action,
        );
        self.state = st;
    }
}


/// The fixed initial snake is three distinct in-bounds segments that leave
/// at least one arena cell free.
proof fn lemma_initial_snake_ok(w: int, h: int)
    requires
        1 <= w,
        4 <= h,
    ensures
        initial_snake(w, h).len() == 3,
        forall|i: int|
            0 <= i < initial_snake(w, h).len() ==> pos_in_bounds(
                #[trigger] initial_snake(w, h)[i],
                w,
                h,
            ),
        forall|i: int, j: int|
            0 <= i < j < initial_snake(w, h).len() ==> #[trigger] initial_snake(w, h)[i]
                != #[trigger] initial_snake(w, h)[j],
        !all_covered(initial_snake(w, h), w, h),
{
    vstd::arithmetic::div_mod::lemma_fundamental_div_mod(w, 2);
    vstd::arithmetic::div_mod::lemma_fundamental_div_mod(h, 2);
    let s = initial_snake(w, h);
    assert(0 <= w / 2 < w);
    assert(2 <= h / 2 < h);
    let free = (w / 2, h / 2 + 1);
    assert(h / 2 + 1 < h);
    assert(forall|i: int| 0 <= i < 3 ==> #[trigger] s[i] != free);
    assert(!s.contains(free));
    if all_covered(s, w, h) {
        assert(s.contains((w / 2, h / 2 + 1)));
        assert(false);
    }
}

impl Arena {
    /// Whether the given move kills the snake: the candidate head position
    /// leaves the arena or lands on an existing segment.
    pub open spec fn spec_died(self, action: Action) -> bool {
        let target = move_target(self.spec_head(), action);
        !pos_in_bounds(target, self.spec_w(), self.spec_h()) || self.spec_snake().contains(target)
    }

    /// Whether the given move consumes the apple: the snake survives and the
    /// candidate head position is the currently spawned apple.
    pub open spec fn spec_apple_hit(self, action: Action) -> bool {
        let target = move_target(self.spec_head(), action);
        &&& !self.spec_died(action)
        &&& self.apple_pos.2
        &&& target == self.spec_apple()
    }

    /// The observation encoding the state after the most recent tick; the
    /// read-only accessor the rendering collaborator and the loops use.
    pub fn current_state(&self) -> (r: &MyState)
        ensures
            *r == self.state,
    {
        &self.state
    }

    /// Resets snake and apple to the initial configuration, in place.
    pub fn reset(&mut self)
        requires
            old(self).dims_ok(),
        ensures
            final(self).spec_snake() == initial_snake(old(self).spec_w(), old(self).spec_h()),
            final(self).snake_ok(),
            final(self).apple_pos.2,
            final(self).apple_ok(),
            final(self).arena_size == old(self).arena_size,
            final(self).bound == old(self).bound,
            final(self).state == old(self).state,
            final(self).reward_for_last_action == old(self).reward_for_last_action,
    {
        self.new_snake();
        proof {
            lemma_initial_snake_ok(self.spec_w(), self.spec_h());
        }
        let r = self.gen_apple();
        proof {
            assert(r is Ok);
        }
        match r {
            Ok(_) => {},
            Err(_) => {},
        }
    }

    /// Builds a fresh arena: centered three-segment snake, a spawned apple
    /// on a free cell, a zero reward and an all-`Empty` observation.
    pub fn new(arena_size: (i32, i32), bound: usize) -> (a: Arena)
        requires
            1 <= arena_size.0 <= MAX_ARENA_SIDE,
            4 <= arena_size.1 <= MAX_ARENA_SIDE,
            3 <= bound <= MAX_BOUND,
            bound % 2 == 1,
        ensures
            a.wf(),
            a.arena_size == arena_size,
            a.bound == bound,
            a.spec_snake() == initial_snake(arena_size.0 as int, arena_size.1 as int),
            a.apple_pos.2,
            a.apple_ok(),
            a.reward_for_last_action == 0,
            forall|i: int, j: int|
                0 <= i < bound && 0 <= j < bound ==> a.state.map_view()[i][j] == MapState::Empty,
            a.state.curr_apple == (0i32, 0i32),
            a.state.reward == (Fake::Val(0i64)),
    {
        let mut out = Arena {
            snake: Vec::new(),
            apple_pos: (0, 0, false),
            arena_size,
            reward_for_last_action: 0,
            state: MyState::new(bound),
            bound,
        };
        out.reset();
        out
    }

    /// The full transition relation of `tick`: what `post` and the result
    /// `r` are, given the pre-state `pre` and the move.
    pub open spec fn tick_rel(pre: Arena, post: Arena, action: Action, r: Result<
        TickOutcome,
        ArenaError,
    >) -> bool {
        let target = move_target(pre.spec_head(), action);
        let died = pre.spec_died(action);
        let hit = pre.spec_apple_hit(action);
        let grown = pre.spec_snake().push(target);
        let w = pre.spec_w();
        let h = pre.spec_h();
        &&& post.arena_size == pre.arena_size
        &&& post.bound == pre.bound
        &&& post.wf()
        &&& (died ==> {
            &&& r == (Ok::<TickOutcome, ArenaError>(
                TickOutcome { died: true, reward_centi: REWARD_DEATH_CENTI },
            ))
            &&& post.spec_snake() == initial_snake(w, h)
            &&& post.apple_pos.2
        })
        &&& (hit && !all_covered(grown, w, h) ==> {
            &&& r == (Ok::<TickOutcome, ArenaError>(
                TickOutcome { died: false, reward_centi: REWARD_APPLE_CENTI },
            ))
            &&& post.spec_snake() == grown
            &&& post.apple_pos.2
        })
        &&& (hit && all_covered(grown, w, h) ==> {
            &&& r == (Err::<TickOutcome, ArenaError>(ArenaError::ArenaExhausted))
            &&& post.spec_snake() == grown
            &&& !post.apple_pos.2
            &&& post.state == pre.state
        })
        &&& (!died && !hit ==> {
            &&& r == (Ok::<TickOutcome, ArenaError>(
                TickOutcome { died: false, reward_centi: REWARD_STEP_CENTI },
            ))
            &&& post.spec_snake() == pre.spec_snake().subrange(
                1,
                pre.spec_snake().len() as int,
            ).push(target)
            &&& post.apple_pos == pre.apple_pos
        })
        &&& (r is Err ==> hit && all_covered(grown, w, h))
        &&& (r matches Ok(out) ==> {
            &&& (out.died <==> died)
            &&& (out.reward_centi == REWARD_DEATH_CENTI || out.reward_centi
                == REWARD_APPLE_CENTI || out.reward_centi == REWARD_STEP_CENTI)
            &&& post.spec_snake().len() == (if died {
                3int
            } else if hit {
                pre.spec_snake().len() + 1int
            } else {
                pre.spec_snake().len() as int
            })
            &&& post.reward_for_last_action == out.reward_centi
            &&& obs_matches(
                post.state,
                post.spec_snake(),
                post.spec_apple(),
                w,
                h,
                pre.bound as int,
                out.reward_centi,
            )
        })
    }

    /// Advances the simulation by one move.
    ///
    /// Death (the candidate head position leaves the arena or hits the
    /// body) resets snake and apple and yields reward -4.0; consuming the
    /// apple grows the snake by one and respawns the apple with reward
    /// +4.0; any other move advances the snake unchanged in length with
    /// reward -0.01.  No other reward value is ever produced.  The
    /// observation is re-encoded from the resulting state.  The only
    /// failure is `ArenaExhausted`: the apple was consumed and the grown
    /// snake occupies every arena cell.
    pub fn tick(&mut self, action: Action) -> (r: Result<TickOutcome, ArenaError>)
        requires
            old(self).wf(),
        ensures
            final(self).arena_size == old(self).arena_size,
            final(self).bound == old(self).bound,
            final(self).wf(),
            Arena::tick_rel(*old(self), *final(self), action, r),
    {
        let head: (i32, i32) = self.snake[self.snake.len() - 1];
        proof {
            assert(self.spec_head() == ((head.0 as int, head.1 as int)));
        }
        let new_head: (i32, i32) = match action {
            Action::XPos => (head.0 + 1, head.1),
            Action::XNeg => (head.0 - 1, head.1),
            Action::YPos => (head.0, head.1 + 1),
            Action::YNeg => (head.0, head.1 - 1),
        };
        proof {
            assert(move_target(self.spec_head(), action) == ((
                new_head.0 as int,
                new_head.1 as int,
            )));
        }
        let in_b: bool = new_head.0 >= 0 && new_head.1 >= 0 && new_head.0 < self.arena_size.0
            && new_head.1 < self.arena_size.1;
        let on_snake: bool = self.snake_occupies(new_head.0, new_head.1);
        let alive: bool = in_b && !on_snake;

        if !alive {
            self.reset();
            self.reward_for_last_action = REWARD_DEATH_CENTI;
            self.update_state();
            return Ok(TickOutcome { died: true, reward_centi: REWARD_DEATH_CENTI });
        }

        let ghost old_snake = self.spec_snake();
        self.snake.push(new_head);
        proof {
            assert(self.spec_snake() =~= old_snake.push((new_head.0 as int, new_head.1 as int)));
            assert forall|i: int, j: int|
                0 <= i < j < self.spec_snake().len() implies #[trigger] self.spec_snake()[i]
                != #[trigger] self.spec_snake()[j] by {
                if j + 1 == self.spec_snake().len() {
                    assert(old_snake.contains(old_snake[i]));
                }
            }
        }
        let hit: bool = self.apple_pos.2 && new_head.0 == self.apple_pos.0 && new_head.1
            == self.apple_pos.1;
        if hit {
            let r = self.gen_apple();
            match r {
                Err(e) => {
                    return Err(e);
                },
                Ok(_) => {},
            }
            self.reward_for_last_action = REWARD_APPLE_CENTI;
            self.update_state();
            return Ok(TickOutcome { died: false, reward_centi: REWARD_APPLE_CENTI });
        }
        let ghost grown_snake = self.spec_snake();
        self.snake.remove(0);
        proof {
            assert(self.spec_snake() =~= old_snake.subrange(1, old_snake.len() as int).push(
                (new_head.0 as int, new_head.1 as int),
            ));
            assert forall|i: int, j: int|
                0 <= i < j < self.spec_snake().len() implies #[trigger] self.spec_snake()[i]
                != #[trigger] self.spec_snake()[j] by {
                assert(self.spec_snake()[i] == grown_snake[i + 1]);
                assert(self.spec_snake()[j] == grown_snake[j + 1]);
            }
            if self.apple_pos.2 {
                assert forall|i: int|
                    0 <= i < self.spec_snake().len() implies #[trigger] self.spec_snake()[i]
                    != self.spec_apple() by {
                    if i + 1 < old_snake.len() {
                        assert(self.spec_snake()[i] == old_snake[i + 1]);
                        assert(old_snake.contains(old_snake[i + 1]));
                    } else {
                        assert(self.spec_snake()[i] == ((new_head.0 as int, new_head.1 as int)));
                    }
                }
                assert(!self.spec_snake().contains(self.spec_apple()));
            }
        }
        self.reward_for_last_action = REWARD_STEP_CENTI;
        self.update_state();
        Ok(TickOutcome { died: false, reward_centi: REWARD_STEP_CENTI })
    }
}

/// Bounds invariant: in every well-formed (hence every reachable) arena,
/// each snake segment lies within `[0, width) x [0, height)`.
pub proof fn lemma_bounds_invariant(a: Arena)
    requires
        a.wf(),
    ensures
        forall|i: int|
            0 <= i < a.spec_snake().len() ==> pos_in_bounds(
                #[trigger] a.spec_snake()[i],
                a.spec_w(),
                a.spec_h(),
            ),
{
}

/// No self-collision: in every well-formed (hence every reachable) arena,
/// no two snake segments occupy the same position.
pub proof fn lemma_no_self_collision(a: Arena)
    requires
        a.wf(),
    ensures
        forall|i: int, j: int|
            0 <= i < j < a.spec_snake().len() ==> #[trigger] a.spec_snake()[i]
                != #[trigger] a.spec_snake()[j],
{
}

/// Apple validity: in every well-formed (hence every reachable) arena with
/// a spawned apple, the apple lies in bounds and on no snake segment.
pub proof fn lemma_apple_validity(a: Arena)
    requires
        a.wf(),
        a.apple_pos.2,
    ensures
        pos_in_bounds(a.spec_apple(), a.spec_w(), a.spec_h()),
        !a.spec_snake().contains(a.spec_apple()),
{
}

} // verus!
