//! Observation types: the egocentric state encoding used as a table key.
//!
//! An observation (`MyState`) is a square window of `MapState` cells centered
//! on the snake's head, a discretized apple-direction vector, and the reward
//! produced by the tick that led to this state.  The reward field is carried
//! as a value but deliberately ignored by key equality: two observations with
//! the same window and direction are the same table key even when their
//! rewards differ.

use vstd::prelude::*;

verus! {

/// One cell of the egocentric observation window: either free, or deadly
/// (occupied by the snake body or outside the arena).
#[derive(Copy, Clone, PartialEq, Eq, Structural, Debug)]
pub enum MapState {
    Empty,
    Death,
}

/// The reward tag attached to an observation, in centi-units (hundredths):
/// a stored value of -400 stands for a reward of -4.0.
///
/// Its equality is intentionally degenerate: any two `Fake` values compare
/// equal, so the reward never separates two otherwise-identical table keys.
#[derive(Copy, Clone, Debug)]
pub enum Fake {
    Val(i64),
}

impl Fake {
    /// The carried reward, in centi-units.
    pub open spec fn spec_value(self) -> i64 {
        match self {
            Fake::Val(v) => v,
        }
    }

    /// Extracts the carried reward, in centi-units.
    pub fn value(&self) -> (r: i64)
        ensures
            r == self.spec_value(),
    {
        match self {
            Fake::Val(v) => *v,
        }
    }
}

impl PartialEq for Fake {
    fn eq(&self, _other: &Self) -> bool {
        true
    }
}

impl Eq for Fake {}

impl vstd::std_specs::cmp::PartialEqSpecImpl for Fake {
    open spec fn obeys_eq_spec() -> bool {
        true
    }

    open spec fn eq_spec(&self, _other: &Self) -> bool {
        true
    }
}

/// An observation: the bounded, egocentric encoding of the simulation state.
///
/// `map` is the local window (row index first), `curr_apple` the sign of the
/// displacement from the head to the apple on each axis, and `reward` the
/// reward received by the action that produced this state.
pub struct MyState {
    /// Whether each tile of the egocentric window is deadly.
    pub map: Vec<Vec<MapState>>,
    /// The direction towards the apple, each axis in {-1, 0, 1}.
    pub curr_apple: (i32, i32),
    /// The reward of the most recent tick, in centi-units.
    pub reward: Fake,
}

impl MyState {
    /// The window as a sequence of rows.
    pub open spec fn map_view(self) -> Seq<Seq<MapState>> {
        self.map@.map_values(|row: Vec<MapState>| row@)
    }

    /// The part of an observation that acts as a table key: the window and
    /// the apple direction.  The reward is deliberately left out.
    pub open spec fn key_view(self) -> (Seq<Seq<MapState>>, (int, int)) {
        (self.map_view(), (self.curr_apple.0 as int, self.curr_apple.1 as int))
    }

    /// The window is square with the given side length.
    pub open spec fn is_square(self, bound: nat) -> bool {
        &&& self.map_view().len() == bound
        &&& forall|i: int| 0 <= i < bound ==> #[trigger] self.map_view()[i].len() == bound
    }

    /// A fresh all-`Empty` observation with a `bound` x `bound` window,
    /// no apple direction and a zero reward.
    pub fn new(bound: usize) -> (st: MyState)
        ensures
            st.is_square(bound as nat),
            forall|i: int, j: int|
                0 <= i < bound && 0 <= j < bound ==> st.map_view()[i][j] == MapState::Empty,
            st.curr_apple == (0i32, 0i32),
            st.reward == (Fake::Val(0i64)),
    {
        let mut map: Vec<Vec<MapState>> = Vec::new();
        let mut i: usize = 0;
        while i < bound
            invariant
                i <= bound,
                map@.len() == i,
                forall|k: int| 0 <= k < i ==> (#[trigger] map@[k])@.len() == bound,
                forall|k: int, j: int|
                    0 <= k < i && 0 <= j < bound ==> map@[k]@[j] == MapState::Empty,
            decreases bound - i,
        {
            let mut row: Vec<MapState> = Vec::new();
            let mut j: usize = 0;
            while j < bound
                invariant
                    j <= bound,
                    row@.len() == j,
                    forall|k: int| 0 <= k < j ==> row@[k] == MapState::Empty,
                decreases bound - j,
            {
                row.push(MapState::Empty);
                j = j + 1;
            }
            map.push(row);
            i = i + 1;
        }
        MyState { map, curr_apple: (0, 0), reward: Fake::Val(0) }
    }
}

/// Compares two window rows cell by cell.
fn row_eq(a: &Vec<MapState>, b: &Vec<MapState>) -> (r: bool)
    ensures
        r == (a@ == b@),
{
    if a.len() != b.len() {
        return false;
    }
    let mut j: usize = 0;
    while j < a.len()
        invariant
            j <= a@.len(),
            a@.len() == b@.len(),
            forall|k: int| 0 <= k < j ==> a@[k] == b@[k],
        decreases a@.len() - j,
    {
        if a[j] != b[j] {
            return false;
        }
        j = j + 1;
    }
    proof {
        assert(a@ =~= b@);
    }
    true
}

/// Compares two windows row by row.
fn window_eq(a: &Vec<Vec<MapState>>, b: &Vec<Vec<MapState>>) -> (r: bool)
    ensures
        r == (a@.map_values(|row: Vec<MapState>| row@) == b@.map_values(
            |row: Vec<MapState>| row@,
        )),
{
    let ghost av = a@.map_values(|row: Vec<MapState>| row@);
    let ghost bv = b@.map_values(|row: Vec<MapState>| row@);
    if a.len() != b.len() {
        proof {
            assert(av.len() != bv.len());
        }
        return false;
    }
    let mut i: usize = 0;
    while i < a.len()
        invariant
            i <= a@.len(),
            a@.len() == b@.len(),
            av == a@.map_values(|row: Vec<MapState>| row@),
            bv == b@.map_values(|row: Vec<MapState>| row@),
            forall|k: int| 0 <= k < i ==> av[k] == bv[k],
        decreases a@.len() - i,
    {
        if !row_eq(&a[i], &b[i]) {
            proof {
                assert(av[i as int] != bv[i as int]);
            }
            return false;
        }
        i = i + 1;
    }
    proof {
        assert(av =~= bv);
    }
    true
}

/// Compares two observations as table keys: window and apple direction,
/// ignoring the reward tag.
pub fn key_eq(a: &MyState, b: &MyState) -> (r: bool)
    ensures
        r == (a.key_view() == b.key_view()),
{
    let windows: bool = window_eq(&a.map, &b.map);
    let apples: bool = a.curr_apple.0 == b.curr_apple.0 && a.curr_apple.1 == b.curr_apple.1;
    windows && apples
}

impl PartialEq for MyState {
    fn eq(&self, other: &Self) -> bool {
        key_eq(self, other)
    }
}

impl Eq for MyState {}

impl vstd::std_specs::cmp::PartialEqSpecImpl for MyState {
    open spec fn obeys_eq_spec() -> bool {
        true
    }

    open spec fn eq_spec(&self, other: &Self) -> bool {
        self.key_view() == other.key_view()
    }
}

/// Copies one window row.
fn clone_row(a: &Vec<MapState>) -> (r: Vec<MapState>)
    ensures
        r@ == a@,
{
    let mut out: Vec<MapState> = Vec::new();
    let mut j: usize = 0;
    while j < a.len()
        invariant
            j <= a@.len(),
            out@.len() == j,
            forall|k: int| 0 <= k < j ==> out@[k] == a@[k],
        decreases a@.len() - j,
    {
        out.push(a[j]);
        j = j + 1;
    }
    proof {
        assert(out@ =~= a@);
    }
    out
}

impl Clone for MyState {
    /// Copies the observation field by field.
    fn clone(&self) -> (r: Self)
        ensures
            r.map_view() == self.map_view(),
            r.curr_apple == self.curr_apple,
            r.reward == self.reward,
    {
        let mut map: Vec<Vec<MapState>> = Vec::new();
        let mut i: usize = 0;
        while i < self.map.len()
            invariant
                i <= self.map@.len(),
                map@.len() == i,
                forall|k: int| 0 <= k < i ==> (#[trigger] map@[k])@ == self.map@[k]@,
            decreases self.map@.len() - i,
        {
            map.push(clone_row(&self.map[i]));
            i = i + 1;
        }
        proof {
            assert(map@.map_values(|row: Vec<MapState>| row@) =~= self.map@.map_values(
                |row: Vec<MapState>| row@,
            ));
        }
        MyState { map, curr_apple: self.curr_apple, reward: self.reward }
    }
}


/// Observations that differ only in their reward tag are the same table
/// key: the reward is deliberately a wildcard, so such observations
/// collide to the same slot.
pub proof fn lemma_reward_is_wildcard(a: MyState, b: MyState)
    requires
        a.map_view() == b.map_view(),
        a.curr_apple == b.curr_apple,
    ensures
        a.key_view() == b.key_view(),
{
}

} // verus!
