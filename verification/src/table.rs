//! The action-value table: per-observation, per-action estimated values in
//! fixed-point centi-units, and the bootstrapped value update.
//!
//! A table is an association list from observation keys (window plus apple
//! direction, reward ignored) to per-action values, with no duplicate keys.
//! Its mathematical view is a `Map` from keys to `ActionValues`.

use vstd::prelude::*;

use crate::snake::Action;
use crate::state::key_eq;
use crate::state::MapState;
use crate::state::MyState;

verus! {

/// Largest magnitude an action value may take, in centi-units.  Updates
/// saturate here so that value arithmetic stays within `i64`.
pub const VALUE_LIMIT_CENTI: i64 = 1_000_000_000_000;

/// The part of an observation that addresses a table slot.
pub type ObsKey = (Seq<Seq<MapState>>, (int, int));

/// The recorded values of the four actions for one observation, in
/// centi-units.  An absent entry means the action has never been updated.
#[derive(Copy, Clone, Debug)]
pub struct ActionValues {
    /// Recorded value of the move towards positive x.
    pub x_pos: Option<i64>,
    /// Recorded value of the move towards negative x.
    pub x_neg: Option<i64>,
    /// Recorded value of the move towards positive y.
    pub y_pos: Option<i64>,
    /// Recorded value of the move towards negative y.
    pub y_neg: Option<i64>,
}

impl ActionValues {
    /// The recorded value of one action.
    pub open spec fn spec_get(self, a: Action) -> Option<i64> {
        match a {
            Action::XPos => self.x_pos,
            Action::XNeg => self.x_neg,
            Action::YPos => self.y_pos,
            Action::YNeg => self.y_neg,
        }
    }

    /// The result of writing one action's value.
    pub open spec fn spec_set(self, a: Action, v: i64) -> ActionValues {
        match a {
            Action::XPos => ActionValues { x_pos: Some(v), ..self },
            Action::XNeg => ActionValues { x_neg: Some(v), ..self },
            Action::YPos => ActionValues { y_pos: Some(v), ..self },
            Action::YNeg => ActionValues { y_neg: Some(v), ..self },
        }
    }

    /// Every recorded value stays within the saturation limit.
    pub open spec fn bounded(self) -> bool {
        forall|a: Action| #[trigger] self.spec_get(a) matches Some(v) ==>
            -VALUE_LIMIT_CENTI <= v <= VALUE_LIMIT_CENTI
    }

    /// A slot with no recorded values.
    pub fn empty() -> (r: ActionValues)
        ensures
            r == empty_slot(),
            forall|a: Action| #[trigger] r.spec_get(a) is None,
    {
        let r = ActionValues { x_pos: None, x_neg: None, y_pos: None, y_neg: None };
        proof {
            assert forall|a: Action| #[trigger] r.spec_get(a) is None by {
                match a {
                    Action::XPos => {},
                    Action::XNeg => {},
                    Action::YPos => {},
                    Action::YNeg => {},
                }
            }
        }
        r
    }

    /// Reads the recorded value of one action.
    pub fn get(&self, a: Action) -> (r: Option<i64>)
        ensures
            r == self.spec_get(a),
    {
        match a {
            Action::XPos => self.x_pos,
            Action::XNeg => self.x_neg,
            Action::YPos => self.y_pos,
            Action::YNeg => self.y_neg,
        }
    }

    /// Writes the recorded value of one action.
    pub fn set(&mut self, a: Action, v: i64)
        ensures
            *final(self) == old(self).spec_set(a, v),
    {
        match a {
            Action::XPos => {
                self.x_pos = Some(v);
            },
            Action::XNeg => {
                self.x_neg = Some(v);
            },
            Action::YPos => {
                self.y_pos = Some(v);
            },
            Action::YNeg => {
                self.y_neg = Some(v);
            },
        }
    }
}

/// The reconciliation of one slot: values recorded in `over` win, values
/// recorded only in `base` are preserved.
pub open spec fn av_merge(base: ActionValues, over: ActionValues) -> ActionValues {
    ActionValues {
        x_pos: if over.x_pos is Some { over.x_pos } else { base.x_pos },
        x_neg: if over.x_neg is Some { over.x_neg } else { base.x_neg },
        y_pos: if over.y_pos is Some { over.y_pos } else { base.y_pos },
        y_neg: if over.y_neg is Some { over.y_neg } else { base.y_neg },
    }
}

/// The pointwise reconciliation of a whole table map with a delta map:
/// slots of observations recorded in the delta are merged per action (the
/// delta's recorded values win), slots of observations only in the base
/// are kept, new observations are inserted whole.
pub open spec fn table_merge(
    t: Map<ObsKey, ActionValues>,
    d: Map<ObsKey, ActionValues>,
) -> Map<ObsKey, ActionValues> {
    Map::new(
        |k: ObsKey| t.contains_key(k) || d.contains_key(k),
        |k: ObsKey|
            if d.contains_key(k) {
                if t.contains_key(k) {
                    av_merge(t[k], d[k])
                } else {
                    d[k]
                }
            } else {
                t[k]
            },
    )
}

/// Merge non-destructiveness: merge-writing a delta map `d` over a table
/// map `t` keeps, for every observation/action pair recorded in `t` that
/// `d` does not record, `t`'s value unchanged; for every pair recorded in
/// `d` the merged table carries `d`'s value; and no other observation
/// appears.
pub proof fn lemma_merge_non_destructive(t: Map<ObsKey, ActionValues>, d: Map<ObsKey, ActionValues>)
    ensures
        forall|k: ObsKey|
            #[trigger] table_merge(t, d).contains_key(k) <==> (t.contains_key(k) || d.contains_key(
                k,
            )),
        forall|k: ObsKey, a: Action|
            d.contains_key(k) && (#[trigger] d[k].spec_get(a)) is Some ==> table_merge(t, d)[k].spec_get(a)
                == d[k].spec_get(a),
        forall|k: ObsKey, a: Action|
            t.contains_key(k) && (!d.contains_key(k) || (#[trigger] d[k].spec_get(a)) is None)
                ==> table_merge(t, d)[k].spec_get(a) == t[k].spec_get(a),
{
    assert forall|k: ObsKey, a: Action|
        t.contains_key(k) && (!d.contains_key(k) || (#[trigger] d[k].spec_get(a)) is None)
        implies table_merge(t, d)[k].spec_get(a) == t[k].spec_get(a) by {
        if d.contains_key(k) {
            match a {
                Action::XPos => {},
                Action::XNeg => {},
                Action::YPos => {},
                Action::YNeg => {},
            }
        }
    }
    assert forall|k: ObsKey, a: Action|
        d.contains_key(k) && (#[trigger] d[k].spec_get(a)) is Some implies table_merge(t, d)[k].spec_get(
        a,
    ) == d[k].spec_get(a) by {
        if t.contains_key(k) {
            match a {
                Action::XPos => {},
                Action::XNeg => {},
                Action::YPos => {},
                Action::YNeg => {},
            }
        }
    }
}

/// Merging two bounded slots yields a bounded slot.
proof fn lemma_av_merge_bounded(base: ActionValues, over: ActionValues)
    requires
        base.bounded(),
        over.bounded(),
    ensures
        av_merge(base, over).bounded(),
{
    assert forall|a: Action| #[trigger] av_merge(base, over).spec_get(a) matches Some(v) ==>
        -VALUE_LIMIT_CENTI <= v <= VALUE_LIMIT_CENTI by {
        assert(base.spec_get(a) == base.spec_get(a));
        assert(over.spec_get(a) == over.spec_get(a));
        match a {
            Action::XPos => {},
            Action::XNeg => {},
            Action::YPos => {},
            Action::YNeg => {},
        }
    }
}

/// Writing a bounded value into a bounded slot yields a bounded slot.
proof fn lemma_spec_set_bounded(av: ActionValues, a: Action, v: i64)
    requires
        av.bounded(),
        -VALUE_LIMIT_CENTI <= v <= VALUE_LIMIT_CENTI,
    ensures
        av.spec_set(a, v).bounded(),
{
    assert forall|b: Action| #[trigger] av.spec_set(a, v).spec_get(b) matches Some(w) ==>
        -VALUE_LIMIT_CENTI <= w <= VALUE_LIMIT_CENTI by {
        assert(av.spec_get(b) == av.spec_get(b));
        match a {
            Action::XPos => {
                match b {
                    Action::XPos => {},
                    Action::XNeg => {},
                    Action::YPos => {},
                    Action::YNeg => {},
                }
            },
            Action::XNeg => {
                match b {
                    Action::XPos => {},
                    Action::XNeg => {},
                    Action::YPos => {},
                    Action::YNeg => {},
                }
            },
            Action::YPos => {
                match b {
                    Action::XPos => {},
                    Action::XNeg => {},
                    Action::YPos => {},
                    Action::YNeg => {},
                }
            },
            Action::YNeg => {
                match b {
                    Action::XPos => {},
                    Action::XNeg => {},
                    Action::YPos => {},
                    Action::YNeg => {},
                }
            },
        }
    }
}

/// An empty slot is bounded.
proof fn lemma_empty_slot_bounded()
    ensures
        empty_slot().bounded(),
{
    assert forall|a: Action| #[trigger] empty_slot().spec_get(a) matches Some(v) ==>
        -VALUE_LIMIT_CENTI <= v <= VALUE_LIMIT_CENTI by {
        match a {
            Action::XPos => {},
            Action::XNeg => {},
            Action::YPos => {},
            Action::YNeg => {},
        }
    }
}

/// Every observation/action pair recorded in `t0` is still recorded in
/// `t1` (its value may have changed).
pub open spec fn table_pairs_preserved(
    t0: Map<ObsKey, ActionValues>,
    t1: Map<ObsKey, ActionValues>,
) -> bool {
    forall|k: ObsKey, a: Action|
        t0.contains_key(k) && (#[trigger] t0[k].spec_get(a)) is Some ==> t1.contains_key(k)
            && t1[k].spec_get(a) is Some
}

/// Every observation/action pair recorded in `d` is recorded in `t` with
/// exactly `d`'s value.
pub open spec fn table_pairs_match(
    d: Map<ObsKey, ActionValues>,
    t: Map<ObsKey, ActionValues>,
) -> bool {
    forall|k: ObsKey, a: Action|
        d.contains_key(k) && (#[trigger] d[k].spec_get(a)) is Some ==> t.contains_key(k)
            && t[k].spec_get(a) == d[k].spec_get(a)
}

/// Merging a delta preserves every recorded pair of the base table and
/// carries every pair of the delta with the delta's value.
pub proof fn lemma_table_merge_pairs(t: Map<ObsKey, ActionValues>, d: Map<ObsKey, ActionValues>)
    ensures
        table_pairs_preserved(t, table_merge(t, d)),
        table_pairs_match(d, table_merge(t, d)),
{
    lemma_merge_non_destructive(t, d);
    assert forall|k: ObsKey, a: Action|
        t.contains_key(k) && (#[trigger] t[k].spec_get(a)) is Some implies table_merge(t, d).contains_key(
        k,
    ) && table_merge(t, d)[k].spec_get(a) is Some by {
        if d.contains_key(k) && d[k].spec_get(a) is Some {
        } else {
            assert(table_merge(t, d)[k].spec_get(a) == t[k].spec_get(a));
        }
    }
}

/// Pair preservation is transitive.
pub proof fn lemma_table_pairs_preserved_trans(
    t0: Map<ObsKey, ActionValues>,
    t1: Map<ObsKey, ActionValues>,
    t2: Map<ObsKey, ActionValues>,
)
    requires
        table_pairs_preserved(t0, t1),
        table_pairs_preserved(t1, t2),
    ensures
        table_pairs_preserved(t0, t2),
{
    assert forall|k: ObsKey, a: Action|
        t0.contains_key(k) && (#[trigger] t0[k].spec_get(a)) is Some implies t2.contains_key(k)
        && t2[k].spec_get(a) is Some by {
        assert(t1.contains_key(k) && t1[k].spec_get(a) is Some);
    }
}

/// Writing one action's value leaves every recorded action recorded.
pub proof fn lemma_spec_set_preserves_recorded(av: ActionValues, a: Action, v: i64)
    ensures
        forall|b: Action|
            (#[trigger] av.spec_get(b)) is Some ==> av.spec_set(a, v).spec_get(b) is Some,
        av.spec_set(a, v).spec_get(a) == Some(v),
{
    assert forall|b: Action|
        (#[trigger] av.spec_get(b)) is Some implies av.spec_set(a, v).spec_get(b) is Some by {
        match a {
            Action::XPos => {
                match b {
                    Action::XPos => {},
                    Action::XNeg => {},
                    Action::YPos => {},
                    Action::YNeg => {},
                }
            },
            Action::XNeg => {
                match b {
                    Action::XPos => {},
                    Action::XNeg => {},
                    Action::YPos => {},
                    Action::YNeg => {},
                }
            },
            Action::YPos => {
                match b {
                    Action::XPos => {},
                    Action::XNeg => {},
                    Action::YPos => {},
                    Action::YNeg => {},
                }
            },
            Action::YNeg => {
                match b {
                    Action::XPos => {},
                    Action::XNeg => {},
                    Action::YPos => {},
                    Action::YNeg => {},
                }
            },
        }
    }
    match a {
        Action::XPos => {},
        Action::XNeg => {},
        Action::YPos => {},
        Action::YNeg => {},
    }
}

/// The recorded value of an action, defaulting to 0 when the slot or the
/// action has never been updated.
pub open spec fn q_of(slot: Option<ActionValues>, a: Action) -> i64 {
    match slot {
        None => 0,
        Some(av) => match av.spec_get(a) {
            None => 0,
            Some(v) => v,
        },
    }
}

/// The largest per-action value of a slot, absent entries counting as 0.
pub open spec fn max_q(slot: Option<ActionValues>) -> i64 {
    let a = q_of(slot, Action::XPos);
    let b = q_of(slot, Action::XNeg);
    let c = q_of(slot, Action::YPos);
    let d = q_of(slot, Action::YNeg);
    let ab = if a >= b { a } else { b };
    let cd = if c >= d { c } else { d };
    if ab >= cd { ab } else { cd }
}

/// Computes the largest per-action value of a slot, absent entries
/// counting as 0.
pub fn max_q_value(slot: &Option<ActionValues>) -> (r: i64)
    ensures
        r == max_q(*slot),
{
    let (a, b, c, d): (i64, i64, i64, i64) = match slot {
        None => (0, 0, 0, 0),
        Some(av) => (
            match av.x_pos {
                Some(v) => v,
                None => 0,
            },
            match av.x_neg {
                Some(v) => v,
                None => 0,
            },
            match av.y_pos {
                Some(v) => v,
                None => 0,
            },
            match av.y_neg {
                Some(v) => v,
                None => 0,
            },
        ),
    };
    let ab: i64 = if a >= b {
        a
    } else {
        b
    };
    let cd: i64 = if c >= d {
        c
    } else {
        d
    };
    if ab >= cd {
        ab
    } else {
        cd
    }
}

/// The fixed per-run learning parameters of the bootstrapped update, in
/// hundredths: `alpha_centi` is the learning rate (0..=100, i.e. 0.0..=1.0)
/// and `gamma_centi` the discount factor (0..=1000, i.e. 0.0..=10.0).
#[derive(Copy, Clone, Debug)]
pub struct QLearning {
    /// Learning rate in hundredths.
    pub alpha_centi: i64,
    /// Discount factor in hundredths.
    pub gamma_centi: i64,
}

/// The accepted parameter ranges of the update rule.
pub open spec fn learning_ok(l: QLearning) -> bool {
    &&& 0 <= l.alpha_centi <= 100
    &&& 0 <= l.gamma_centi <= 1000
}

impl QLearning {
    /// Builds the learning parameters; the rates are given in hundredths.
    pub fn new(alpha_centi: i64, gamma_centi: i64) -> (l: QLearning)
        requires
            0 <= alpha_centi <= 100,
            0 <= gamma_centi <= 1000,
        ensures
            l.alpha_centi == alpha_centi,
            l.gamma_centi == gamma_centi,
            learning_ok(l),
    {
        QLearning { alpha_centi, gamma_centi }
    }
}

/// Division by 100 truncated towards zero, as Rust's `/` rounds.
pub open spec fn tdiv100(x: int) -> int {
    if x >= 0 {
        x / 100
    } else {
        -((-x) / 100)
    }
}

/// Saturation of a value into the accepted range.
pub open spec fn clamp_value(x: int) -> int {
    if x > VALUE_LIMIT_CENTI {
        VALUE_LIMIT_CENTI as int
    } else if x < -VALUE_LIMIT_CENTI {
        -VALUE_LIMIT_CENTI as int
    } else {
        x
    }
}

/// The bootstrapped value update in centi-units: the new estimate of
/// `Q[s][a]` after observing reward `r` and a successor state whose best
/// value is `m`, namely `q + alpha * (r + gamma * m - q)` with the two rate
/// multiplications rounded towards zero and the result saturated.
pub open spec fn spec_q_update(q: int, r: int, m: int, alpha: int, gamma: int) -> int {
    clamp_value(q + tdiv100(alpha * (r + tdiv100(gamma * m) - q)))
}

/// Divides by 100, truncating towards zero.
fn div100(x: i64) -> (r: i64)
    requires
        -0x4000_0000_0000_0000 <= x <= 0x4000_0000_0000_0000,
    ensures
        r == tdiv100(x as int),
        x >= 0 ==> 0 <= r <= x,
        x < 0 ==> x <= r <= 0,
{
    if x >= 0 {
        let q: u64 = (x as u64) / 100;
        proof {
            vstd::arithmetic::div_mod::lemma_div_nonincreasing(x as int, 100);
        }
        q as i64
    } else {
        let q: u64 = ((-x) as u64) / 100;
        proof {
            vstd::arithmetic::div_mod::lemma_div_nonincreasing(-x as int, 100);
        }
        -(q as i64)
    }
}

/// Applies the bootstrapped value update to one estimate.
pub fn q_update(q: i64, r: i64, m: i64, learning: &QLearning) -> (nq: i64)
    requires
        -VALUE_LIMIT_CENTI <= q <= VALUE_LIMIT_CENTI,
        -VALUE_LIMIT_CENTI <= m <= VALUE_LIMIT_CENTI,
        -400 <= r <= 400,
        learning_ok(*learning),
    ensures
        nq == spec_q_update(
            q as int,
            r as int,
            m as int,
            learning.alpha_centi as int,
            learning.gamma_centi as int,
        ),
        -VALUE_LIMIT_CENTI <= nq <= VALUE_LIMIT_CENTI,
{
    proof {
        assert(-1000 * VALUE_LIMIT_CENTI <= learning.gamma_centi * m <= 1000
            * VALUE_LIMIT_CENTI) by (nonlinear_arith)
            requires
                0 <= learning.gamma_centi <= 1000,
                -VALUE_LIMIT_CENTI <= m <= VALUE_LIMIT_CENTI,
        ;
    }
    let gm: i64 = learning.gamma_centi * m;
    let gmd: i64 = div100(gm);
    let inner: i64 = r + gmd - q;
    proof {
        assert(-100 * 2_000_000_000_000_000 <= learning.alpha_centi * (inner as int)
            && learning.alpha_centi * (inner as int) <= 100 * 2_000_000_000_000_000)
            by (nonlinear_arith)
            requires
                0 <= learning.alpha_centi <= 100,
                -2_000_000_000_000_000 <= inner <= 2_000_000_000_000_000,
        ;
    }
    let scaled: i64 = learning.alpha_centi * inner;
    let delta: i64 = div100(scaled);
    let raw: i64 = q + delta;
    if raw > VALUE_LIMIT_CENTI {
        VALUE_LIMIT_CENTI
    } else if raw < -VALUE_LIMIT_CENTI {
        -VALUE_LIMIT_CENTI
    } else {
        raw
    }
}

/// A slot with no recorded values, as a specification constant.
pub open spec fn empty_slot() -> ActionValues {
    ActionValues { x_pos: None, x_neg: None, y_pos: None, y_neg: None }
}

/// The map described by a list of entries: later entries win (a table's
/// invariant rules duplicates out, making the description unambiguous).
pub open spec fn entries_map(s: Seq<(MyState, ActionValues)>) -> Map<ObsKey, ActionValues>
    decreases s.len(),
{
    if s.len() == 0 {
        Map::empty()
    } else {
        entries_map(s.drop_last()).insert(s.last().0.key_view(), s.last().1)
    }
}

/// Whether some entry among the first `n` carries the given key.
pub open spec fn seq_has_key(s: Seq<(MyState, ActionValues)>, n: int, k: ObsKey) -> bool {
    exists|j: int| 0 <= j < n && (#[trigger] s[j]).0.key_view() == k
}

/// No two entries of the list carry the same key.
pub open spec fn entries_dup_free(s: Seq<(MyState, ActionValues)>) -> bool {
    forall|i: int, j: int|
        0 <= i < j < s.len() ==> (#[trigger] s[i]).0.key_view() != (#[trigger] s[j]).0.key_view()
}

proof fn lemma_entries_map_push(s: Seq<(MyState, ActionValues)>, e: (MyState, ActionValues))
    ensures
        entries_map(s.push(e)) == entries_map(s).insert(e.0.key_view(), e.1),
{
    assert(s.push(e).drop_last() =~= s);
    assert(s.push(e).last() == e);
}

proof fn lemma_entries_map_contains(s: Seq<(MyState, ActionValues)>)
    ensures
        forall|k: ObsKey| #[trigger] entries_map(s).contains_key(k) <==> seq_has_key(s, s.len() as int, k),
    decreases s.len(),
{
    if s.len() > 0 {
        lemma_entries_map_contains(s.drop_last());
        assert forall|k: ObsKey| #[trigger] entries_map(s).contains_key(k) implies seq_has_key(
            s,
            s.len() as int,
            k,
        ) by {
            if k == s.last().0.key_view() {
                assert((#[trigger] s[s.len() - 1]).0.key_view() == k);
            } else {
                assert(entries_map(s.drop_last()).contains_key(k));
                let j = choose|j: int|
                    0 <= j < s.drop_last().len() && (#[trigger] s.drop_last()[j]).0.key_view() == k;
                assert((#[trigger] s[j]).0.key_view() == k);
            }
        }
        assert forall|k: ObsKey| seq_has_key(s, s.len() as int, k) implies #[trigger] entries_map(
            s,
        ).contains_key(k) by {
            let j = choose|j: int| 0 <= j < s.len() && (#[trigger] s[j]).0.key_view() == k;
            if j < s.len() - 1 {
                assert((#[trigger] s.drop_last()[j]).0.key_view() == k);
            }
        }
    }
}

proof fn lemma_entries_map_value(s: Seq<(MyState, ActionValues)>, i: int)
    requires
        entries_dup_free(s),
        0 <= i < s.len(),
    ensures
        entries_map(s).contains_key(s[i].0.key_view()),
        entries_map(s)[s[i].0.key_view()] == s[i].1,
    decreases s.len(),
{
    if i == s.len() - 1 {
    } else {
        lemma_entries_map_value(s.drop_last(), i);
        assert(s.drop_last()[i] == s[i]);
        assert(s[i].0.key_view() != s.last().0.key_view());
    }
}

proof fn lemma_entries_map_update(
    s: Seq<(MyState, ActionValues)>,
    i: int,
    e: (MyState, ActionValues),
)
    requires
        entries_dup_free(s),
        0 <= i < s.len(),
        e.0.key_view() == s[i].0.key_view(),
    ensures
        entries_map(s.update(i, e)) == entries_map(s).insert(e.0.key_view(), e.1),
        entries_dup_free(s.update(i, e)),
    decreases s.len(),
{
    let k = e.0.key_view();
    assert forall|a: int, b: int|
        0 <= a < b < s.update(i, e).len() implies (#[trigger] s.update(i, e)[a]).0.key_view()
        != (#[trigger] s.update(i, e)[b]).0.key_view() by {
        assert(s.update(i, e)[a] == if a == i { e } else { s[a] });
        assert(s.update(i, e)[b] == if b == i { e } else { s[b] });
    }
    if i == s.len() - 1 {
        assert(s.update(i, e).drop_last() =~= s.drop_last());
        assert(s.update(i, e).last() == e);
        assert(entries_map(s.update(i, e)) =~= entries_map(s).insert(k, e.1));
    } else {
        assert(s.update(i, e).drop_last() =~= s.drop_last().update(i, e));
        assert(s.update(i, e).last() == s.last());
        lemma_entries_map_update(s.drop_last(), i, e);
        assert(s.drop_last()[i] == s[i]);
        assert(s.last().0.key_view() != k);
        assert(entries_map(s.update(i, e)) == entries_map(s.drop_last()).insert(k, e.1).insert(
            s.last().0.key_view(),
            s.last().1,
        ));
        assert(entries_map(s.drop_last()).insert(k, e.1).insert(s.last().0.key_view(), s.last().1)
            =~= entries_map(s).insert(k, e.1));
    }
}

proof fn lemma_entries_map_congruent(s1: Seq<(MyState, ActionValues)>, s2: Seq<(MyState, ActionValues)>)
    requires
        s1.len() == s2.len(),
        forall|i: int|
            0 <= i < s1.len() ==> (#[trigger] s1[i]).0.key_view() == (#[trigger] s2[i]).0.key_view()
                && s1[i].1 == s2[i].1,
    ensures
        entries_map(s1) == entries_map(s2),
    decreases s1.len(),
{
    if s1.len() > 0 {
        lemma_entries_map_congruent(s1.drop_last(), s2.drop_last());
        assert(s1.last() == s1[s1.len() - 1]);
        assert(s2.last() == s2[s2.len() - 1]);
        assert(entries_map(s1) =~= entries_map(s2));
    }
}

/// One per-configuration action-value table.
pub struct Table {
    entries: Vec<(MyState, ActionValues)>,
}

/// Merges one slot into another: values recorded in `over` win.
pub fn av_merge_values(base: ActionValues, over: ActionValues) -> (r: ActionValues)
    ensures
        r == av_merge(base, over),
{
    ActionValues {
        x_pos: match over.x_pos {
            Some(v) => Some(v),
            None => base.x_pos,
        },
        x_neg: match over.x_neg {
            Some(v) => Some(v),
            None => base.x_neg,
        },
        y_pos: match over.y_pos {
            Some(v) => Some(v),
            None => base.y_pos,
        },
        y_neg: match over.y_neg {
            Some(v) => Some(v),
            None => base.y_neg,
        },
    }
}

impl Table {
    /// The table's entry list, one observation per entry.
    pub closed spec fn spec_entries(self) -> Seq<(MyState, ActionValues)> {
        self.entries@
    }

    /// The table as a mathematical map from observation keys to slots.
    pub open spec fn as_map(self) -> Map<ObsKey, ActionValues> {
        entries_map(self.spec_entries())
    }

    /// The table invariant: no key occurs twice.
    pub open spec fn wf(self) -> bool {
        entries_dup_free(self.spec_entries())
    }

    /// The slot stored for a key, if any.
    pub open spec fn spec_slot(self, k: ObsKey) -> Option<ActionValues> {
        if self.as_map().contains_key(k) {
            Some(self.as_map()[k])
        } else {
            None
        }
    }

    /// Every recorded value of every slot stays within the saturation
    /// limit.
    pub open spec fn bounded(self) -> bool {
        forall|k: ObsKey|
            #[trigger] self.as_map().contains_key(k) ==> self.as_map()[k].bounded()
    }

    /// An empty table.
    pub fn new() -> (t: Table)
        ensures
            t.wf(),
            t.bounded(),
            t.as_map() == Map::<ObsKey, ActionValues>::empty(),
            t.spec_entries().len() == 0,
    {
        Table { entries: Vec::new() }
    }

    /// How many observations the table records.
    pub fn len(&self) -> (n: usize)
        ensures
            n == self.spec_entries().len(),
    {
        self.entries.len()
    }

    /// The observation of one entry.
    pub fn entry_state(&self, i: usize) -> (r: &MyState)
        requires
            i < self.spec_entries().len(),
        ensures
            *r == self.spec_entries()[i as int].0,
    {
        &self.entries[i].0
    }

    /// The slot of one entry.
    pub fn entry_values(&self, i: usize) -> (r: ActionValues)
        requires
            i < self.spec_entries().len(),
        ensures
            r == self.spec_entries()[i as int].1,
    {
        self.entries[i].1
    }

    /// Builds a table from an entry list with pairwise distinct keys.
    pub(crate) fn from_entries(entries: Vec<(MyState, ActionValues)>) -> (t: Table)
        requires
            entries_dup_free(entries@),
        ensures
            t.spec_entries() == entries@,
            t.wf(),
    {
        Table { entries }
    }

    /// The index of the entry carrying this observation's key, if any.
    fn find_index(&self, s: &MyState) -> (r: Option<usize>)
        ensures
            match r {
                Some(i) => i < self.spec_entries().len() && self.spec_entries()[i as int].0.key_view()
                    == s.key_view(),
                None => forall|i: int|
                    0 <= i < self.spec_entries().len()
                        ==> (#[trigger] self.spec_entries()[i]).0.key_view() != s.key_view(),
            },
    {
        let mut i: usize = 0;
        while i < self.entries.len()
            invariant
                i <= self.entries@.len(),
                forall|j: int|
                    0 <= j < i ==> (#[trigger] self.entries@[j]).0.key_view() != s.key_view(),
            decreases self.entries@.len() - i,
        {
            if key_eq(&self.entries[i].0, s) {
                return Some(i);
            }
            i = i + 1;
        }
        None
    }

    /// The recorded slot for an observation, or `None` when the
    /// observation has never been seen.
    pub fn get_values(&self, s: &MyState) -> (r: Option<ActionValues>)
        requires
            self.wf(),
        ensures
            r == self.spec_slot(s.key_view()),
    {
        proof {
            lemma_entries_map_contains(self.spec_entries());
        }
        match self.find_index(s) {
            Some(i) => {
                proof {
                    lemma_entries_map_value(self.spec_entries(), i as int);
                }
                Some(self.entries[i].1)
            },
            None => {
                proof {
                    assert(!seq_has_key(
                        self.spec_entries(),
                        self.spec_entries().len() as int,
                        s.key_view(),
                    ));
                }
                None
            },
        }
    }

    /// The recorded value of one observation/action pair, or `None` when
    /// that pair has never been updated.
    pub fn get_value(&self, s: &MyState, a: Action) -> (r: Option<i64>)
        requires
            self.wf(),
        ensures
            r == match self.spec_slot(s.key_view()) {
                None => None::<i64>,
                Some(av) => av.spec_get(a),
            },
    {
        match self.get_values(s) {
            None => None,
            Some(av) => av.get(a),
        }
    }

    /// Records a value for one observation/action pair, creating the
    /// observation's slot when it is new.
    pub fn set_value(&mut self, s: &MyState, a: Action, v: i64)
        requires
            old(self).wf(),
        ensures
            final(self).wf(),
            final(self).as_map() == old(self).as_map().insert(
                s.key_view(),
                (match old(self).spec_slot(s.key_view()) {
                    Some(av) => av,
                    None => empty_slot(),
                }).spec_set(a, v),
            ),
            old(self).bounded() && -VALUE_LIMIT_CENTI <= v <= VALUE_LIMIT_CENTI
                ==> final(self).bounded(),
    {
        proof {
            if old(self).bounded() && -VALUE_LIMIT_CENTI <= v <= VALUE_LIMIT_CENTI {
                let base = match old(self).spec_slot(s.key_view()) {
                    Some(av) => av,
                    None => empty_slot(),
                };
                lemma_empty_slot_bounded();
                lemma_spec_set_bounded(base, a, v);
            }
        }
        proof {
            lemma_entries_map_contains(self.spec_entries());
        }
        match self.find_index(s) {
            Some(i) => {
                proof {
                    lemma_entries_map_value(self.spec_entries(), i as int);
                }
                let mut av: ActionValues = self.entries[i].1;
                av.set(a, v);
                let st = self.entries[i].0.clone();
                let ghost pre = self.spec_entries();
                self.entries.set(i, (st, av));
                proof {
                    lemma_entries_map_update(pre, i as int, self.spec_entries()[i as int]);
                }
            },
            None => {
                proof {
                    assert(!seq_has_key(
                        self.spec_entries(),
                        self.spec_entries().len() as int,
                        s.key_view(),
                    ));
                }
                let mut av = ActionValues::empty();
                av.set(a, v);
                let ghost pre = self.spec_entries();
                self.entries.push((s.clone(), av));
                proof {
                    lemma_entries_map_push(pre, self.spec_entries().last());
                    assert(av == empty_slot().spec_set(a, v));
                    assert forall|x: int, y: int|
                        0 <= x < y < self.spec_entries().len() implies (#[trigger] self
                        .spec_entries()[x]).0.key_view() != (#[trigger] self.spec_entries()[y]).0.key_view() by {
                        if y == self.spec_entries().len() - 1 {
                            assert(self.spec_entries()[x] == pre[x]);
                        }
                    }
                }
            },
        }
        proof {
            if old(self).bounded() && -VALUE_LIMIT_CENTI <= v <= VALUE_LIMIT_CENTI {
                assert forall|k: ObsKey| #[trigger] self.as_map().contains_key(k) implies self
                    .as_map()[k].bounded() by {
                    if k != s.key_view() {
                        assert(old(self).as_map().contains_key(k));
                    }
                }
            }
        }
    }

    /// Merge-writes a delta into this table.
    ///
    /// For every observation/action pair recorded in the delta, the merged
    /// table takes the delta's value; every pair recorded here but not in
    /// the delta keeps its value; nothing else appears.
    pub fn merge_from(&mut self, delta: &Table)
        requires
            old(self).wf(),
            delta.wf(),
        ensures
            final(self).wf(),
            final(self).as_map() == table_merge(old(self).as_map(), delta.as_map()),
            old(self).bounded() && delta.bounded() ==> final(self).bounded(),
    {
        proof {
            lemma_entries_map_contains(delta.spec_entries());
        }
        let ghost base = self.as_map();
        let d: &Vec<(MyState, ActionValues)> = &delta.entries;
        let mut idx: usize = 0;
        while idx < d.len()
            invariant
                self.wf(),
                delta.wf(),
                d == &delta.entries,
                idx <= d@.len(),
                forall|k: ObsKey|
                    #[trigger] self.as_map().contains_key(k) <==> (base.contains_key(k)
                        || seq_has_key(d@, idx as int, k)),
                forall|k: ObsKey|
                    #[trigger] base.contains_key(k) && !seq_has_key(d@, idx as int, k)
                        ==> self.as_map()[k] == base[k],
                forall|j: int|
                    0 <= j < idx ==> self.as_map()[(#[trigger] d@[j]).0.key_view()] == (
                    if base.contains_key(d@[j].0.key_view()) {
                        av_merge(base[d@[j].0.key_view()], d@[j].1)
                    } else {
                        d@[j].1
                    }),
            decreases d@.len() - idx,
        {
            let dstate: &MyState = &delta.entries[idx].0;
            let dav: ActionValues = delta.entries[idx].1;
            let ghost k_new = dstate.key_view();
            proof {
                // `k_new` cannot occur earlier in the delta: the delta is
                // duplicate-free.
                if seq_has_key(d@, idx as int, k_new) {
                    let j = choose|j: int| 0 <= j < idx && (#[trigger] d@[j]).0.key_view() == k_new;
                    assert(false);
                }
            }
            match self.find_index(dstate) {
                Some(i) => {
                    proof {
                        lemma_entries_map_contains(self.spec_entries());
                        lemma_entries_map_value(self.spec_entries(), i as int);
                        assert((self.spec_entries()[i as int]).0.key_view() == k_new);
                        assert(self.as_map().contains_key(k_new));
                        assert(base.contains_key(k_new));
                        assert(self.as_map()[k_new] == base[k_new]);
                    }
                    let cur: ActionValues = self.entries[i].1;
                    let merged: ActionValues = av_merge_values(cur, dav);
                    proof {
                        assert(cur == base[k_new]);
                    }
                    let st = self.entries[i].0.clone();
                    let ghost pre = self.spec_entries();
                    self.entries.set(i, (st, merged));
                    proof {
                        assert(st.key_view() == pre[i as int].0.key_view());
                        lemma_entries_map_update(pre, i as int, self.spec_entries()[i as int]);
                        assert(self.as_map() == entries_map(pre).insert(k_new, merged));
                        assert(self.as_map()[k_new] == av_merge(base[k_new], dav));
                    }
                },
                None => {
                    proof {
                        lemma_entries_map_contains(self.spec_entries());
                        assert(!seq_has_key(
                            self.spec_entries(),
                            self.spec_entries().len() as int,
                            k_new,
                        ));
                        assert(!self.as_map().contains_key(k_new));
                        assert(!base.contains_key(k_new));
                    }
                    let ghost pre = self.spec_entries();
                    self.entries.push((dstate.clone(), dav));
                    proof {
                        lemma_entries_map_push(pre, self.spec_entries().last());
                        assert(self.spec_entries().last().0.key_view() == k_new);
                        assert(self.as_map() == entries_map(pre).insert(k_new, dav));
                        assert(self.as_map()[k_new] == dav);
                        assert forall|x: int, y: int|
                            0 <= x < y < self.spec_entries().len() implies (#[trigger] self
                            .spec_entries()[x]).0.key_view() != (#[trigger] self.spec_entries()[y]).0.key_view() by {
                            if y == self.spec_entries().len() - 1 {
                                assert(self.spec_entries()[x] == pre[x]);
                            }
                        }
                    }
                },
            }
            proof {
                assert forall|k: ObsKey| #[trigger]
                    self.as_map().contains_key(k) implies (base.contains_key(k) || seq_has_key(
                    d@,
                    idx + 1,
                    k,
                )) by {
                    if k == k_new {
                        assert((#[trigger] d@[idx as int]).0.key_view() == k);
                    }
                }
                assert forall|k: ObsKey|
                    (base.contains_key(k) || seq_has_key(d@, idx + 1, k)) implies #[trigger] self
                    .as_map().contains_key(k) by {
                    if seq_has_key(d@, idx + 1, k) && !seq_has_key(d@, idx as int, k) {
                        let j = choose|j: int|
                            0 <= j < idx + 1 && (#[trigger] d@[j]).0.key_view() == k;
                        assert(j == idx);
                    }
                }
                assert forall|k: ObsKey|
                    #[trigger] base.contains_key(k) && !seq_has_key(d@, idx + 1, k)
                    implies self.as_map()[k] == base[k] by {
                    assert(!seq_has_key(d@, idx as int, k)) by {
                        if seq_has_key(d@, idx as int, k) {
                            let j = choose|j: int|
                                0 <= j < idx && (#[trigger] d@[j]).0.key_view() == k;
                            assert(0 <= j < idx + 1 && (#[trigger] d@[j]).0.key_view() == k);
                        }
                    }
                    assert(k != k_new) by {
                        assert((#[trigger] d@[idx as int]).0.key_view() == k_new);
                    }
                }
                assert forall|j: int| 0 <= j < idx + 1 implies self.as_map()[(#[trigger] d@[j]).0.key_view()]
                    == (if base.contains_key(d@[j].0.key_view()) {
                    av_merge(base[d@[j].0.key_view()], d@[j].1)
                } else {
                    d@[j].1
                }) by {
                    if j < idx {
                        assert(d@[j].0.key_view() != k_new);
                    } else {
                        assert(d@[j].0.key_view() == k_new);
                    }
                }
            }
            idx = idx + 1;
        }
        proof {
            lemma_entries_map_contains(d@);
            let dm = delta.as_map();
            let tm = table_merge(base, dm);
            assert forall|k: ObsKey| #[trigger] tm.contains_key(k) implies self.as_map().contains_key(
                k,
            ) && self.as_map()[k] == tm[k] by {
                if dm.contains_key(k) {
                    let j = choose|j: int| 0 <= j < d@.len() && (#[trigger] d@[j]).0.key_view() == k;
                    lemma_entries_map_value(d@, j);
                } else {
                    assert(!seq_has_key(d@, d@.len() as int, k));
                }
            }
            assert forall|k: ObsKey| #[trigger] self.as_map().contains_key(k) implies tm.contains_key(
                k,
            ) by {
                if seq_has_key(d@, idx as int, k) {
                    assert(dm.contains_key(k));
                }
            }
            assert(self.as_map() =~= tm);
            if old(self).bounded() && delta.bounded() {
                assert forall|k: ObsKey| #[trigger] self.as_map().contains_key(k) implies self
                    .as_map()[k].bounded() by {
                    if dm.contains_key(k) {
                        assert(delta.as_map().contains_key(k));
                        if base.contains_key(k) {
                            assert(old(self).as_map().contains_key(k));
                            lemma_av_merge_bounded(base[k], dm[k]);
                        }
                    } else {
                        assert(old(self).as_map().contains_key(k));
                    }
                }
            }
        }
    }
}

impl Clone for Table {
    /// Copies the table entry by entry.
    fn clone(&self) -> (r: Self)
        ensures
            r.as_map() == self.as_map(),
            r.wf() == self.wf(),
            r.spec_entries().len() == self.spec_entries().len(),
    {
        let mut entries: Vec<(MyState, ActionValues)> = Vec::new();
        let mut i: usize = 0;
        while i < self.entries.len()
            invariant
                i <= self.entries@.len(),
                entries@.len() == i,
                forall|j: int|
                    0 <= j < i ==> (#[trigger] entries@[j]).0.key_view()
                        == (#[trigger] self.entries@[j]).0.key_view() && entries@[j].1
                        == self.entries@[j].1,
            decreases self.entries@.len() - i,
        {
            let st = self.entries[i].0.clone();
            let av = self.entries[i].1;
            entries.push((st, av));
            i = i + 1;
        }
        let r = Table { entries };
        proof {
            lemma_entries_map_congruent(r.spec_entries(), self.spec_entries());
            assert(r.wf() == self.wf()) by {
                if self.wf() {
                    assert forall|x: int, y: int|
                        0 <= x < y < r.spec_entries().len() implies (#[trigger] r.spec_entries()[x]).0.key_view()
                        != (#[trigger] r.spec_entries()[y]).0.key_view() by {
                        assert(self.spec_entries()[x].0.key_view() != self.spec_entries()[y].0.key_view());
                    }
                }
                if r.wf() {
                    assert forall|x: int, y: int|
                        0 <= x < y < self.spec_entries().len() implies (#[trigger] self
                        .spec_entries()[x]).0.key_view() != (#[trigger] self.spec_entries()[y]).0.key_view() by {
                        assert(r.spec_entries()[x].0.key_view() != r.spec_entries()[y].0.key_view());
                    }
                }
            }
        }
        r
    }
}



/// A table's entry list always fits the machine's word range.
pub proof fn lemma_table_len_bound(t: Table)
    ensures
        t.spec_entries().len() < 0x1_0000_0000_0000_0000,
{
    assert(vstd::std_specs::vec::spec_vec_len(&t.entries) == t.entries@.len());
}


/// A well-formed table whose entry slots all stay within the saturation
/// limit is bounded as a map.
pub proof fn lemma_bounded_from_entries(t: Table)
    requires
        t.wf(),
        forall|i: int|
            0 <= i < t.spec_entries().len() ==> (#[trigger] t.spec_entries()[i]).1.bounded(),
    ensures
        t.bounded(),
{
    lemma_entries_map_contains(t.spec_entries());
    assert forall|k: ObsKey| #[trigger] t.as_map().contains_key(k) implies t.as_map()[k].bounded() by {
        let j = choose|j: int|
            0 <= j < t.spec_entries().len() && (#[trigger] t.spec_entries()[j]).0.key_view() == k;
        lemma_entries_map_value(t.spec_entries(), j);
    }
}

/// In a well-formed bounded table, every entry's slot stays within the
/// saturation limit.
pub proof fn lemma_bounded_to_entries(t: Table)
    requires
        t.wf(),
        t.bounded(),
    ensures
        forall|i: int|
            0 <= i < t.spec_entries().len() ==> (#[trigger] t.spec_entries()[i]).1.bounded(),
{
    assert forall|i: int|
        0 <= i < t.spec_entries().len() implies (#[trigger] t.spec_entries()[i]).1.bounded() by {
        let k = t.spec_entries()[i].0.key_view();
        lemma_entries_map_value(t.spec_entries(), i);
        assert(t.as_map().contains_key(k));
        assert(t.as_map()[k] == t.spec_entries()[i].1);
    }
}

} // verus!
