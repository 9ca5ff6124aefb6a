//! Tests for the action-value tables, the store's merge-write, and the
//! serialized round trip.

use snake_ai::Action;
use snake_ai::Fake;
use snake_ai::MapState;
use snake_ai::MyState;
use snake_ai::Store;
use snake_ai::Table;

fn state_a() -> MyState {
    let mut s = MyState::new(3);
    s.curr_apple = (1, -1);
    s.reward = Fake::Val(-1);
    s
}

fn state_b() -> MyState {
    let mut s = MyState::new(3);
    s.map[0][1] = MapState::Death;
    s.curr_apple = (0, 1);
    s.reward = Fake::Val(400);
    s
}

#[test]
fn table_records_and_returns_values() {
    let mut t = Table::new();
    let a = state_a();
    assert_eq!(t.get_value(&a, Action::XPos), None);
    t.set_value(&a, Action::XPos, 123);
    t.set_value(&a, Action::YNeg, -77);
    assert_eq!(t.get_value(&a, Action::XPos), Some(123));
    assert_eq!(t.get_value(&a, Action::YNeg), Some(-77));
    assert_eq!(t.get_value(&a, Action::YPos), None);
    assert_eq!(t.len(), 1);
    t.set_value(&a, Action::XPos, 5);
    assert_eq!(t.get_value(&a, Action::XPos), Some(5));
    assert_eq!(t.len(), 1);
    let b = state_b();
    t.set_value(&b, Action::XPos, 9);
    assert_eq!(t.len(), 2);
    assert_eq!(t.get_value(&a, Action::XPos), Some(5));
    assert_eq!(t.get_value(&b, Action::XPos), Some(9));
}

#[test]
fn merge_write_is_non_destructive() {
    // Base table for radius 3: state_a has values for +X and +Y.
    let mut store = Store::new();
    let mut base = Table::new();
    base.set_value(&state_a(), Action::XPos, 10);
    base.set_value(&state_a(), Action::YPos, 20);
    store.merge_write(3, &base);

    // The delta overwrites +Y for state_a and introduces state_b.
    let mut delta = Table::new();
    delta.set_value(&state_a(), Action::YPos, 99);
    delta.set_value(&state_b(), Action::XNeg, 7);
    store.merge_write(3, &delta);

    let t = store.read(3);
    // A pair present in the base but absent from the delta is preserved.
    assert_eq!(t.get_value(&state_a(), Action::XPos), Some(10));
    // A pair present in the delta takes the delta's value.
    assert_eq!(t.get_value(&state_a(), Action::YPos), Some(99));
    // A new observation is inserted whole.
    assert_eq!(t.get_value(&state_b(), Action::XNeg), Some(7));
    assert_eq!(t.get_value(&state_b(), Action::XPos), None);
    assert_eq!(t.len(), 2);
}

#[test]
fn merge_write_leaves_other_radii_alone() {
    let mut store = Store::new();
    let mut t3 = Table::new();
    t3.set_value(&state_a(), Action::XPos, 1);
    store.merge_write(3, &t3);
    let mut t5 = Table::new();
    t5.set_value(&state_a(), Action::XPos, 2);
    store.merge_write(5, &t5);
    assert_eq!(store.read(3).get_value(&state_a(), Action::XPos), Some(1));
    assert_eq!(store.read(5).get_value(&state_a(), Action::XPos), Some(2));
}

#[test]
fn read_returns_a_snapshot_copy() {
    let mut store = Store::new();
    let mut t = Table::new();
    t.set_value(&state_a(), Action::XPos, 42);
    store.merge_write(3, &t);
    let mut snapshot = store.read(3);
    snapshot.set_value(&state_a(), Action::XPos, 0);
    // Mutating the snapshot does not touch the store.
    assert_eq!(store.read(3).get_value(&state_a(), Action::XPos), Some(42));
}

#[test]
fn store_round_trips_through_bytes() {
    let mut store = Store::new();
    let mut t3 = Table::new();
    t3.set_value(&state_a(), Action::XPos, 10);
    t3.set_value(&state_a(), Action::YNeg, -400);
    t3.set_value(&state_b(), Action::XNeg, -1);
    store.merge_write(3, &t3);
    let mut t5 = Table::new();
    let mut big = MyState::new(5);
    big.curr_apple = (-1, 1);
    big.reward = Fake::Val(-400);
    big.map[4][4] = MapState::Death;
    t5.set_value(&big, Action::YPos, 123_456_789);
    store.merge_write(5, &t5);

    let bytes = store.to_bytes();
    let back = Store::from_bytes(&bytes).expect("an encoded store must decode");

    assert_eq!(back.len(), 2);
    let b3 = back.read(3);
    assert_eq!(b3.len(), 2);
    assert_eq!(b3.get_value(&state_a(), Action::XPos), Some(10));
    assert_eq!(b3.get_value(&state_a(), Action::YNeg), Some(-400));
    assert_eq!(b3.get_value(&state_a(), Action::YPos), None);
    assert_eq!(b3.get_value(&state_b(), Action::XNeg), Some(-1));
    let b5 = back.read(5);
    assert_eq!(b5.len(), 1);
    assert_eq!(b5.get_value(&big, Action::YPos), Some(123_456_789));
    assert_eq!(b5.get_value(&big, Action::XPos), None);
}

#[test]
fn empty_store_round_trips() {
    let store = Store::new();
    let bytes = store.to_bytes();
    let back = Store::from_bytes(&bytes).unwrap();
    assert_eq!(back.len(), 0);
}

#[test]
fn round_trip_preserves_observation_fields() {
    // The window cells, the apple direction and the reward tag all come
    // back bit for bit: a changed window or direction lands in a different
    // slot, so lookups by the original observation still hit.
    let mut store = Store::new();
    let mut t = Table::new();
    let mut s = MyState::new(3);
    s.map[2][0] = MapState::Death;
    s.curr_apple = (-1, -1);
    s.reward = Fake::Val(400);
    t.set_value(&s, Action::YNeg, 55);
    store.merge_write(7, &t);
    let back = Store::from_bytes(&store.to_bytes()).unwrap();
    assert_eq!(back.read(7).get_value(&s, Action::YNeg), Some(55));
    // The reward tag itself is restored, even though keys ignore it.
    let restored = back.read(7);
    assert!(matches!(restored.entry_state(0).reward, Fake::Val(400)));
    // A key differing in one cell misses.
    let mut other = s.clone();
    other.map[2][0] = MapState::Empty;
    assert_eq!(back.read(7).get_value(&other, Action::YNeg), None);
}

#[test]
fn from_bytes_rejects_malformed_input() {
    // A length that is not a multiple of eight.
    assert!(Store::from_bytes(&vec![1, 2, 3]).is_none());
    // A count word promising tables that are not there.
    let bogus: Vec<u8> = vec![2, 0, 0, 0, 0, 0, 0, 0];
    assert!(Store::from_bytes(&bogus).is_none());
    // Trailing garbage after a well-formed empty store.
    let mut bytes = Store::new().to_bytes();
    for _ in 0..8 {
        bytes.push(0);
    }
    assert!(Store::from_bytes(&bytes).is_none());
}
