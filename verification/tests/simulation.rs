//! Scenario tests for the simulation engine and the state encoder.

use snake_ai::Action;
use snake_ai::Arena;
use snake_ai::ArenaError;
use snake_ai::Fake;
use snake_ai::MapState;
use snake_ai::MyState;
use snake_ai::observe;

fn snake_contains(a: &Arena, p: (i32, i32)) -> bool {
    a.snake.iter().any(|s| *s == p)
}

fn head(a: &Arena) -> (i32, i32) {
    *a.snake.last().unwrap()
}

fn assert_apple_valid(a: &Arena) {
    let (ax, ay, spawned) = a.apple_pos;
    assert!(spawned);
    assert!(0 <= ax && ax < a.arena_size.0);
    assert!(0 <= ay && ay < a.arena_size.1);
    assert!(!snake_contains(a, (ax, ay)));
}

#[test]
fn new_arena_has_centered_snake_and_valid_apple() {
    let a = Arena::new((16, 16), 3);
    assert_eq!(a.snake, vec![(8, 6), (8, 7), (8, 8)]);
    assert_eq!(a.arena_size, (16, 16));
    assert_eq!(a.reward_for_last_action, 0);
    assert_apple_valid(&a);
}

#[test]
fn apple_never_spawns_on_snake() {
    for _ in 0..200 {
        let a = Arena::new((5, 6), 3);
        assert_apple_valid(&a);
    }
}

#[test]
fn three_steps_up_cost_three_step_rewards() {
    // radius 3, 16x16 arena, snake {(8,6),(8,7),(8,8)}, actions [+Y,+Y,+Y]
    // with the apple never in the path: three rewards of -0.01, head at
    // (8,11), length still 3.
    for _ in 0..1000 {
        let mut a = Arena::new((16, 16), 3);
        let path = [(8, 9), (8, 10), (8, 11)];
        let (ax, ay, _) = a.apple_pos;
        if path.iter().any(|p| *p == (ax, ay)) {
            continue;
        }
        for _ in 0..3 {
            let out = a.tick(Action::YPos).unwrap();
            assert!(!out.died);
            assert_eq!(out.reward_centi, -1);
        }
        assert_eq!(head(&a), (8, 11));
        assert_eq!(a.snake.len(), 3);
        return;
    }
    panic!("the apple kept spawning in the path");
}

#[test]
fn wall_hit_dies_and_resets() {
    // Drive the head to x = 0, then move -X into the wall: reward -4.0,
    // snake reset to the initial three segments, apple respawned off the
    // snake.
    let mut a = Arena::new((16, 16), 3);
    for _ in 0..8 {
        let out = a.tick(Action::XNeg).unwrap();
        assert!(!out.died);
    }
    assert_eq!(head(&a).0, 0);
    let out = a.tick(Action::XNeg).unwrap();
    assert!(out.died);
    assert_eq!(out.reward_centi, -400);
    assert_eq!(a.reward_for_last_action, -400);
    assert_eq!(a.snake, vec![(8, 6), (8, 7), (8, 8)]);
    assert_apple_valid(&a);
}

#[test]
fn self_collision_dies() {
    // Turn the head back onto the body: +X then -X lands on the segment
    // just vacated... the head moves onto its own neck.
    let mut a = Arena::new((16, 16), 3);
    // Head (8,8), body below. Move +X to (9,8), then -X back onto (8,8),
    // which is still occupied by the body.
    let _ = a.tick(Action::XPos).unwrap();
    let out2 = a.tick(Action::XNeg).unwrap();
    // Whether or not the first move ate an apple, the square (8,8) is
    // still occupied by the body, so the snake dies.
    assert!(out2.died);
    assert_eq!(out2.reward_centi, -400);
    assert_eq!(a.snake.len(), 3);
}

#[test]
fn eating_the_apple_grows_the_snake() {
    // Navigate to the apple; the consuming tick rewards +4.0, the length
    // grows by one, and the apple respawns off the (now longer) snake.
    let mut a = Arena::new((16, 16), 3);
    let len0 = a.snake.len();
    for _ in 0..1000 {
        let h = head(&a);
        let (ax, ay, spawned) = a.apple_pos;
        assert!(spawned);
        let action = if ax > h.0 {
            Action::XPos
        } else if ax < h.0 {
            Action::XNeg
        } else if ay > h.1 {
            Action::YPos
        } else {
            Action::YNeg
        };
        let target = match action {
            Action::XPos => (h.0 + 1, h.1),
            Action::XNeg => (h.0 - 1, h.1),
            Action::YPos => (h.0, h.1 + 1),
            Action::YNeg => (h.0, h.1 - 1),
        };
        let action = if snake_contains(&a, target) {
            // Sidestep along x instead of stepping onto the body.
            if h.0 + 1 < a.arena_size.0 && !snake_contains(&a, (h.0 + 1, h.1)) {
                Action::XPos
            } else {
                Action::XNeg
            }
        } else {
            action
        };
        let out = a.tick(action).unwrap();
        assert!(!out.died, "died while navigating to the apple");
        if out.reward_centi == 400 {
            assert_eq!(a.snake.len(), len0 + 1);
            assert_apple_valid(&a);
            return;
        }
    }
    panic!("never reached the apple");
}

#[test]
fn filling_the_arena_exhausts_apple_placement() {
    // In a 1x4 arena the initial snake fills three cells and the apple the
    // fourth; eating it leaves no free cell.
    let mut a = Arena::new((1, 4), 3);
    assert_eq!(a.snake, vec![(0, 0), (0, 1), (0, 2)]);
    assert_eq!(a.apple_pos, (0, 3, true));
    let r = a.tick(Action::YPos);
    assert_eq!(r, Err(ArenaError::ArenaExhausted));
}

#[test]
fn observation_window_tags_walls_body_and_empty_cells() {
    let snake = vec![(0, 0)];
    let st = observe(&snake, (2, 0), (4, 4), 3, -1);
    // Window cell (i, j) maps to arena position (i - 1, j - 1).
    assert_eq!(st.map.len(), 3);
    for row in &st.map {
        assert_eq!(row.len(), 3);
    }
    // Out-of-bounds cells are deadly.
    assert_eq!(st.map[0][0], MapState::Death);
    assert_eq!(st.map[0][2], MapState::Death);
    assert_eq!(st.map[2][0], MapState::Death);
    // The head's own cell is occupied by the snake.
    assert_eq!(st.map[1][1], MapState::Death);
    // Free in-bounds cells are empty.
    assert_eq!(st.map[2][1], MapState::Empty);
    assert_eq!(st.map[2][2], MapState::Empty);
    assert_eq!(st.map[1][2], MapState::Empty);
    // Apple direction: sign of the displacement from head to apple.
    assert_eq!(st.curr_apple, (1, 0));
    // The reward rides along.
    assert!(matches!(st.reward, Fake::Val(-1)));
}

#[test]
fn observation_direction_is_signed_per_axis() {
    let snake = vec![(5, 5)];
    let st = observe(&snake, (2, 9), (16, 16), 3, 0);
    assert_eq!(st.curr_apple, (-1, 1));
    let st2 = observe(&snake, (5, 5), (16, 16), 3, 0);
    assert_eq!(st2.curr_apple, (0, 0));
}

#[test]
fn tick_updates_the_observation() {
    let mut a = Arena::new((16, 16), 5);
    let _ = a.tick(Action::YPos).unwrap();
    let st = a.current_state();
    assert_eq!(st.map.len(), 5);
    for row in &st.map {
        assert_eq!(row.len(), 5);
    }
    // The center cell holds the head, a deadly cell.
    assert_eq!(st.map[2][2], MapState::Death);
}

#[test]
fn state_equality_ignores_the_reward_tag() {
    let mut a = MyState::new(3);
    let mut b = MyState::new(3);
    a.reward = Fake::Val(-400);
    b.reward = Fake::Val(400);
    assert!(a == b);
    b.curr_apple = (1, 0);
    assert!(a != b);
    let mut c = MyState::new(3);
    c.map[0][0] = MapState::Death;
    assert!(a != c);
}

#[test]
fn fresh_observation_is_all_empty() {
    let st = MyState::new(5);
    assert_eq!(st.map.len(), 5);
    for row in &st.map {
        assert_eq!(row.len(), 5);
        for cell in row {
            assert_eq!(*cell, MapState::Empty);
        }
    }
    assert_eq!(st.curr_apple, (0, 0));
    assert!(matches!(st.reward, Fake::Val(0)));
}

#[test]
fn reset_restores_the_initial_configuration() {
    let mut a = Arena::new((16, 16), 3);
    let _ = a.tick(Action::XPos).unwrap();
    let _ = a.tick(Action::YPos).unwrap();
    a.reset();
    assert_eq!(a.snake, vec![(8, 6), (8, 7), (8, 8)]);
    assert_apple_valid(&a);
}
