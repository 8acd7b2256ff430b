use snake_core::grid::Direction;
use snake_core::world::{GameStatus, World};

fn body_of(w: &World) -> Vec<usize> {
    w.snake_cell().iter().map(|c| c.0).collect()
}

fn assert_reward_off_body(w: &World) {
    if let Some(r) = w.reward_cell() {
        assert!(!body_of(w).contains(&r));
    }
}

#[test]
fn new_world_is_seeded_backward_and_unstarted() {
    let w = World::new(8, 35, 0);
    assert_eq!(w.width(), 8);
    assert_eq!(body_of(&w), vec![35, 34, 33]);
    assert_eq!(w.snake_head(), 35);
    assert_eq!(w.snake_length(), 3);
    assert_eq!(w.points(), 0);
    assert_eq!(w.game_status(), None);
    assert_eq!(w.game_status_text(), "No status");
    // Draw 0 picks the first free cell of the board.
    assert_eq!(w.reward_cell(), Some(0));
    assert_reward_off_body(&w);
}

#[test]
fn reward_draw_is_reduced_over_the_free_cells() {
    // Free cells of body [5, 4, 3] on a 4x4 board, ascending:
    // 0, 1, 2, 6, 7, 8, 9, 10, 11, 12, 13, 14, 15 — thirteen of them.
    let w = World::new(4, 5, 7);
    assert_eq!(w.reward_cell(), Some(10));
    let w = World::new(4, 5, 13);
    assert_eq!(w.reward_cell(), Some(0));
    assert_reward_off_body(&w);
}

#[test]
fn step_is_a_no_op_before_start() {
    let mut w = World::new(8, 35, 0);
    w.step(0);
    assert_eq!(body_of(&w), vec![35, 34, 33]);
    assert_eq!(w.game_status(), None);
}

#[test]
fn first_step_moves_down_and_shifts_the_body() {
    // Width 8, start 35, default direction Down: the first tick moves the
    // head to 35 + 8 = 43 and every segment to its predecessor's place.
    let mut w = World::new(8, 35, 0);
    w.start_game();
    assert_eq!(w.game_status(), Some(GameStatus::Played));
    assert_eq!(w.game_status_text(), "Playing");
    w.step(0);
    assert_eq!(w.snake_head(), 43);
    assert_eq!(body_of(&w), vec![43, 35, 34]);
    assert_eq!(w.snake_length(), 3);
    assert_eq!(w.points(), 0);
    assert_eq!(w.game_status(), Some(GameStatus::Played));
    assert_reward_off_body(&w);
}

#[test]
fn reversal_into_the_neck_is_rejected() {
    // Body [5, 4, 3] moving Right (after an accepted turn): requesting Left
    // would step onto body[1] = 4 and must change nothing; the earlier
    // look-ahead cell (6) is still the one the next tick consumes, and the
    // direction is still Right on the tick after that.
    let mut w = World::new(4, 5, 0);
    w.change_snake_direction(Direction::Right);
    w.change_snake_direction(Direction::Left);
    w.start_game();
    w.step(0);
    assert_eq!(w.snake_head(), 6);
    assert_eq!(body_of(&w), vec![6, 5, 4]);
    w.step(0);
    assert_eq!(w.snake_head(), 7);
    assert_eq!(body_of(&w), vec![7, 6, 5]);
}

#[test]
fn reversal_after_a_tick_is_rejected() {
    // After a tick that moved Down, the neck lies one move Up from the
    // head: requesting Up changes nothing.
    let mut w = World::new(4, 5, 0);
    w.start_game();
    w.step(0);
    assert_eq!(w.snake_head(), 9);
    w.change_snake_direction(Direction::Up);
    w.step(0);
    assert_eq!(w.snake_head(), 13);
    assert_eq!(body_of(&w), vec![13, 9, 5]);
}

#[test]
fn eating_the_reward_grows_scores_and_replaces_it() {
    // 2x2 board, body [3, 2, 1]: the only free cell is 0, so the reward
    // sits there. Move to 1, turn Left onto 0: the head eats the reward,
    // the body grows by a duplicate of its last segment, the score rises
    // by one, and the new reward lands on the one cell left free.
    let mut w = World::new(2, 3, 0);
    assert_eq!(w.reward_cell(), Some(0));
    w.start_game();
    w.step(0);
    assert_eq!(body_of(&w), vec![1, 3, 2]);
    w.change_snake_direction(Direction::Left);
    w.step(0);
    assert_eq!(body_of(&w), vec![0, 1, 3, 3]);
    assert_eq!(w.points(), 1);
    assert_eq!(w.reward_cell(), Some(2));
    assert_eq!(w.game_status(), Some(GameStatus::Played));
    assert_reward_off_body(&w);
}

#[test]
fn filling_the_board_wins_without_a_final_point() {
    // Continuing from the grown 2x2 snake [0, 1, 3, 3]: its length equals
    // the board size, and the head lands on the last free cell, now the
    // reward. The game is won, the reward withdrawn, and the score does
    // not rise for the final move.
    let mut w = World::new(2, 3, 0);
    w.start_game();
    w.step(0);
    w.change_snake_direction(Direction::Left);
    w.step(0);
    w.change_snake_direction(Direction::Down);
    w.step(0);
    assert_eq!(w.game_status(), Some(GameStatus::Won));
    assert_eq!(w.game_status_text(), "You have won!");
    assert_eq!(w.reward_cell(), None);
    assert_eq!(w.points(), 1);
    assert_eq!(body_of(&w), vec![2, 0, 1, 3, 3]);
}

#[test]
fn won_game_is_stable_under_further_ticks() {
    let mut w = World::new(2, 3, 0);
    w.start_game();
    w.step(0);
    w.change_snake_direction(Direction::Left);
    w.step(0);
    w.change_snake_direction(Direction::Down);
    w.step(0);
    let body = body_of(&w);
    for draw in 0..5 {
        w.step(draw);
        assert_eq!(w.game_status(), Some(GameStatus::Won));
        assert_eq!(body_of(&w), body);
        assert_eq!(w.reward_cell(), None);
        assert_eq!(w.points(), 1);
    }
}

#[test]
fn running_into_the_body_loses() {
    // 2x2 board, body [2, 1, 0], reward on 3. Moving Down wraps the head
    // to 0... after two ticks the head steps onto its own shifted body.
    let mut w = World::new(2, 2, 0);
    assert_eq!(w.reward_cell(), Some(3));
    w.start_game();
    w.step(0);
    assert_eq!(body_of(&w), vec![0, 2, 1]);
    w.step(0);
    assert_eq!(w.game_status(), Some(GameStatus::Lost));
    assert_eq!(w.game_status_text(), "You have lost!");
    assert_eq!(body_of(&w), vec![2, 0, 2]);
    assert_eq!(w.points(), 0);
}

#[test]
fn lost_game_is_stable_under_further_ticks() {
    let mut w = World::new(2, 2, 0);
    w.start_game();
    w.step(0);
    w.step(0);
    let body = body_of(&w);
    for draw in 0..5 {
        w.step(draw);
        assert_eq!(w.game_status(), Some(GameStatus::Lost));
        assert_eq!(body_of(&w), body);
        assert_eq!(w.reward_cell(), Some(3));
        assert_eq!(w.points(), 0);
    }
}

#[test]
fn collision_and_reward_on_one_tick_lose_and_still_grow() {
    // A restart keeps the standing reward, here cell 3, under the reseeded
    // body [3, 2, 1]. Two ticks later the head lands on 3, which is both a
    // shifted body segment and the reward: the game is lost, yet the score
    // and the growth of that tick still happen — both checks run in
    // sequence, unconditionally.
    let mut w = World::new(2, 2, 0);
    assert_eq!(w.reward_cell(), Some(3));
    w.restart_game(3);
    assert_eq!(w.game_status(), Some(GameStatus::Played));
    assert_eq!(body_of(&w), vec![3, 2, 1]);
    assert_eq!(w.points(), 0);
    w.step(0);
    assert_eq!(body_of(&w), vec![1, 3, 2]);
    w.step(0);
    assert_eq!(w.game_status(), Some(GameStatus::Lost));
    assert_eq!(w.points(), 1);
    assert_eq!(body_of(&w), vec![3, 1, 3, 3]);
    assert_eq!(w.reward_cell(), Some(0));
}

#[test]
fn start_game_does_not_revive_a_finished_game() {
    let mut w = World::new(2, 2, 0);
    w.start_game();
    w.step(0);
    w.step(0);
    assert_eq!(w.game_status(), Some(GameStatus::Lost));
    w.start_game();
    assert_eq!(w.game_status(), Some(GameStatus::Lost));
    // Only a restart re-enters play.
    w.restart_game(2);
    assert_eq!(w.game_status(), Some(GameStatus::Played));
    assert_eq!(body_of(&w), vec![2, 1, 0]);
    assert_eq!(w.points(), 0);
}

#[test]
fn body_length_never_decreases() {
    let mut w = World::new(4, 9, 0);
    w.start_game();
    let mut len = w.snake_length();
    let mut points = w.points();
    for draw in 0..40 {
        w.step(draw);
        let l = w.snake_length();
        let p = w.points();
        assert!(l >= len);
        assert!(l <= len + 1);
        if l == len {
            assert_eq!(p, points);
        } else {
            assert!(p == points + 1 || w.game_status() == Some(GameStatus::Won));
        }
        assert_reward_off_body(&w);
        len = l;
        points = p;
        if w.game_status() != Some(GameStatus::Played) {
            break;
        }
    }
}

#[test]
fn restart_keeps_the_pending_look_ahead_cell() {
    // A restart reseeds body, score and status but deliberately leaves the
    // look-ahead slot as it was: a turn accepted before the restart is
    // still consumed by the first tick after it.
    let mut w = World::new(4, 5, 0);
    w.change_snake_direction(Direction::Right);
    w.restart_game(9);
    assert_eq!(body_of(&w), vec![9, 8, 7]);
    assert_eq!(w.reward_cell(), Some(0));
    w.step(0);
    assert_eq!(w.snake_head(), 6);
    assert_eq!(body_of(&w), vec![6, 9, 8]);
}

#[test]
fn opposite_turn_is_accepted_when_the_neck_is_not_in_the_way() {
    // The no-reversal rule guards the neck cell, not the direction as
    // such: a freshly seeded snake lies to the side of its travel axis, so
    // turning against the default direction is a legal move.
    let mut w = World::new(8, 35, 0);
    w.change_snake_direction(Direction::Up);
    w.start_game();
    w.step(0);
    assert_eq!(w.snake_head(), 27);
    assert_eq!(body_of(&w), vec![27, 35, 34]);
}
