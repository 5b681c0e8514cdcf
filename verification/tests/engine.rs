use minofall::consts::{I_BLOCK, O_BLOCK, T_BLOCK};
use minofall::game::{Effect, Game, GameState};
use minofall::minos::Mino;
use minofall::timer::TimerSignal;

/// A playing session with an empty board and a known active piece.
fn playing_with(piece: u8, x: i16, y: i16) -> Game {
    let mut g = Game::new(0);
    g.start_game();
    g.current_mino = Mino::of_type(piece);
    g.current_mino_position = (x, y);
    g.take_effects();
    g
}

fn fill_row(g: &mut Game, row: usize) {
    for c in 0..10 {
        g.board_state[row][c] = 1;
    }
}

fn count_nonempty(g: &Game) -> usize {
    g.board_state
        .iter()
        .map(|r| r.iter().filter(|&&c| c != 0).count())
        .sum()
}

#[test]
fn construction_starts_on_the_start_screen() {
    let mut g = Game::new(777);
    assert_eq!(g.game_state, GameState::StartScreen);
    assert_eq!(g.top_score, 777);
    assert_eq!(g.current_score, 0);
    assert_eq!(g.current_level, 0);
    assert_eq!(g.line_count, 0);
    assert_eq!(g.board_state.len(), 20);
    assert!(g.board_state.iter().all(|r| r.len() == 10 && r.iter().all(|&c| c == 0)));
    assert_eq!(g.current_bag.len(), 5);
    assert_eq!(g.statistics.iter().sum::<u16>(), 1);
    assert_eq!(g.statistics[(g.current_mino.selected_mino - 1) as usize], 1);
    assert_eq!(g.take_effects(), vec![Effect::Signal(TimerSignal::Pause)]);
}

#[test]
fn commands_are_ignored_outside_play() {
    let mut g = Game::new(0);
    let x = g.current_mino_position;
    g.move_left();
    g.move_right();
    g.move_down();
    g.rotate_left();
    g.rotate_right();
    g.slam();
    assert_eq!(g.current_mino_position, x);
    assert_eq!(g.game_state, GameState::StartScreen);
    g.toggle_paused();
    assert_eq!(g.game_state, GameState::StartScreen);
}

#[test]
fn start_game_unpauses_the_timer() {
    let mut g = Game::new(0);
    g.take_effects();
    g.start_game();
    assert_eq!(g.game_state, GameState::Playing);
    assert_eq!(g.take_effects(), vec![Effect::Signal(TimerSignal::Unpause)]);
}

#[test]
fn pause_toggles_between_playing_and_paused() {
    let mut g = Game::new(0);
    g.start_game();
    g.take_effects();
    g.toggle_paused();
    assert_eq!(g.game_state, GameState::Paused);
    assert_eq!(g.take_effects(), vec![Effect::Signal(TimerSignal::Pause)]);
    let pos = g.current_mino_position;
    g.move_left();
    assert_eq!(g.current_mino_position, pos);
    g.toggle_paused();
    assert_eq!(g.game_state, GameState::Playing);
    assert_eq!(g.take_effects(), vec![Effect::Signal(TimerSignal::Unpause)]);
}

#[test]
fn horizontal_moves_respect_the_walls() {
    let mut g = playing_with(O_BLOCK, 8, 1);
    g.move_left();
    assert_eq!(g.current_mino_position, (6, 1));
    g.move_right();
    g.move_right();
    assert_eq!(g.current_mino_position, (10, 1));
    // The O piece spans display columns x..x+3; the right wall is at 19.
    for _ in 0..10 {
        g.move_right();
    }
    assert_eq!(g.current_mino_position, (16, 1));
    for _ in 0..10 {
        g.move_left();
    }
    assert_eq!(g.current_mino_position, (0, 1));
}

#[test]
fn collision_on_an_empty_board_is_walls_and_floor_only() {
    let g = playing_with(O_BLOCK, 0, 1);
    let rot = g.current_mino.get_rotation().clone();
    assert!(!g.collision((0, 0), &rot));
    assert!(g.collision((-2, 0), &rot), "outside the left wall");
    assert!(!g.collision((16, 0), &rot));
    assert!(g.collision((18, 0), &rot), "outside the right wall");
    assert!(!g.collision((0, 18), &rot));
    assert!(g.collision((0, 19), &rot), "below the floor");
}

#[test]
fn placed_cells_block_later_collision_checks() {
    let mut g = playing_with(O_BLOCK, 8, 19);
    g.move_down();
    // The piece landed: its footprint is now part of the stack.
    assert_eq!(g.board_state[18][4], O_BLOCK);
    let probe = Mino::of_type(O_BLOCK);
    let rot = probe.get_rotation().clone();
    g.current_mino = probe;
    g.current_mino_position = (8, 19);
    assert!(g.collision((0, 0), &rot));
}

#[test]
fn gravity_lands_the_o_piece_on_the_floor() {
    let mut g = playing_with(O_BLOCK, 8, 1);
    assert_eq!(g.current_mino_position, Mino::of_type(O_BLOCK).start_offset);
    for _ in 0..18 {
        g.move_down();
    }
    assert_eq!(g.current_mino_position, (8, 19));
    assert_eq!(count_nonempty(&g), 0);
    g.move_down();
    assert_eq!(g.board_state[18][4], O_BLOCK);
    assert_eq!(g.board_state[18][5], O_BLOCK);
    assert_eq!(g.board_state[19][4], O_BLOCK);
    assert_eq!(g.board_state[19][5], O_BLOCK);
    assert_eq!(count_nonempty(&g), 4);
    assert_eq!(g.game_state, GameState::Playing);
    assert_eq!(g.current_mino_position, g.current_mino.start_offset);
    let drawn = g.statistics.iter().sum::<u16>();
    assert_eq!(drawn, 2, "a new current piece was drawn from the bag");
}

#[test]
fn update_applies_one_gravity_move_per_buffered_tick() {
    let mut g = playing_with(T_BLOCK, 8, 0);
    g.update(3);
    assert_eq!(g.current_mino_position, (8, 3));
    g.update(0);
    assert_eq!(g.current_mino_position, (8, 3));
}

#[test]
fn update_recomputes_the_ghost_offset() {
    let mut g = playing_with(O_BLOCK, 8, 1);
    g.update(0);
    // From row 1 the O piece can fall 18 rows before resting on the floor.
    assert_eq!(g.slam_offset, (0, 18));
    fill_row(&mut g, 19);
    g.board_state[19][4] = 0;
    g.board_state[19][5] = 0;
    g.update(0);
    assert_eq!(g.slam_offset, (0, 18));
    g.board_state[19][4] = 1;
    g.board_state[19][5] = 1;
    g.board_state[19][9] = 0;
    g.update(0);
    assert_eq!(g.slam_offset, (0, 17), "the stack shortens the drop by one row");
}

#[test]
fn slam_drops_and_places_immediately() {
    let mut g = playing_with(O_BLOCK, 8, 1);
    g.update(0);
    g.slam();
    assert_eq!(g.board_state[18][4], O_BLOCK);
    assert_eq!(g.board_state[19][4], O_BLOCK);
    assert_eq!(g.current_mino_position, g.current_mino.start_offset);
}

#[test]
fn rotation_is_rejected_against_the_wall() {
    // A vertical I piece on the left wall has no room to lie down.
    let mut g = playing_with(I_BLOCK, 6, 1);
    g.rotate_right();
    assert_eq!(g.current_mino.current_rotation, 1);
    while g.current_mino_position.0 > -4 {
        let before = g.current_mino_position.0;
        g.move_left();
        if g.current_mino_position.0 == before {
            break;
        }
    }
    assert_eq!(g.current_mino_position.0, -4, "column 2 of the box sits on the wall");
    g.rotate_right();
    assert_eq!(g.current_mino.current_rotation, 1, "rotation would cross the wall");
    g.move_right();
    g.move_right();
    g.rotate_right();
    assert_eq!(g.current_mino.current_rotation, 0);
}

#[test]
fn a_full_row_is_detected_flagged_and_scored() {
    let mut g = playing_with(O_BLOCK, 8, 1);
    fill_row(&mut g, 19);
    g.update(0);
    assert_eq!(g.line_count, 1);
    assert_eq!(g.rows_cleared, vec![19]);
    assert_eq!(g.current_score, 40);
    assert!(g.board_state[19].iter().all(|&c| c == 0), "the row is blanked in place");
    g.take_effects();
    g.update(0);
    assert_eq!(g.rows_cleared, Vec::<usize>::new());
    assert_eq!(g.line_count, 1);
    assert_eq!(g.current_score, 40);
    let effects = g.take_effects();
    assert_eq!(
        effects,
        vec![
            Effect::Signal(TimerSignal::Pause),
            Effect::Sleep(400),
            Effect::Signal(TimerSignal::Unpause),
        ]
    );
}

#[test]
fn no_full_row_means_no_clear_and_no_score() {
    let mut g = playing_with(O_BLOCK, 8, 1);
    g.board_state[19][0] = 1;
    g.update(0);
    assert_eq!(g.line_count, 0);
    assert_eq!(g.current_score, 0);
    assert_eq!(g.rows_cleared, Vec::<usize>::new());
}

#[test]
fn twenty_full_rows_are_all_reported() {
    let mut g = playing_with(O_BLOCK, 8, 1);
    for r in 0..20 {
        fill_row(&mut g, r);
    }
    g.update(0);
    assert_eq!(g.line_count, 20);
    assert_eq!(g.rows_cleared.len(), 20);
    // The score table is bounded by piece geometry at four rows.
    assert_eq!(g.current_score, 1200);
}

#[test]
fn cleared_rows_shift_the_stack_down() {
    let mut g = playing_with(O_BLOCK, 8, 1);
    g.board_state[18][3] = 5;
    fill_row(&mut g, 19);
    g.update(0);
    g.update(0);
    assert_eq!(g.board_state[19][3], 5, "the survivor row dropped to the bottom");
    assert_eq!(count_nonempty(&g), 1);
}

#[test]
fn score_deltas_follow_the_base_table_and_level_multiplier() {
    for (rows, at_level_0, at_level_1) in
        [(1, 40u32, 80u32), (2, 100, 200), (3, 300, 600), (4, 1200, 2400)]
    {
        let mut g = playing_with(O_BLOCK, 8, 1);
        for r in (20 - rows)..20 {
            fill_row(&mut g, r);
        }
        g.update(0);
        assert_eq!(g.current_score, at_level_0);

        let mut g = playing_with(O_BLOCK, 8, 1);
        g.current_level = 1;
        g.line_count = 10;
        for r in (20 - rows)..20 {
            fill_row(&mut g, r);
        }
        g.update(0);
        assert_eq!(g.current_score, at_level_1);
    }
}

#[test]
fn level_rises_by_one_when_lines_cross_a_multiple_of_ten() {
    let mut g = playing_with(O_BLOCK, 8, 1);
    g.line_count = 9;
    fill_row(&mut g, 19);
    g.take_effects();
    g.update(0);
    assert_eq!(g.line_count, 10);
    assert_eq!(g.current_level, 1);
    assert!(g.take_effects().contains(&Effect::Signal(TimerSignal::Increase)));
}

#[test]
fn level_never_rises_by_more_than_one_per_pass() {
    let mut g = playing_with(O_BLOCK, 8, 1);
    g.line_count = 19;
    g.current_level = 1;
    fill_row(&mut g, 18);
    fill_row(&mut g, 19);
    g.update(0);
    assert_eq!(g.line_count, 21);
    assert_eq!(g.current_level, 2, "one level per pass, even across two thresholds");
}

#[test]
fn filling_the_last_gap_scores_forty_times_level_plus_one() {
    let mut g = playing_with(O_BLOCK, 0, 1);
    for c in 2..10 {
        g.board_state[19][c] = 1;
    }
    g.board_state[18][2] = 1;
    for _ in 0..30 {
        g.move_down();
        if count_nonempty(&g) > 9 {
            break;
        }
    }
    assert_eq!(g.board_state[19][0], O_BLOCK);
    assert_eq!(g.board_state[19][1], O_BLOCK);
    g.update(0);
    assert_eq!(g.line_count, 1);
    assert_eq!(g.rows_cleared, vec![19]);
    assert_eq!(g.current_score, 40);
}

#[test]
fn spawn_collision_ends_the_game_and_clears_the_board() {
    let mut g = playing_with(O_BLOCK, 8, 1);
    for r in 2..20 {
        fill_row(&mut g, r);
    }
    g.current_score = 500;
    g.line_count = 3;
    g.current_level = 0;
    g.take_effects();
    g.move_down();
    assert_eq!(g.game_state, GameState::GameOver);
    assert_eq!(count_nonempty(&g), 0, "the board resets at game over");
    assert_eq!(g.current_score, 500, "counters reset only on the next new game");
    assert_eq!(g.line_count, 3);
    let effects = g.take_effects();
    assert_eq!(
        effects,
        vec![
            Effect::Signal(TimerSignal::Reset),
            Effect::Signal(TimerSignal::Pause),
            Effect::SaveScore(500),
        ]
    );
    g.new_game();
    assert_eq!(g.game_state, GameState::Playing);
    assert_eq!(g.current_score, 0);
    assert_eq!(g.line_count, 0);
    assert_eq!(g.current_level, 0);
    assert_eq!(g.top_score, 500, "the beaten top score carries over");
    assert!(g.statistics.iter().all(|&s| s == 0));
}

#[test]
fn the_bag_refills_when_exhausted() {
    let mut g = playing_with(O_BLOCK, 8, 19);
    g.current_bag.clear();
    g.move_down();
    assert_eq!(g.current_bag.len(), 6, "a fresh 7-bag was drawn from once");
    let mut types: Vec<u8> = g.current_bag.iter().map(|m| m.selected_mino).collect();
    types.push(g.next_mino.selected_mino);
    types.sort();
    assert_eq!(types, vec![1, 2, 3, 4, 5, 6, 7]);
}

#[test]
fn pending_clears_resolve_even_while_paused() {
    let mut g = playing_with(O_BLOCK, 8, 1);
    fill_row(&mut g, 19);
    g.update(0);
    g.toggle_paused();
    g.take_effects();
    g.update(0);
    assert_eq!(g.rows_cleared, Vec::<usize>::new());
    let effects = g.take_effects();
    assert_eq!(effects[0], Effect::Signal(TimerSignal::Pause));
    assert!(matches!(effects[1], Effect::Sleep(_)));
    assert_eq!(effects[2], Effect::Signal(TimerSignal::Unpause));
}
