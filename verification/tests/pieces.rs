use minofall::consts::{
    GAME_BOARD_HEIGHT, GAME_BOARD_WIDTH, I_BLOCK, J_BLOCK, L_BLOCK, O_BLOCK, ROT_LEFT, ROT_RIGHT,
    S_BLOCK, T_BLOCK, Z_BLOCK,
};
use minofall::layout::calc_tile_size;
use minofall::minos::Mino;
use minofall::score::{format_score, parse_score};
use minofall::timer::{get_drop_time_duration, timer_transition, Timer, TimerMode, TimerSignal};

#[test]
fn board_dimensions() {
    assert_eq!(GAME_BOARD_WIDTH, 10);
    assert_eq!(GAME_BOARD_HEIGHT, 20);
}

#[test]
fn catalog_rotation_counts() {
    let expected: [(u8, usize, usize); 7] = [
        (J_BLOCK, 4, 3),
        (Z_BLOCK, 2, 3),
        (O_BLOCK, 1, 2),
        (S_BLOCK, 2, 3),
        (T_BLOCK, 4, 3),
        (L_BLOCK, 4, 3),
        (I_BLOCK, 2, 4),
    ];
    for (t, n_rots, size) in expected {
        let m = Mino::of_type(t);
        assert_eq!(m.selected_mino, t);
        assert_eq!(m.current_rotation, 0);
        assert_eq!(m.rotations.len(), n_rots);
        for rot in &m.rotations {
            assert_eq!(rot.len(), size);
            for row in rot {
                assert_eq!(row.len(), size);
            }
        }
    }
}

#[test]
fn catalog_every_rotation_is_occupied_within_its_box() {
    for t in 1..=7u8 {
        let m = Mino::of_type(t);
        for rot in &m.rotations {
            let size = rot.len();
            let mut occupied = 0;
            for row in rot {
                assert_eq!(row.len(), size);
                for &cell in row {
                    assert!(cell == 0 || cell == 1);
                    if cell != 0 {
                        occupied += 1;
                    }
                }
            }
            assert_eq!(occupied, 4, "each piece covers four sub-cells");
        }
    }
}

#[test]
fn catalog_spawn_offsets() {
    assert_eq!(Mino::of_type(O_BLOCK).start_offset, (8, 1));
    assert_eq!(Mino::of_type(I_BLOCK).start_offset, (6, -1));
    for t in [J_BLOCK, Z_BLOCK, S_BLOCK, T_BLOCK, L_BLOCK] {
        assert_eq!(Mino::of_type(t).start_offset, (8, 0));
    }
}

#[test]
fn new_bag_holds_each_type_exactly_once() {
    for _ in 0..50 {
        let bag = Mino::new_bag();
        assert_eq!(bag.len(), 7);
        let mut types: Vec<u8> = bag.iter().map(|m| m.selected_mino).collect();
        types.sort();
        assert_eq!(types, vec![1, 2, 3, 4, 5, 6, 7]);
        for m in &bag {
            assert_eq!(m.current_rotation, 0);
        }
    }
}

#[test]
fn rotation_cycles_wrap_both_ways() {
    let mut m = Mino::of_type(T_BLOCK);
    assert_eq!(m.current_rotation, 0);
    m.rotate(ROT_LEFT);
    assert_eq!(m.current_rotation, 3);
    m.rotate(ROT_RIGHT);
    assert_eq!(m.current_rotation, 0);
    m.rotate(ROT_RIGHT);
    assert_eq!(m.current_rotation, 1);
    let mut o = Mino::of_type(O_BLOCK);
    o.rotate(ROT_RIGHT);
    assert_eq!(o.current_rotation, 0);
    o.rotate(ROT_LEFT);
    assert_eq!(o.current_rotation, 0);
}

#[test]
fn next_rotation_peeks_without_turning() {
    let mut m = Mino::of_type(Z_BLOCK);
    let peek = m.next_rotation(ROT_RIGHT).clone();
    assert_eq!(m.current_rotation, 0);
    m.rotate(ROT_RIGHT);
    assert_eq!(&peek, m.get_rotation());
}

#[test]
fn drop_time_follows_the_frame_table() {
    assert_eq!(get_drop_time_duration(0), 17 * 48);
    assert_eq!(get_drop_time_duration(1), 17 * 43);
    assert_eq!(get_drop_time_duration(8), 17 * 8);
    assert_eq!(get_drop_time_duration(9), 17 * 6);
    assert_eq!(get_drop_time_duration(10), 17 * 5);
    assert_eq!(get_drop_time_duration(12), 17 * 5);
    assert_eq!(get_drop_time_duration(13), 17 * 4);
    assert_eq!(get_drop_time_duration(16), 17 * 3);
    assert_eq!(get_drop_time_duration(19), 17 * 2);
    assert_eq!(get_drop_time_duration(28), 17 * 2);
    assert_eq!(get_drop_time_duration(29), 17);
    assert_eq!(get_drop_time_duration(255), 17);
}

#[test]
fn timer_increase_speeds_up() {
    let mut t = Timer::new(0);
    assert_eq!(t.level, 0);
    assert_eq!(t.duration, 17 * 48);
    t.increase();
    assert_eq!(t.level, 1);
    assert_eq!(t.duration, 17 * 43);
}

#[test]
fn timer_transitions() {
    let mut t = Timer::new(0);
    let m = timer_transition(TimerMode::Running, &mut t, TimerSignal::Increase);
    assert_eq!(m, TimerMode::Running);
    assert_eq!(t.level, 1);
    let m = timer_transition(TimerMode::Running, &mut t, TimerSignal::Pause);
    assert_eq!(m, TimerMode::Paused);
    let m = timer_transition(TimerMode::Paused, &mut t, TimerSignal::Increase);
    assert_eq!(m, TimerMode::Paused);
    assert_eq!(t.level, 1);
    let m = timer_transition(TimerMode::Paused, &mut t, TimerSignal::Reset);
    assert_eq!(m, TimerMode::Paused);
    assert_eq!(t.level, 0);
    let m = timer_transition(TimerMode::Paused, &mut t, TimerSignal::Unpause);
    assert_eq!(m, TimerMode::Running);
    let m = timer_transition(TimerMode::Running, &mut t, TimerSignal::Kill);
    assert_eq!(m, TimerMode::Killed);
    let m = timer_transition(TimerMode::Killed, &mut t, TimerSignal::Unpause);
    assert_eq!(m, TimerMode::Killed);
}

#[test]
fn tile_size_is_clamped_to_the_remaining_space() {
    assert_eq!(calc_tile_size(0, 100, 22), 22);
    assert_eq!(calc_tile_size(90, 100, 22), 10);
    assert_eq!(calc_tile_size(100, 100, 22), 0);
    assert_eq!(calc_tile_size(120, 100, 22), 0);
}

#[test]
fn parse_score_reads_trimmed_decimals() {
    assert_eq!(parse_score(b"123"), Some(123));
    assert_eq!(parse_score(b"  123\n"), Some(123));
    assert_eq!(parse_score(b"0"), Some(0));
    assert_eq!(parse_score(b"4294967295"), Some(u32::MAX));
}

#[test]
fn parse_score_rejects_bad_input() {
    assert_eq!(parse_score(b""), None);
    assert_eq!(parse_score(b"   \n"), None);
    assert_eq!(parse_score(b"12a3"), None);
    assert_eq!(parse_score(b"-5"), None);
    assert_eq!(parse_score(b"4294967296"), None);
    assert_eq!(parse_score(b"99999999999999999999"), None);
}

#[test]
fn format_score_round_trips() {
    for v in [0u32, 7, 10, 123, 99999, u32::MAX] {
        let bytes = format_score(v);
        assert_eq!(parse_score(&bytes), Some(v));
    }
    assert_eq!(format_score(0), b"0".to_vec());
    assert_eq!(format_score(40), b"40".to_vec());
    assert_eq!(format_score(1200), b"1200".to_vec());
}
