use go_board::{BoardSize, BoardState, GoBoardConfig, GoBoardRules, StoneColor};

fn sorted(mut v: Vec<(i32, i32)>) -> Vec<(i32, i32)> {
    v.sort();
    v
}

fn board_with(size: BoardSize, black: &[(i32, i32)], white: &[(i32, i32)]) -> BoardState {
    let mut s = BoardState::new(size);
    for &(x, y) in black {
        assert!(s.place_stone(x, y, StoneColor::Black));
    }
    for &(x, y) in white {
        assert!(s.place_stone(x, y, StoneColor::White));
    }
    s
}

#[test]
fn surrounded_stone_loses_last_liberty_and_is_captured() {
    let mut s = BoardState::new(BoardSize::Nine);
    assert!(s.place_stone(2, 2, StoneColor::White));
    assert!(s.place_stone(1, 2, StoneColor::Black));
    assert!(s.place_stone(3, 2, StoneColor::Black));
    assert!(s.place_stone(2, 1, StoneColor::Black));
    let white = GoBoardRules::get_group(&s, 2, 2);
    assert_eq!(GoBoardRules::count_liberties(&s, &white), 1);
    assert_eq!(GoBoardRules::capture_stones(&mut s, 2, 1, StoneColor::Black), vec![]);
    assert_eq!(s.get_stone(2, 2), Some(StoneColor::White));
    assert!(s.place_stone(2, 3, StoneColor::Black));
    assert_eq!(GoBoardRules::count_liberties(&s, &white), 0);
    let before = s.captured_white;
    let captured = GoBoardRules::capture_stones(&mut s, 2, 3, StoneColor::Black);
    assert_eq!(captured, vec![(2, 2)]);
    assert_eq!(s.get_stone(2, 2), None);
    assert_eq!(s.get_move_number(2, 2), None);
    assert_eq!(s.captured_white, before + 1);
    assert_eq!(s.captured_black, 0);
    assert_eq!(s.move_count, 5);
}

#[test]
fn three_stone_chain_is_one_group_from_each_member() {
    let s = board_with(BoardSize::Nine, &[(3, 4), (4, 4), (5, 4)], &[(4, 5), (6, 4)]);
    let expected = vec![(3, 4), (4, 4), (5, 4)];
    for (x, y) in [(3, 4), (4, 4), (5, 4)] {
        assert_eq!(sorted(GoBoardRules::get_group(&s, x, y)), expected);
    }
    assert_eq!(GoBoardRules::get_group(&s, 4, 5), vec![(4, 5)]);
}

#[test]
fn group_of_empty_or_off_board_point_is_empty() {
    let s = board_with(BoardSize::Nine, &[(0, 0)], &[]);
    assert!(GoBoardRules::get_group(&s, 1, 1).is_empty());
    assert!(GoBoardRules::get_group(&s, -3, 0).is_empty());
    assert!(GoBoardRules::get_group(&s, 9, 9).is_empty());
}

#[test]
fn group_follows_bends_and_stops_at_other_colour() {
    let s = board_with(
        BoardSize::Nine,
        &[(0, 0), (0, 1), (1, 1), (2, 1), (2, 2), (4, 4)],
        &[(1, 0), (3, 1)],
    );
    assert_eq!(
        sorted(GoBoardRules::get_group(&s, 2, 2)),
        vec![(0, 0), (0, 1), (1, 1), (2, 1), (2, 2)]
    );
    assert_eq!(sorted(GoBoardRules::get_group(&s, 1, 0)), vec![(1, 0)]);
}

#[test]
fn shared_liberties_count_once() {
    let s = board_with(BoardSize::Nine, &[(4, 4), (5, 4)], &[]);
    let g = GoBoardRules::get_group(&s, 4, 4);
    assert_eq!(GoBoardRules::count_liberties(&s, &g), 6);
    let corner = board_with(BoardSize::Nine, &[(0, 0)], &[]);
    let g = GoBoardRules::get_group(&corner, 0, 0);
    assert_eq!(GoBoardRules::count_liberties(&corner, &g), 2);
    let both = vec![(4, 4), (4, 4), (5, 4)];
    assert_eq!(GoBoardRules::count_liberties(&s, &both), 6);
}

#[test]
fn surrounded_point_is_suicide() {
    let s = board_with(BoardSize::Nine, &[(1, 0), (0, 1)], &[]);
    assert!(GoBoardRules::is_suicide(&s, 0, 0, StoneColor::White));
    assert!(!GoBoardRules::is_suicide(&s, 0, 0, StoneColor::Black));
    let mid = board_with(BoardSize::Nine, &[(4, 5), (4, 3), (5, 4), (3, 4)], &[]);
    assert!(GoBoardRules::is_suicide(&mid, 4, 4, StoneColor::White));
    assert_eq!(mid.get_stone(4, 4), None);
}

#[test]
fn filling_own_last_liberty_is_suicide() {
    let s = board_with(
        BoardSize::Nine,
        &[(2, 0), (1, 1), (0, 2)],
        &[(0, 0)],
    );
    assert!(GoBoardRules::is_suicide(&s, 1, 0, StoneColor::White) == false);
    let t = board_with(BoardSize::Nine, &[(2, 0), (1, 1), (0, 1)], &[(0, 0)]);
    assert!(GoBoardRules::is_suicide(&t, 1, 0, StoneColor::White));
}

#[test]
fn capturing_move_is_not_suicide() {
    let s = board_with(BoardSize::Nine, &[(1, 0), (0, 1), (2, 1)], &[(1, 1), (0, 2), (1, 2)]);
    assert!(!GoBoardRules::is_suicide(&s, 0, 0, StoneColor::White));
}

#[test]
fn valid_move_checks() {
    let mut s = board_with(BoardSize::Nine, &[(3, 3)], &[]);
    assert!(GoBoardRules::is_valid_move(&s, 4, 4, StoneColor::White));
    assert!(!GoBoardRules::is_valid_move(&s, 3, 3, StoneColor::White));
    assert!(!GoBoardRules::is_valid_move(&s, 9, 0, StoneColor::White));
    assert!(!GoBoardRules::is_valid_move(&s, 0, -1, StoneColor::White));
    s.ko_position = Some((4, 4));
    assert!(!GoBoardRules::is_valid_move(&s, 4, 4, StoneColor::White));
}

#[test]
fn empty_board_scores_komi_only() {
    let s = BoardState::new(BoardSize::Nineteen);
    let (black, white) = GoBoardRules::calculate_score(&s);
    assert_eq!((black, white), (0, 15));
    assert_eq!((black as f32 / 2.0, white as f32 / 2.0), (0.0, 7.5));
}

#[test]
fn score_counts_stones_and_komi() {
    let s = board_with(BoardSize::Nine, &[(0, 0), (1, 1), (2, 2)], &[(8, 8), (7, 7)]);
    let (black, white) = GoBoardRules::calculate_score(&s);
    assert_eq!((black as f32 / 2.0, white as f32 / 2.0), (3.0, 9.5));
}

fn rules_on() -> GoBoardConfig {
    GoBoardConfig::default()
}

#[test]
fn play_move_takes_stone_and_marks_ko() {
    let mut s = board_with(
        BoardSize::Nine,
        &[(1, 0), (0, 1), (1, 2)],
        &[(2, 0), (1, 1), (3, 1), (2, 2)],
    );
    let config = rules_on();
    let taken = GoBoardRules::play_move(&mut s, 2, 1, StoneColor::Black, &config);
    assert_eq!(taken, Some(vec![(1, 1)]));
    assert_eq!(s.get_stone(1, 1), None);
    assert_eq!(s.get_stone(2, 1), Some(StoneColor::Black));
    assert_eq!(s.ko_position, Some((1, 1)));
    assert_eq!(s.captured_white, 1);
    assert_eq!(s.last_move, Some((2, 1)));
    let before = s.move_count;
    assert_eq!(GoBoardRules::play_move(&mut s, 1, 1, StoneColor::White, &config), None);
    assert_eq!(s.move_count, before);
    assert_eq!(s.get_stone(1, 1), None);
    assert_eq!(GoBoardRules::play_move(&mut s, 6, 6, StoneColor::White, &config), Some(vec![]));
    assert_eq!(s.ko_position, None);
    assert_eq!(GoBoardRules::play_move(&mut s, 7, 7, StoneColor::Black, &config), Some(vec![]));
    assert_eq!(
        GoBoardRules::play_move(&mut s, 1, 1, StoneColor::White, &config),
        Some(vec![(2, 1)])
    );
    assert_eq!(s.ko_position, Some((2, 1)));
    assert_eq!(s.captured_black, 1);
}

#[test]
fn play_move_without_ko_rule_marks_no_ko() {
    let mut s = board_with(
        BoardSize::Nine,
        &[(1, 0), (0, 1), (1, 2)],
        &[(2, 0), (1, 1), (3, 1), (2, 2)],
    );
    let mut config = rules_on();
    config.enable_ko_rule = false;
    assert_eq!(
        GoBoardRules::play_move(&mut s, 2, 1, StoneColor::Black, &config),
        Some(vec![(1, 1)])
    );
    assert_eq!(s.ko_position, None);
    assert_eq!(
        GoBoardRules::play_move(&mut s, 1, 1, StoneColor::White, &config),
        Some(vec![(2, 1)])
    );
}

#[test]
fn capture_of_two_stones_marks_no_ko() {
    let mut s = board_with(
        BoardSize::Nine,
        &[(0, 1), (1, 1), (3, 0)],
        &[(0, 0), (1, 0)],
    );
    let config = rules_on();
    let taken = GoBoardRules::play_move(&mut s, 2, 0, StoneColor::Black, &config).unwrap();
    assert_eq!(sorted(taken), vec![(0, 0), (1, 0)]);
    assert_eq!(s.ko_position, None);
    assert_eq!(s.captured_white, 2);
}

#[test]
fn play_move_refuses_suicide_only_with_captures() {
    let mut s = board_with(BoardSize::Nine, &[(1, 0), (0, 1)], &[]);
    let config = rules_on();
    assert_eq!(GoBoardRules::play_move(&mut s, 0, 0, StoneColor::White, &config), None);
    assert_eq!(s.get_stone(0, 0), None);
    assert_eq!(s.move_count, 2);
    let mut plain = config;
    plain.enable_captures = false;
    plain.enable_ko_rule = false;
    assert_eq!(GoBoardRules::play_move(&mut s, 0, 0, StoneColor::White, &plain), Some(vec![]));
    assert_eq!(s.get_stone(0, 0), Some(StoneColor::White));
    assert_eq!(s.move_count, 3);
}

#[test]
fn play_move_refuses_occupied_and_off_board() {
    let mut s = board_with(BoardSize::Nine, &[(4, 4)], &[]);
    let config = rules_on();
    assert_eq!(GoBoardRules::play_move(&mut s, 4, 4, StoneColor::White, &config), None);
    assert_eq!(GoBoardRules::play_move(&mut s, 9, 4, StoneColor::White, &config), None);
    assert_eq!(GoBoardRules::play_move(&mut s, 4, -1, StoneColor::White, &config), None);
    assert_eq!(s.move_count, 1);
}

#[test]
fn capture_ignores_own_colour_and_counts_for_white() {
    let mut s = board_with(BoardSize::Nine, &[(0, 0)], &[(1, 0), (0, 1)]);
    assert_eq!(GoBoardRules::capture_stones(&mut s, 1, 0, StoneColor::Black), vec![]);
    assert_eq!(s.get_stone(0, 0), Some(StoneColor::Black));
    let taken = GoBoardRules::capture_stones(&mut s, 0, 1, StoneColor::White);
    assert_eq!(taken, vec![(0, 0)]);
    assert_eq!(s.captured_black, 1);
    assert_eq!(s.captured_white, 0);
}

#[test]
fn off_board_point_is_not_suicide() {
    let s = board_with(BoardSize::Nine, &[(0, 0)], &[]);
    assert!(!GoBoardRules::is_suicide(&s, -1, 0, StoneColor::White));
    assert!(!GoBoardRules::is_suicide(&s, 9, 9, StoneColor::White));
    assert!(!GoBoardRules::is_suicide(&s, i32::MAX, i32::MIN, StoneColor::Black));
}

#[test]
fn group_touching_move_twice_is_counted_once() {
    let mut s = board_with(BoardSize::Nine, &[(0, 2), (2, 0)], &[(0, 0), (0, 1), (1, 0)]);
    let config = rules_on();
    let taken = GoBoardRules::play_move(&mut s, 1, 1, StoneColor::Black, &config).unwrap();
    assert_eq!(sorted(taken), vec![(0, 0), (0, 1), (1, 0)]);
    assert_eq!(s.captured_white, 3);
    assert_eq!(s.ko_position, None);
    for (x, y) in [(0, 0), (0, 1), (1, 0)] {
        assert_eq!(s.get_stone(x, y), None);
    }
}
