use go_board::{BoardSize, BoardState, StoneColor};

#[test]
fn get_stone_off_board_is_empty_for_every_size() {
    for size in [BoardSize::Nine, BoardSize::Thirteen, BoardSize::Nineteen] {
        let mut s = BoardState::new(size);
        let n = size.get_value();
        assert!(s.place_stone(0, 0, StoneColor::Black));
        assert!(s.place_stone(n - 1, n - 1, StoneColor::White));
        for (x, y) in [(-1, 0), (0, -1), (n, 0), (0, n), (n, n), (i32::MIN, i32::MAX), (19, 3)] {
            assert_eq!(s.get_stone(x, y), None);
        }
        assert_eq!(s.get_stone(0, 0), Some(StoneColor::Black));
        assert_eq!(s.get_stone(n - 1, n - 1), Some(StoneColor::White));
    }
}

#[test]
fn second_placement_on_same_point_fails() {
    let mut s = BoardState::new(BoardSize::Nine);
    assert!(s.place_stone(4, 4, StoneColor::Black));
    assert!(!s.place_stone(4, 4, StoneColor::White));
    assert!(!s.place_stone(4, 4, StoneColor::Black));
    assert_eq!(s.get_stone(4, 4), Some(StoneColor::Black));
    assert_eq!(s.get_move_number(4, 4), Some(1));
    assert_eq!(s.move_count, 1);
    assert_eq!(s.last_move, Some((4, 4)));
}

#[test]
fn placement_off_board_fails() {
    let mut s = BoardState::new(BoardSize::Nine);
    assert!(!s.place_stone(9, 0, StoneColor::Black));
    assert!(!s.place_stone(-1, 3, StoneColor::Black));
    assert_eq!(s.move_count, 0);
    assert_eq!(s.last_move, None);
}

#[test]
fn move_numbers_count_placements() {
    let mut s = BoardState::new(BoardSize::Thirteen);
    assert!(s.place_stone(3, 3, StoneColor::Black));
    assert!(s.place_stone(9, 9, StoneColor::White));
    assert!(s.place_stone(12, 0, StoneColor::Black));
    assert_eq!(s.get_move_number(3, 3), Some(1));
    assert_eq!(s.get_move_number(9, 9), Some(2));
    assert_eq!(s.get_move_number(12, 0), Some(3));
    assert_eq!(s.get_move_number(5, 5), None);
    assert_eq!(s.move_count, 3);
}

#[test]
fn remove_stone_keeps_move_count() {
    let mut s = BoardState::new(BoardSize::Nine);
    assert!(s.place_stone(2, 3, StoneColor::White));
    s.remove_stone(2, 3);
    s.remove_stone(40, 40);
    assert_eq!(s.get_stone(2, 3), None);
    assert_eq!(s.get_move_number(2, 3), None);
    assert_eq!(s.move_count, 1);
    assert_eq!(s.captured_white, 0);
    assert!(s.place_stone(2, 3, StoneColor::Black));
    assert_eq!(s.get_move_number(2, 3), Some(2));
}

#[test]
fn clear_resets_everything_but_size() {
    let mut s = BoardState::new(BoardSize::Thirteen);
    assert!(s.place_stone(1, 1, StoneColor::Black));
    assert!(s.place_stone(2, 2, StoneColor::White));
    s.captured_black = 3;
    s.captured_white = 2;
    s.move_count = 10;
    s.ko_position = Some((5, 5));
    s.clear();
    for x in 0..13 {
        for y in 0..13 {
            assert_eq!(s.get_stone(x, y), None);
            assert_eq!(s.get_move_number(x, y), None);
        }
    }
    assert_eq!(s.move_count, 0);
    assert_eq!(s.captured_black, 0);
    assert_eq!(s.captured_white, 0);
    assert_eq!(s.ko_position, None);
    assert_eq!(s.last_move, None);
    assert_eq!(s.board_size, BoardSize::Thirteen);
}

#[test]
fn neighbors_in_fixed_order() {
    let s = BoardState::new(BoardSize::Nine);
    assert_eq!(s.get_neighbors(4, 4), vec![(4, 5), (4, 3), (5, 4), (3, 4)]);
    assert_eq!(s.get_neighbors(0, 0), vec![(0, 1), (1, 0)]);
    assert_eq!(s.get_neighbors(8, 8), vec![(8, 7), (7, 8)]);
    assert_eq!(s.get_neighbors(0, 4), vec![(0, 5), (0, 3), (1, 4)]);
    assert_eq!(s.get_neighbors(-1, 0), vec![(0, 0)]);
    assert_eq!(s.get_neighbors(i32::MAX, i32::MIN), Vec::<(i32, i32)>::new());
}

#[test]
fn new_board_is_empty() {
    let s = BoardState::new(BoardSize::Nineteen);
    assert_eq!(s.stones.len(), 361);
    assert_eq!(s.get_stone(18, 18), None);
    assert_eq!(s.move_count, 0);
    assert_eq!(s.ko_position, None);
}

#[test]
fn opposite_swaps_colours() {
    assert_eq!(StoneColor::Black.opposite(), StoneColor::White);
    assert_eq!(StoneColor::White.opposite(), StoneColor::Black);
    assert_eq!(StoneColor::Black.opposite().opposite(), StoneColor::Black);
}

#[test]
fn default_board_is_empty_nineteen() {
    let s = BoardState::default();
    assert_eq!(s.board_size, BoardSize::Nineteen);
    assert_eq!(s.stones.len(), 361);
    assert_eq!(s.get_stone(3, 3), None);
    assert_eq!(s.move_count, 0);
}
