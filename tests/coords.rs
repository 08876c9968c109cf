use go_board::{BoardSize, CoordinateUtils};

#[test]
fn sgf_names_use_lower_case_letters() {
    assert_eq!(CoordinateUtils::board_to_sgf(0, 0), "aa");
    assert_eq!(CoordinateUtils::board_to_sgf(3, 15), "dp");
    assert_eq!(CoordinateUtils::board_to_sgf(18, 18), "ss");
}

#[test]
fn sgf_names_read_back() {
    assert_eq!(CoordinateUtils::sgf_to_board("dp"), Some((3, 15)));
    assert_eq!(CoordinateUtils::sgf_to_board("aa"), Some((0, 0)));
    assert_eq!(CoordinateUtils::sgf_to_board("ss"), Some((18, 18)));
    for x in 0..19 {
        for y in 0..19 {
            let name = CoordinateUtils::board_to_sgf(x, y);
            assert_eq!(CoordinateUtils::sgf_to_board(&name), Some((x, y)));
        }
    }
}

#[test]
fn bad_sgf_names_are_refused() {
    assert_eq!(CoordinateUtils::sgf_to_board("tt"), None);
    assert_eq!(CoordinateUtils::sgf_to_board("a"), None);
    assert_eq!(CoordinateUtils::sgf_to_board("abc"), None);
    assert_eq!(CoordinateUtils::sgf_to_board(""), None);
    assert_eq!(CoordinateUtils::sgf_to_board("A1"), None);
    assert_eq!(CoordinateUtils::sgf_to_board("é"), None);
    assert_eq!(CoordinateUtils::sgf_to_board("š"), None);
}

#[test]
fn human_labels_skip_i_and_count_rows_from_far_edge() {
    assert_eq!(CoordinateUtils::board_to_human(3, 15, BoardSize::Nineteen), "D4");
    assert_eq!(CoordinateUtils::board_to_human(0, 0, BoardSize::Nineteen), "A19");
    assert_eq!(CoordinateUtils::board_to_human(8, 8, BoardSize::Nine), "J1");
    assert_eq!(CoordinateUtils::board_to_human(7, 0, BoardSize::Nine), "H9");
    assert_eq!(CoordinateUtils::board_to_human(18, 12, BoardSize::Thirteen), "T1");
    assert_eq!(CoordinateUtils::board_to_human(2, 11, BoardSize::Nine), "C-2");
}

#[test]
fn human_label_without_column_letter() {
    assert_eq!(CoordinateUtils::board_to_human(19, 3, BoardSize::Nineteen), "(19,3)");
    assert_eq!(CoordinateUtils::board_to_human(-1, -20, BoardSize::Nine), "(-1,-20)");
}
