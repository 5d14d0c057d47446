use sudoku::board::Board;
use sudoku::error::SudokuError;

const PUZZLE: &str = "\
        3 6 _ _ 1 7 _ _ 5
        _ 5 _ _ 6 _ 3 1 2
        1 8 2 _ 3 _ 7 9 6
        _ _ 6 _ _ _ _ 5 1
        5 _ _ 6 _ 9 _ _ 8
        9 2 _ _ _ _ 6 _ _
        2 9 4 _ 8 _ 5 6 7
        7 3 8 _ 4 _ _ 2 _
        6 _ _ 7 9 _ _ 8 3
    ";

fn test_board() -> Board {
    let b_res = Board::parse(PUZZLE);
    assert!(b_res.is_ok());
    return b_res.unwrap();
}

fn empty_text() -> String {
    let mut text = String::new();
    for _ in 0..81 {
        text.push_str("_ ");
    }
    text
}

#[test]
fn board_test_board_basics() {
    let mut b = Board::new();
    for x in 1..8 {
        assert!(b.field(0, 0).eliminate(x).unwrap());
        assert!(!b.field(0, 0).is_solved());
    }
    assert!(b.field(0, 0).eliminate(9).unwrap());
    assert!(b.field(0, 0).is_solved());

    assert_eq!(1, b.num_solved());
    assert!(!b.is_solved());
}

#[test]
fn board_test_parse_board() {
    assert_eq!(
        Err("Wrong number of fields in input, expected 81 got 3.".to_string()),
        Board::parse("ala ma kota").map_err(|e| e.message())
    );

    let mut b = test_board();

    assert_eq!(Some(3), b.field(0, 0).value);
    assert_eq!(None, b.field(2, 0).value);
    assert_eq!(Some(5), b.field(1, 1).value);
    assert_eq!(Some(3), b.field(8, 8).value);

    assert_eq!(44, b.num_solved());
}

#[test]
fn main_test_board_basics() {
    let mut b = Board::new();
    for x in 1..8 {
        assert!(b.field(0, 0).eliminate(x).unwrap());
        assert!(!b.field(0, 0).is_solved());
    }
    assert!(b.field(0, 0).eliminate(9).unwrap());
    assert!(b.field(0, 0).is_solved());
}

#[test]
fn main_test_parse_board() {
    assert_eq!(
        Err("Wrong number of fields in input, expected 81 got 3.".to_string()),
        Board::parse("ala ma kota").map_err(|e| e.message())
    );
    let b_res = Board::parse(
        "\
        3 6 _ _ 1 7 _ _ 5
        _ 5 _ _ 6 _ 3 1 2
        1 8 2 _ 3 _ 7 9 6
        _ _ 6 _ _ _ _ 5 1
        5 _ _ 6 _ 9 _ _ 8
        9 2 _ _ _ _ 6 _ _
        2 9 4 _ 8 _ 5 6 7
        7 3 8 _ 4 _ _ 2 _
        6 _ _ 7 9 _ _ 8 3
    ",
    );
    assert!(b_res.is_ok());
    let mut b = b_res.unwrap();

    assert_eq!(Some(3), b.field(0, 0).value);
    assert_eq!(None, b.field(2, 0).value);
    assert_eq!(Some(3), b.field(0, 0).value);
    assert_eq!(Some(3), b.field(0, 0).value);
}

#[test]
fn parse_counts_tokens_not_characters() {
    assert_eq!(
        Board::parse("ala ma kota").err(),
        Some(SudokuError::MalformedInput { count: 3 })
    );
    assert_eq!(Board::parse("").err(), Some(SudokuError::MalformedInput { count: 0 }));
    assert_eq!(Board::parse(" \n\t ").err(), Some(SudokuError::MalformedInput { count: 0 }));
    let mut text = empty_text();
    text.push_str("_");
    assert_eq!(Board::parse(&text).err(), Some(SudokuError::MalformedInput { count: 82 }));
    let eighty: String = "1 ".repeat(80);
    assert_eq!(Board::parse(&eighty).err(), Some(SudokuError::MalformedInput { count: 80 }));
}

#[test]
fn empty_grid_has_no_solved_field() {
    let b = Board::parse(&empty_text()).unwrap();
    assert_eq!(b.num_solved(), 0);
    assert!(!b.is_solved());
    assert_eq!(b, Board::new());
}

#[test]
fn new_board_is_fresh_everywhere() {
    let mut b = Board::new();
    assert_eq!(b.num_solved(), 0);
    for i in 0..81 {
        let f = b.field_seq(i);
        assert_eq!(f.value, None);
        assert_eq!(f.options.len(), 9);
    }
}

#[test]
fn parse_places_tokens_row_by_row() {
    let mut b = test_board();
    assert_eq!(b.field(0, 0).value, Some(3));
    assert_eq!(b.field(1, 0).value, Some(6));
    assert_eq!(b.field(4, 0).value, Some(1));
    assert_eq!(b.field(8, 0).value, Some(5));
    assert_eq!(b.field(0, 1).value, None);
    assert_eq!(b.field(0, 2).value, Some(1));
    assert_eq!(b.field(7, 3).value, Some(5));
    assert_eq!(b.field(0, 8).value, Some(6));
    assert_eq!(b.field(8, 8).value, Some(3));
    assert_eq!(b.field(2, 0).options.len(), 9);
    assert_eq!(b.field(0, 0).options.len(), 1);
    assert!(b.field(0, 0).options.contains(&3));
}

#[test]
fn field_seq_and_field_agree_on_the_place() {
    let mut b = test_board();
    for i in 0..81 {
        let by_index = b.field_seq(i).value;
        let by_coordinates = b.field(i % 9, i / 9).value;
        assert_eq!(by_index, by_coordinates);
    }
    assert_eq!(b.field_seq(0).value, Some(3));
    assert_eq!(b.field_seq(8).value, Some(5));
    assert_eq!(b.field_seq(9).value, None);
    assert_eq!(b.field_seq(10).value, Some(5));
    assert_eq!(b.field_seq(80).value, Some(3));
}

#[test]
fn field_gives_access_to_change_one_field_only() {
    let mut b = Board::new();
    b.field(4, 7).set(9).unwrap();
    assert_eq!(b.num_solved(), 1);
    assert_eq!(b.field_seq(7 * 9 + 4).value, Some(9));
    for i in 0..81 {
        if i != 7 * 9 + 4 {
            assert_eq!(b.field_seq(i).value, None);
            assert_eq!(b.field_seq(i).options.len(), 9);
        }
    }
}

#[test]
fn all_fields_lists_columns_one_after_another() {
    let b = test_board();
    let all = b._all_fields();
    assert_eq!(all.len(), 81);
    for (k, (x, y, _)) in all.iter().enumerate() {
        assert_eq!(*x, k / 9);
        assert_eq!(*y, k % 9);
    }
    // Column 0 of the puzzle, top to bottom.
    let column: Vec<Option<i8>> = all[0..9].iter().map(|(_, _, f)| f.value).collect();
    assert_eq!(
        column,
        vec![Some(3), None, Some(1), None, Some(5), Some(9), Some(2), Some(7), Some(6)]
    );
    let (x, y, f) = all[8 * 9 + 8];
    assert_eq!((x, y, f.value), (8, 8, Some(3)));
    let (x, y, f) = all[1 * 9 + 2];
    assert_eq!((x, y, f.value), (1, 2, Some(8)));
}

#[test]
fn rendered_grid_parses_back_to_its_values() {
    let values: Vec<i8> = (0..81).map(|i| ((i * 7 + i / 9) % 9 + 1) as i8).collect();
    let text: Vec<String> = values.iter().map(|v| v.to_string()).collect();
    let text = text.join(" ");
    let mut b = Board::parse(&text).unwrap();
    assert!(b.is_solved());
    assert_eq!(b.num_solved(), 81);
    for i in 0..81 {
        let f = b.field_seq(i);
        assert_eq!(f.value, Some(values[i]));
        assert_eq!(f.options.len(), 1);
        assert!(f.options.contains(&values[i]));
    }
    let again: Vec<String> = (0..81).map(|i| b.field_seq(i).value.unwrap().to_string()).collect();
    assert_eq!(again.join(" "), text);
}

#[test]
fn parse_accepts_any_white_space_between_tokens() {
    let mut text = String::new();
    for i in 0..81 {
        text.push_str(if i % 2 == 0 { "7" } else { "_" });
        text.push_str(match i % 4 {
            0 => "\t",
            1 => "\n\n",
            2 => " \u{a0} ",
            _ => "\u{3000}",
        });
    }
    let b = Board::parse(&text).unwrap();
    assert_eq!(b.num_solved(), 41);
}

#[test]
fn parse_treats_other_tokens_as_unknown() {
    let mut text = String::from("x ? abc 1_ 3x -- + 999 ");
    for _ in 0..73 {
        text.push_str(". ");
    }
    let b = Board::parse(&text).unwrap();
    assert_eq!(b.num_solved(), 0);
}

#[test]
fn parse_reads_signs_and_leading_zeros() {
    let mut text = String::from("+4 007 ");
    for _ in 0..79 {
        text.push_str("_ ");
    }
    let mut b = Board::parse(&text).unwrap();
    assert_eq!(b.field_seq(0).value, Some(4));
    assert_eq!(b.field_seq(1).value, Some(7));
    assert_eq!(b.num_solved(), 2);
}

#[test]
fn parse_refuses_numbers_outside_one_to_nine() {
    for (token, value) in [("0", 0), ("10", 10), ("-3", -3), ("127", 127), ("-128", -128)] {
        let mut text = String::from("1 2 ");
        text.push_str(token);
        for _ in 0..78 {
            text.push_str(" _");
        }
        assert_eq!(
            Board::parse(&text).err(),
            Some(SudokuError::InvalidOption { value }),
            "token {token}"
        );
    }
}

#[test]
fn parse_reports_the_first_refused_number() {
    let mut text = String::from("_ 12 0 ");
    for _ in 0..78 {
        text.push_str("_ ");
    }
    assert_eq!(Board::parse(&text).err(), Some(SudokuError::InvalidOption { value: 12 }));
    assert_eq!(
        Board::parse(&text).map_err(|e| e.message()).err(),
        Some("12 can't be the solution for this field, it's not a valid option.".to_string())
    );
}

#[test]
fn parse_checks_the_count_before_the_numbers() {
    assert_eq!(Board::parse("0 0 0").err(), Some(SudokuError::MalformedInput { count: 3 }));
}

#[test]
fn parse_does_not_check_rows_or_columns() {
    let text = "5 ".repeat(81);
    let b = Board::parse(&text).unwrap();
    assert!(b.is_solved());
    assert_eq!(b.num_solved(), 81);
}

#[test]
fn is_solved_needs_all_81_fields() {
    let mut text = "1 ".repeat(80);
    text.push_str("_");
    let mut b = Board::parse(&text).unwrap();
    assert_eq!(b.num_solved(), 80);
    assert!(!b.is_solved());
    b.field_seq(80).set(1).unwrap();
    assert_eq!(b.num_solved(), 81);
    assert!(b.is_solved());
}
