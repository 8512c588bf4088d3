use decay_life::config::{DECAY_TICKS, MAX_HEIGHT, MAX_WIDTH};
use decay_life::setup::{
    blank_board, create_board, mark_alive, parse_coordinate, parse_record, read_alive_board,
    should_start_alive, ConfigError, Failure, Record, Warning,
};
use decay_life::types::{Cell, Position};

#[test]
fn coordinate_is_plain_decimal() {
    assert_eq!(parse_coordinate(b"0"), Some(0));
    assert_eq!(parse_coordinate(b"12"), Some(12));
    assert_eq!(parse_coordinate(b"007"), Some(7));
    assert_eq!(parse_coordinate(b"+7"), Some(7));
    assert_eq!(parse_coordinate(usize::MAX.to_string().as_bytes()), Some(usize::MAX));
}

#[test]
fn coordinate_rejects_everything_else() {
    assert_eq!(parse_coordinate(b""), None);
    assert_eq!(parse_coordinate(b"+"), None);
    assert_eq!(parse_coordinate(b"++1"), None);
    assert_eq!(parse_coordinate(b"-1"), None);
    assert_eq!(parse_coordinate(b"1a"), None);
    assert_eq!(parse_coordinate(b" 1"), None);
    assert_eq!(parse_coordinate(b"1 "), None);
    assert_eq!(parse_coordinate(b"18446744073709551616"), None);
    assert_eq!(parse_coordinate(b"99999999999999999999999"), None);
}

#[test]
fn coordinate_agrees_with_std() {
    for text in ["5", "+5", "", "+", "x", "12x", "0012", "18446744073709551615", "18446744073709551616"] {
        assert_eq!(parse_coordinate(text.as_bytes()), text.parse::<usize>().ok());
    }
}

#[test]
fn record_needs_exactly_two_fields() {
    assert_eq!(parse_record(b"1;2"), Record::Alive(Position { x: 1, y: 2 }));
    assert_eq!(parse_record(b"250;999"), Record::Alive(Position { x: 250, y: 999 }));
    assert_eq!(parse_record(b"abc"), Record::Malformed);
    assert_eq!(parse_record(b""), Record::Malformed);
    assert_eq!(parse_record(b"1;2;3"), Record::Malformed);
    assert_eq!(parse_record(b"1;2;"), Record::Malformed);
    assert_eq!(parse_record(b";"), Record::Invalid);
    assert_eq!(parse_record(b"1;"), Record::Invalid);
    assert_eq!(parse_record(b";2"), Record::Invalid);
    assert_eq!(parse_record(b"a;b"), Record::Invalid);
    assert_eq!(parse_record(b"1; 2"), Record::Invalid);
}

#[test]
fn malformed_line_is_skipped_with_a_warning() {
    let loaded = read_alive_board(b"abc\n1;2\n").unwrap();
    assert_eq!(loaded.warnings, vec![Warning { line_number: 1, start: 0, end: 3 }]);
    assert_eq!(loaded.alive_board.len(), MAX_WIDTH);
    for x in 0..MAX_WIDTH {
        assert_eq!(loaded.alive_board[x].len(), MAX_HEIGHT);
        for y in 0..MAX_HEIGHT {
            assert_eq!(loaded.alive_board[x][y], (x, y) == (1, 2));
        }
    }
}

#[test]
fn coordinates_off_the_board_are_an_error() {
    assert_eq!(
        read_alive_board(b"1;1\n100;0\n"),
        Err(Failure {
            error: ConfigError::OutOfBounds { line_number: 2, x: 100, y: 0 },
            warnings: vec![],
        })
    );
    assert_eq!(
        read_alive_board(b"0;60"),
        Err(Failure {
            error: ConfigError::OutOfBounds { line_number: 1, x: 0, y: 60 },
            warnings: vec![],
        })
    );
    assert!(read_alive_board(b"99;59").is_ok());
}

#[test]
fn unreadable_coordinate_is_an_error() {
    assert_eq!(
        read_alive_board(b"oops\n\nx;1\n2;2"),
        Err(Failure {
            error: ConfigError::InvalidCoordinate { line_number: 3 },
            warnings: vec![
                Warning { line_number: 1, start: 0, end: 4 },
                Warning { line_number: 2, start: 5, end: 5 },
            ],
        })
    );
    assert_eq!(
        read_alive_board(b"1;-1").unwrap_err().error,
        ConfigError::InvalidCoordinate { line_number: 1 }
    );
}

#[test]
fn first_error_wins() {
    assert_eq!(
        read_alive_board(b"500;500\nx;y\n").unwrap_err().error,
        ConfigError::OutOfBounds { line_number: 1, x: 500, y: 500 }
    );
    assert_eq!(
        read_alive_board(b"1;1\nabc\n3;x\nabc\n500;500").unwrap_err(),
        Failure {
            error: ConfigError::InvalidCoordinate { line_number: 3 },
            warnings: vec![Warning { line_number: 2, start: 4, end: 7 }],
        }
    );
}

#[test]
fn empty_text_gives_a_blank_board() {
    let loaded = read_alive_board(b"").unwrap();
    assert_eq!(loaded.warnings, vec![]);
    assert_eq!(loaded.alive_board, vec![vec![false; MAX_HEIGHT]; MAX_WIDTH]);
}

#[test]
fn line_ends_follow_std_lines() {
    let loaded = read_alive_board(b"1;2\r\n3;4\r\n\r\n5;6").unwrap();
    assert!(loaded.alive_board[1][2]);
    assert!(loaded.alive_board[3][4]);
    assert!(loaded.alive_board[5][6]);
    assert_eq!(loaded.warnings, vec![Warning { line_number: 3, start: 10, end: 10 }]);

    let loaded = read_alive_board(b"1;2\n\n").unwrap();
    assert_eq!(loaded.warnings, vec![Warning { line_number: 2, start: 4, end: 4 }]);

    assert_eq!(
        read_alive_board(b"1;2\r").unwrap_err().error,
        ConfigError::InvalidCoordinate { line_number: 1 }
    );
}

#[test]
fn warnings_point_at_the_line() {
    let text = b"0;0\nfirst bad\n1;1;1\r\n2;2";
    let loaded = read_alive_board(text).unwrap();
    assert_eq!(loaded.warnings.len(), 2);
    let w = loaded.warnings[0];
    assert_eq!((w.line_number, &text[w.start..w.end]), (2, &b"first bad"[..]));
    let w = loaded.warnings[1];
    assert_eq!((w.line_number, &text[w.start..w.end]), (3, &b"1;1;1"[..]));
    assert!(loaded.alive_board[0][0]);
    assert!(loaded.alive_board[2][2]);
    assert!(!loaded.alive_board[1][1]);
}

#[test]
fn blank_board_and_marks() {
    let mut flags = blank_board(2, 3);
    assert_eq!(flags, vec![vec![false; 3]; 2]);
    mark_alive(&mut flags, 1, 2);
    assert_eq!(flags, vec![vec![false, false, false], vec![false, false, true]]);
    assert!(should_start_alive(1, 2, &flags));
    assert!(!should_start_alive(0, 2, &flags));
    assert_eq!(blank_board(0, 5), Vec::<Vec<bool>>::new());
}

#[test]
fn board_starts_as_the_flags_say() {
    let flags = vec![vec![false, true], vec![true, false], vec![false, false]];
    let board = create_board(&flags);
    let dead = Cell { decaying: true, decaying_ticks: 0, dead: true, neighbors: 0 };
    let alive = Cell { decaying: false, decaying_ticks: DECAY_TICKS, dead: false, neighbors: 0 };
    assert_eq!(board.0, vec![vec![dead, alive], vec![alive, dead], vec![dead, dead]]);
}

#[test]
fn board_of_a_list() {
    let loaded = read_alive_board(b"3;4\n").unwrap();
    let board = create_board(&loaded.alive_board);
    assert_eq!(board.width(), MAX_WIDTH);
    assert_eq!(board.height(), MAX_HEIGHT);
    assert!(!board.get(3, 4).dead);
    assert!(board.get(4, 3).dead);
}
