use std::collections::BTreeSet;

use filler::visualizer::{
    content_type, hex, json_array, json_bool, json_escape, json_number, json_string,
    match_result_json, parse_engine_line, parse_start_request, percent_decode, reason_phrase,
    safe_name, safe_static_name, settle_result, side_for_game, validate_request,
    validate_request_fields, MatchResult, RequestError,
};
use filler::{
    format_move, generate_placements, validate_placement, Board, FillerError, Parser, Piece,
    Player, Position, Strategy,
};

fn board(rows: &[&str]) -> Board {
    Board {
        width: rows[0].len(),
        height: rows.len(),
        rows: rows.iter().map(|row| row.as_bytes().to_vec()).collect(),
    }
}

fn piece(rows: &[&str]) -> Piece {
    let mut cells = Vec::new();
    for (y, row) in rows.iter().enumerate() {
        for (x, cell) in row.bytes().enumerate() {
            if cell != b'.' {
                cells.push(Position {
                    x: x as i32,
                    y: y as i32,
                });
            }
        }
    }
    Piece {
        width: rows[0].len(),
        height: rows.len(),
        rows: rows.iter().map(|row| row.as_bytes().to_vec()).collect(),
        cells,
    }
}

#[test]
fn player_numbers_other_than_one_and_two_are_refused() {
    assert_eq!(Player::new(0).unwrap_err(), FillerError::UnsupportedPlayer(0));
    assert_eq!(Player::new(3).unwrap_err(), FillerError::UnsupportedPlayer(3));
}

#[test]
fn the_two_players_mirror_each_other() {
    let one = Player::new(1).unwrap();
    let two = Player::new(2).unwrap();
    for cell in [b'@', b'a', b'$', b's', b'.', b'x'] {
        assert_eq!(one.is_own(cell), two.is_enemy(cell));
        assert_eq!(one.is_enemy(cell), two.is_own(cell));
        assert!(!(one.is_own(cell) && one.is_enemy(cell)));
    }
    assert!(one.is_own(b'@') && one.is_own(b'a') && one.is_enemy(b'$') && one.is_enemy(b's'));
}

#[test]
fn cells_off_the_board_read_as_zero() {
    let board = board(&["@.", ".$"]);
    assert_eq!(board.at(0, 0), b'@');
    assert_eq!(board.at(1, 1), b'$');
    assert_eq!(board.at(-1, 0), 0);
    assert_eq!(board.at(0, -1), 0);
    assert_eq!(board.at(2, 0), 0);
    assert_eq!(board.at(0, 2), 0);
}

#[test]
fn a_foreign_non_empty_cell_blocks_a_placement() {
    let board = board(&["@x..."]);
    let piece = piece(&["OO"]);
    let player = Player::new(1).unwrap();
    assert!(!validate_placement(&board, &piece, player, Position { x: 0, y: 0 }));
}

#[test]
fn an_empty_piece_has_no_placement() {
    let board = board(&["@...."]);
    let empty = Piece {
        width: 1,
        height: 1,
        rows: vec![b".".to_vec()],
        cells: Vec::new(),
    };
    let player = Player::new(1).unwrap();
    assert!(!validate_placement(&board, &empty, player, Position { x: 0, y: 0 }));
    assert!(generate_placements(&board, &empty, player).is_empty());
}

#[test]
fn placements_come_once_each_in_scan_order() {
    let board = board(&["@@", ".."]);
    let piece = piece(&["O", "O"]);
    let player = Player::new(1).unwrap();
    let placements = generate_placements(&board, &piece, player);
    assert_eq!(
        placements,
        vec![Position { x: 0, y: 0 }, Position { x: 1, y: 0 }]
    );
    let distinct: BTreeSet<Position> = placements.iter().copied().collect();
    assert_eq!(distinct.len(), placements.len());
}

#[test]
fn a_single_placement_is_chosen() {
    let board = board(&["@.$"]);
    let piece = piece(&["OO"]);
    let player = Player::new(1).unwrap();
    assert_eq!(
        Strategy::new().choose_move(&board, &piece, player),
        Some(Position { x: 0, y: 0 })
    );
}

#[test]
fn chosen_moves_are_among_the_generated_ones_for_both_players() {
    let board = board(&[
        "..........",
        "..@.......",
        "..........",
        "..........",
        "......$...",
        "..........",
    ]);
    let piece = piece(&["OO", "O."]);
    for number in [1, 2] {
        let player = Player::new(number).unwrap();
        let chosen = Strategy::new().choose_move(&board, &piece, player).unwrap();
        assert!(generate_placements(&board, &piece, player).contains(&chosen));
        assert!(validate_placement(&board, &piece, player, chosen));
    }
}

#[test]
fn the_strategy_is_deterministic() {
    let board = board(&["........", "...@....", "........", "......$."]);
    let piece = piece(&[".O", "OO"]);
    let player = Player::new(1).unwrap();
    let first = Strategy::new().choose_move(&board, &piece, player);
    let second = Strategy::new().choose_move(&board, &piece, player);
    assert_eq!(first, second);
    assert!(first.is_some());
}

#[test]
fn the_move_line_handles_extreme_coordinates() {
    assert_eq!(format_move(Position { x: 0, y: 0 }), "0 0\n");
    assert_eq!(format_move(Position { x: 10, y: 305 }), "10 305\n");
    assert_eq!(
        format_move(Position { x: i32::MIN, y: i32::MAX }),
        "-2147483648 2147483647\n"
    );
}

#[test]
fn parse_errors_are_reported() {
    let cases: Vec<(&[u8], FillerError)> = vec![
        (b"Anfield\n", FillerError::MissingWidth),
        (b"Anfield x 2:\n", FillerError::InvalidWidth),
        (b"Anfield 3\n", FillerError::MissingHeight),
        (b"Anfield 3 -2:\n", FillerError::InvalidHeight),
        (b"Anfield 0 2:\n", FillerError::NonPositiveDimensions),
        (b"Anfield 3 1:\n000 ..\n", FillerError::InvalidBoardRow { expected: 3, got: 2 }),
        (b"Anfield 3 1:\n000 .x.\n", FillerError::InvalidBoardRow { expected: 3, got: 3 }),
        (b"Anfield 3 2:\n000 ...\n", FillerError::IncompleteBoard),
        (b"Anfield 3 1:\n000 ...\n", FillerError::PieceHeaderNotFound),
        (b"Anfield 3 1:\n000 ...\nPiece 2 2:\nOO\n", FillerError::IncompletePiece),
        (b"Anfield 3 1:\n000 ...\nPiece 2 1:\nOOO\n", FillerError::InvalidPieceRow { got: 3, expected: 2 }),
        (b"Anfield 3 1:\n000 ...\nPiece 2 1:\n..\n", FillerError::EmptyPiece),
    ];
    for (input, expected) in cases {
        let mut parser = Parser::new(input.to_vec());
        assert_eq!(parser.next_turn().unwrap_err(), expected);
    }
}

#[test]
fn dimensions_accept_a_plus_sign_and_colons() {
    let mut parser = Parser::new(b"  Anfield +2 1::  \n000 @$\nPiece 1 1\nO\n".to_vec());
    let turn = parser.next_turn().unwrap().unwrap();
    assert_eq!((turn.board.width, turn.board.height), (2, 1));
    assert_eq!(turn.board.rows[0], b"@$");
    assert_eq!(turn.piece.cells, vec![Position { x: 0, y: 0 }]);
}

#[test]
fn crlf_line_endings_and_padding_are_handled() {
    let mut parser = Parser::new(b"$$$ exec p2 : [x]\r\nAnfield 2 1:\r\n000 .s\r\nPiece 2 1:\r\n #. \r\n".to_vec());
    assert_eq!(parser.read_player().unwrap().number, 2);
    let turn = parser.next_turn().unwrap().unwrap();
    assert_eq!(turn.piece.rows[0], b"#.");
    assert_eq!(turn.piece.cells, vec![Position { x: 0, y: 0 }]);
}

#[test]
fn the_player_header_needs_a_known_marker() {
    let mut parser = Parser::new(b"hello\n$$$ exec p3\n$$$ exec p2 : [x]\n".to_vec());
    assert_eq!(parser.read_player().unwrap().number, 2);
    let mut missing = Parser::new(b"$$$ exec : [x]\n".to_vec());
    assert_eq!(missing.read_player().unwrap_err(), FillerError::PlayerHeaderNotFound);
}

#[test]
fn an_incomplete_turn_waits_for_more_input() {
    let mut parser = Parser::new(b"Anfield 2 1:\n000 @.\n".to_vec());
    assert!(parser.try_next_turn().is_none());
    parser.feed(b"Piece 1 1:\n");
    assert!(parser.try_next_turn().is_none());
    parser.feed(b"O\n");
    let turn = parser.try_next_turn().unwrap().unwrap().unwrap();
    assert_eq!(turn.piece.cells.len(), 1);
    assert!(parser.try_next_turn().is_none());
    assert!(parser.next_turn().unwrap().is_none());
}

#[test]
fn a_search_for_the_header_resumes_after_more_input() {
    let mut parser = Parser::new(b"noise\n".to_vec());
    assert_eq!(parser.read_player().unwrap_err(), FillerError::PlayerHeaderNotFound);
    parser.feed(b"$$$ exec p1 : [x]\n");
    assert_eq!(parser.read_player().unwrap().number, 1);
}

#[test]
fn json_text_is_escaped() {
    assert_eq!(json_escape("a\"b\\c\nd\re\tf\u{1}g\u{85}h"), "a\\\"b\\\\c\\nd\\re\\tf g h");
    assert_eq!(json_escape("ü"), "ü");
}

#[test]
fn json_fields_are_found_by_text() {
    let body = "{\"map\": \"map01\", \"games\": -3, \"live\":false, \"note\":\"a\\\"b\\n\"}";
    assert_eq!(json_string(body, "map"), Some("map01".to_owned()));
    assert_eq!(json_string(body, "note"), Some("a\"b\n".to_owned()));
    assert_eq!(json_string(body, "games"), None);
    assert_eq!(json_string(body, "side"), None);
    assert_eq!(json_number(body, "games"), Some(-3));
    assert_eq!(json_number(body, "map"), None);
    assert_eq!(json_bool(body, "live"), Some(false));
    assert_eq!(json_bool(body, "map"), None);
    assert_eq!(json_number("{\"n\":9223372036854775808}", "n"), None);
    assert_eq!(json_number("{\"n\":-9223372036854775808}", "n"), Some(i64::MIN));
}

#[test]
fn names_and_hex_digits_are_checked() {
    assert!(safe_name("map_01.txt"));
    assert!(!safe_name(""));
    assert!(!safe_name("../etc"));
    assert!(!safe_name("é"));
    assert!(safe_static_name("index.html"));
    assert_eq!(hex(b'7'), Some(7));
    assert_eq!(hex(b'c'), Some(12));
    assert_eq!(hex(b'F'), Some(15));
    assert_eq!(hex(b'g'), None);
}

#[test]
fn query_values_are_percent_decoded() {
    assert_eq!(percent_decode("a%41+b%2"), "aA b%2");
    assert_eq!(percent_decode("%C3%BC"), "ü");
    assert_eq!(percent_decode("%FF"), "\u{fffd}");
}

#[test]
fn served_files_get_types_and_statuses_get_reasons() {
    assert_eq!(content_type("index.html"), "text/html; charset=utf-8");
    assert_eq!(content_type("styles.css"), "text/css; charset=utf-8");
    assert_eq!(content_type("app.js"), "application/javascript; charset=utf-8");
    assert_eq!(content_type("data.json"), "application/json; charset=utf-8");
    assert_eq!(content_type("logo.png"), "application/octet-stream");
    assert_eq!(reason_phrase(200), "OK");
    assert_eq!(reason_phrase(409), "Conflict");
    assert_eq!(reason_phrase(500), "Error");
}

#[test]
fn engine_lines_update_the_match_result() {
    let mut result = MatchResult::default();
    parse_engine_line("  seed: 42 ", &mut result);
    assert_eq!(result.seed, 42);
    parse_engine_line("Player1 (filler): 120", &mut result);
    parse_engine_line("Player2 (wall_e): 80", &mut result);
    parse_engine_line("Player2: oops", &mut result);
    assert_eq!((result.p1_score, result.p2_score), (120, 80));
    parse_engine_line("Player1 won", &mut result);
    assert_eq!(result.winner, 0);
    settle_result(&mut result, "p1");
    assert_eq!(result.winner, 1);
    assert!(result.student_won);
    let mut tie = MatchResult::default();
    settle_result(&mut tie, "p2");
    assert_eq!(tie.winner, 0);
    assert!(!tie.student_won);
}

#[test]
fn series_sides_alternate() {
    assert_eq!(side_for_game("alternate", 0), "p1");
    assert_eq!(side_for_game("alternate", 3), "p2");
    assert_eq!(side_for_game("p2", 0), "p2");
}

#[test]
fn start_requests_are_read_and_checked() {
    let request = parse_start_request("{\"map\":\"map00\",\"opponent\":\"wall_e\",\"seed\":\" 7 \"}").unwrap();
    assert_eq!(request.side, "alternate");
    assert_eq!(request.games, 1);
    assert_eq!(request.seed, Some(7));
    assert!(request.live);
    assert!(validate_request_fields(&request).is_ok());
    let maps = vec!["map00".to_owned()];
    let robots = vec!["bender".to_owned()];
    assert_eq!(
        validate_request(request, &maps, &robots).err(),
        Some(RequestError::UnknownOpponent)
    );
    assert_eq!(parse_start_request("{}").err(), Some(RequestError::MissingMap));
    assert_eq!(
        parse_start_request("{\"map\":\"m\"}").err(),
        Some(RequestError::MissingOpponent)
    );
    assert_eq!(
        parse_start_request("{\"map\":\"m\",\"opponent\":\"o\",\"seed\":\"x\"}").err(),
        Some(RequestError::InvalidSeed)
    );
    let many = parse_start_request("{\"map\":\"m\",\"opponent\":\"o\",\"games\":21}").unwrap();
    assert_eq!(validate_request_fields(&many), Err(RequestError::GamesOutOfRange));
    assert_eq!(RequestError::GamesOutOfRange.message(), "games must be between 1 and 20");
}

#[test]
fn results_and_lists_become_json() {
    let result = MatchResult {
        index: 2,
        file: "a.log".to_owned(),
        map: "map01".to_owned(),
        opponent: "h2_d2".to_owned(),
        side: "p2".to_owned(),
        seed: -5,
        p1_score: 10,
        p2_score: 12,
        winner: 2,
        student_won: true,
        error: "x\"y".to_owned(),
    };
    assert_eq!(
        match_result_json(&result),
        "{\"index\":2,\"file\":\"a.log\",\"map\":\"map01\",\"opponent\":\"h2_d2\",\"side\":\"p2\",\"seed\":-5,\"p1Score\":10,\"p2Score\":12,\"winner\":2,\"studentWon\":true,\"error\":\"x\\\"y\"}"
    );
    assert_eq!(json_array(&[]), "[]");
    assert_eq!(
        json_array(&["a".to_owned(), "b\"".to_owned()]),
        "[\"a\",\"b\\\"\"]"
    );
}

#[test]
fn errors_have_their_messages() {
    assert_eq!(FillerError::PlayerHeaderNotFound.message(), "player header not found");
    assert_eq!(FillerError::UnsupportedPlayer(3).message(), "unsupported player number: 3");
    assert_eq!(
        FillerError::InvalidBoardRow { expected: 17, got: 4 }.message(),
        "invalid board row width/content: expected 17, got 4"
    );
    assert_eq!(
        FillerError::InvalidPieceRow { got: 2, expected: 5 }.message(),
        "piece row width 2, expected 5"
    );
    assert_eq!(FillerError::NonPositiveDimensions.message(), "dimensions must be positive");
    assert_eq!(FillerError::EmptyPiece.message(), "piece has no occupied cells");
    assert!(FillerError::IncompletePiece.ends_input());
    assert!(FillerError::PieceHeaderNotFound.ends_input());
    assert!(!FillerError::InvalidWidth.ends_input());
    assert!(!FillerError::UnsupportedPlayer(0).ends_input());
}

#[test]
fn long_boards_are_played() {
    let row = format!("@{}", ".".repeat(19999));
    let wide = board(&[row.as_str()]);
    let domino = piece(&["OO"]);
    let player = Player::new(1).unwrap();
    assert_eq!(
        Strategy::new().choose_move(&wide, &domino, player),
        Some(Position { x: 0, y: 0 })
    );
}

#[test]
fn lines_of_invalid_utf8_are_reported() {
    let mut parser = Parser::new(b"\xff\xfe\n$$$ exec p1 : [x]\n".to_vec());
    assert_eq!(parser.read_player(), Err(FillerError::InvalidUtf8));
    assert_eq!(parser.read_player().unwrap().number, 1);
    let mut turn = Parser::new(b"Anfield 2 1:\n000 @.\nPiece 1 1:\n\xc3\n".to_vec());
    assert_eq!(turn.next_turn(), Err(FillerError::InvalidUtf8));
    let mut fine = Parser::new("Anfield 2 1: \u{e9}\n000 @.\nPiece 1 1:\nO\n".as_bytes().to_vec());
    assert!(matches!(fine.next_turn(), Ok(Some(_))));
    assert_eq!(FillerError::InvalidUtf8.message(), "stream did not contain valid UTF-8");
    assert!(!FillerError::InvalidUtf8.ends_input());
}

#[test]
fn empty_boards_and_pieces_have_no_move() {
    let player = Player::new(1).unwrap();
    let empty = Board { width: 0, height: 0, rows: Vec::new() };
    assert_eq!(Strategy::new().choose_move(&empty, &piece(&["O"]), player), None);
    let flat = Piece { width: 0, height: 1, rows: vec![Vec::new()], cells: Vec::new() };
    assert_eq!(Strategy::new().choose_move(&board(&["@."]), &flat, player), None);
}
