use tetrust::board::Board;
use tetrust::framing::{length_prefix, prefix_length};
use tetrust::rooms::{choose_room, room_is_full, room_slot};
use tetrust::tetris::{Command, Event, Tetris};
use tetrust::driver::{driver_command, is_opponent, score_to_record, Tick, FALL_MS, REFRESH_MS};
use tetrust::webtetris::{command_allowed_exec, draw_player_id, GameStatus, Outcome, WebTetris};

fn session_with_t() -> WebTetris {
    let mut t = Tetris { board: Board::new(22, 10, 0), current_shape: Some(1), center: None, current_piece: None, score: 0 };
    let pts = t.insert_shape_at([[0u8, 1, 0], [1, 1, 1]], 3);
    t.current_piece = Some(pts);
    WebTetris { tetris: t, player_id: 17 }
}

#[test]
fn get_command_reads_each_word() {
    assert_eq!(WebTetris::get_command("rotate".to_string()), Some(Command::Rotate));
    assert_eq!(WebTetris::get_command("move_down".to_string()), Some(Command::Move('D')));
    assert_eq!(WebTetris::get_command("move_right".to_string()), Some(Command::Move('R')));
    assert_eq!(WebTetris::get_command("move_left".to_string()), Some(Command::Move('L')));
    assert_eq!(WebTetris::get_command("end_game".to_string()), Some(Command::End));
    assert_eq!(WebTetris::get_command("hard_drop".to_string()), Some(Command::HardDrop));
}

#[test]
fn get_command_refuses_other_words() {
    assert_eq!(WebTetris::get_command("jump".to_string()), None);
    assert_eq!(WebTetris::get_command("".to_string()), None);
    assert_eq!(WebTetris::get_command("Rotate".to_string()), None);
    assert_eq!(WebTetris::get_command(" rotate".to_string()), None);
}

#[test]
fn open_places_a_piece_and_reports_start() {
    let mut w = WebTetris { tetris: Tetris::new(), player_id: 3 };
    let d = w.open();
    assert_eq!(d.status, GameStatus::Start);
    assert_eq!(d.player_id, 3);
    assert!(d.opponent);
    let piece = w.tetris.current_piece.clone().unwrap();
    assert_eq!(d.piece, piece);
    assert_eq!(Some(d.piece_number), w.tetris.current_shape);
    assert_eq!(d.board, w.tetris.board.get_matrix());
}

#[test]
fn refresh_reports_the_game() {
    let mut w = session_with_t();
    match w.handle_command(Command::Refresh) {
        Outcome::Publish(d) => {
            assert_eq!(d.status, GameStatus::Ongoing);
            assert_eq!(d.player_id, 17);
            assert_eq!(d.piece, vec![(0, 4), (1, 3), (1, 4), (1, 5)]);
            assert_eq!(d.piece_number, 1);
            assert!(d.opponent);
            assert_eq!(d.board, w.tetris.board.get_matrix());
        },
        other => panic!("unexpected {:?}", other),
    }
}

#[test]
fn end_reports_the_end() {
    let mut w = session_with_t();
    match w.handle_command(Command::End) {
        Outcome::Finish(d) => {
            assert_eq!(d.status, GameStatus::Ended);
            assert_eq!(d.piece_number, 0);
        },
        other => panic!("unexpected {:?}", other),
    }
}

#[test]
fn move_commands_move_the_piece() {
    let mut w = session_with_t();
    assert!(matches!(w.handle_command(Command::Move('D')), Outcome::Quiet));
    assert_eq!(w.tetris.current_piece, Some(vec![(1, 4), (2, 3), (2, 4), (2, 5)]));
    assert!(matches!(w.handle_command(Command::Move('R')), Outcome::Quiet));
    assert_eq!(w.tetris.current_piece, Some(vec![(1, 5), (2, 4), (2, 5), (2, 6)]));
}

#[test]
fn blocked_fall_notifies_the_driver() {
    let mut w = session_with_t();
    assert!(matches!(w.handle_command(Command::HardDrop), Outcome::Quiet));
    assert_eq!(w.tetris.current_piece, Some(vec![(20, 4), (21, 3), (21, 4), (21, 5)]));
    match w.handle_command(Command::Move('D')) {
        Outcome::Notify(e) => assert_eq!(e, Event::Undroppable),
        other => panic!("unexpected {:?}", other),
    }
    assert!(matches!(w.handle_command(Command::Move('L')), Outcome::Quiet));
}

#[test]
fn blocked_fall_at_the_top_loses() {
    let mut w = session_with_t();
    w.tetris.board.set_element(2, 4, 9);
    match w.handle_command(Command::Move('D')) {
        Outcome::Finish(d) => {
            assert_eq!(d.status, GameStatus::Lost);
            assert_eq!(d.piece, vec![(0, 4), (1, 3), (1, 4), (1, 5)]);
        },
        other => panic!("unexpected {:?}", other),
    }
}

#[test]
fn insert_piece_places_a_new_piece() {
    let mut w = session_with_t();
    assert!(matches!(w.handle_command(Command::HardDrop), Outcome::Quiet));
    assert!(matches!(w.handle_command(Command::InsertPiece), Outcome::Quiet));
    let n = w.tetris.current_shape.unwrap();
    assert!((1..=7).contains(&n));
    assert_eq!(w.tetris.current_piece.clone().unwrap().len(), 4);
}

#[test]
fn rotate_command_turns_the_piece() {
    let mut w = session_with_t();
    assert!(matches!(w.handle_command(Command::Move('D')), Outcome::Quiet));
    assert!(matches!(w.handle_command(Command::Rotate), Outcome::Quiet));
    assert_eq!(w.tetris.current_piece, Some(vec![(1, 4), (2, 4), (2, 5), (3, 4)]));
}

#[test]
fn length_prefix_is_big_endian() {
    assert_eq!(length_prefix(300), [0, 0, 0, 0, 0, 0, 1, 44]);
    assert_eq!(prefix_length([0, 0, 0, 0, 0, 0, 1, 44]), 300);
    assert_eq!(prefix_length(length_prefix(u64::MAX)), u64::MAX);
    assert_eq!(length_prefix(0x0102030405060708), [1, 2, 3, 4, 5, 6, 7, 8]);
}

#[test]
fn choose_room_takes_the_first_room_of_that_size() {
    assert_eq!(choose_room(&vec![2, 3, 2], 2), Some(0));
    assert_eq!(choose_room(&vec![2, 3, 2], 3), Some(1));
    assert_eq!(choose_room(&vec![2, 3, 2], 4), None);
    assert!(room_is_full(2, 2));
    assert!(!room_is_full(3, 2));
}

#[test]
fn driver_commands_follow_the_ticks() {
    assert_eq!(driver_command(Tick::Fall), Command::Move('D'));
    assert_eq!(driver_command(Tick::Refresh), Command::Refresh);
    assert_eq!(driver_command(Tick::PieceStopped), Command::InsertPiece);
    assert_eq!(FALL_MS, 500);
    assert_eq!(REFRESH_MS, 50);
}

#[test]
fn only_the_owner_sees_its_own_game() {
    assert!(!is_opponent(1, 1));
    assert!(is_opponent(0, 1));
    assert!(is_opponent(2, 1));
}

#[test]
fn a_zero_score_is_not_recorded() {
    assert_eq!(score_to_record(0), None);
    assert_eq!(score_to_record(12), Some(12));
}

#[test]
fn commands_allowed_on_a_fresh_piece() {
    let w = session_with_t();
    assert!(command_allowed_exec(&w.tetris, Command::Move('D')));
    assert!(command_allowed_exec(&w.tetris, Command::Move('R')));
    assert!(command_allowed_exec(&w.tetris, Command::HardDrop));
    assert!(command_allowed_exec(&w.tetris, Command::Rotate));
    assert!(command_allowed_exec(&w.tetris, Command::InsertPiece));
    assert!(command_allowed_exec(&w.tetris, Command::ClearLines));
    assert!(command_allowed_exec(&w.tetris, Command::Refresh));
    assert!(command_allowed_exec(&w.tetris, Command::End));
    assert!(!command_allowed_exec(&w.tetris, Command::Move('U')));
}

#[test]
fn commands_refused_where_the_game_would_fail() {
    let mut w = session_with_t();
    w.tetris.center = None;
    assert!(!command_allowed_exec(&w.tetris, Command::Move('D')));
    assert!(!command_allowed_exec(&w.tetris, Command::HardDrop));
    assert!(!command_allowed_exec(&w.tetris, Command::Rotate));
    assert!(command_allowed_exec(&w.tetris, Command::InsertPiece));
    let mut rows = vec![vec![0u8; 10]; 22];
    rows[21] = vec![1u8; 10];
    rows[20][0] = 1;
    w.tetris.board = Board::from(rows);
    assert!(!command_allowed_exec(&w.tetris, Command::ClearLines));
    w.tetris.center = Some((2, 2));
    assert!(command_allowed_exec(&w.tetris, Command::ClearLines));
    w.tetris.board = Board::from(vec![vec![0u8; 10]; 21]);
    assert!(command_allowed_exec(&w.tetris, Command::Refresh));
    assert!(!command_allowed_exec(&w.tetris, Command::Move('D')));
}

#[test]
fn a_piece_outside_the_field_cannot_move_into_it() {
    let mut w = session_with_t();
    w.tetris.center = Some((0, 0));
    w.tetris.current_piece = Some(vec![(0, 10)]);
    assert!(!command_allowed_exec(&w.tetris, Command::Move('L')));
    w.tetris.current_piece = Some(vec![(21, 50)]);
    assert!(command_allowed_exec(&w.tetris, Command::Move('D')));
    assert!(matches!(w.handle_command(Command::Move('D')), Outcome::Notify(Event::Undroppable)));
}

#[test]
fn a_session_reports_ongoing_then_ends_last() {
    let mut w = session_with_t();
    let commands = vec![Command::Refresh, Command::Move('D'), Command::Rotate, Command::Refresh, Command::End];
    let mut outcomes = vec![];
    for c in commands.iter() {
        outcomes.push(w.handle_command(*c));
    }
    for (i, o) in outcomes.iter().enumerate() {
        match o {
            Outcome::Publish(d) => {
                assert_eq!(commands[i], Command::Refresh);
                assert_eq!(d.status, GameStatus::Ongoing);
                assert_eq!(d.player_id, 17);
                assert!(d.opponent);
            },
            Outcome::Finish(d) => {
                assert_eq!(i, outcomes.len() - 1);
                assert_eq!(d.status, GameStatus::Ended);
                assert_eq!(d.player_id, 17);
            },
            _ => {},
        }
    }
    assert!(matches!(outcomes[4], Outcome::Finish(_)));
    assert_eq!(w.player_id, 17);
}

#[test]
fn room_slot_joins_or_opens_a_room() {
    assert_eq!(room_slot(&vec![2, 4, 2], 2), (0, false));
    assert_eq!(room_slot(&vec![2, 4, 2], 4), (1, false));
    assert_eq!(room_slot(&vec![2, 4, 2], 3), (3, true));
    assert_eq!(room_slot(&vec![], 2), (0, true));
}

#[test]
fn player_ids_lie_below_a_thousand() {
    for _ in 0..200 {
        let id = draw_player_id();
        assert!((0..1000).contains(&id));
    }
}

#[test]
fn clearing_rows_scores_a_point_each() {
    let mut w = session_with_t();
    w.tetris.center = Some((0, 0));
    let mut rows = vec![vec![0u8; 10]; 22];
    rows[21] = vec![1u8; 10];
    rows[20] = vec![2u8; 10];
    rows[19][0] = 3;
    w.tetris.board = Board::from(rows);
    w.tetris.score = 5;
    assert!(command_allowed_exec(&w.tetris, Command::ClearLines));
    assert!(matches!(w.handle_command(Command::ClearLines), Outcome::Quiet));
    assert_eq!(w.tetris.score, 7);
    assert!(matches!(w.handle_command(Command::ClearLines), Outcome::Quiet));
    assert_eq!(w.tetris.score, 7);
}

#[test]
fn a_score_that_would_overflow_is_refused() {
    let mut w = session_with_t();
    let mut rows = vec![vec![0u8; 10]; 22];
    rows[21] = vec![1u8; 10];
    w.tetris.board = Board::from(rows);
    w.tetris.center = Some((0, 0));
    w.tetris.score = u16::MAX;
    assert!(!command_allowed_exec(&w.tetris, Command::ClearLines));
    assert!(!command_allowed_exec(&w.tetris, Command::InsertPiece));
    w.tetris.score = u16::MAX - 1;
    assert!(command_allowed_exec(&w.tetris, Command::ClearLines));
}
