use robco_backdoor::game::{GameError, GameState};
use robco_backdoor::ledger::{CursorScan, LogEvent, UiState};

fn board(width: usize, half_height: usize, word_size: usize) -> UiState {
    UiState::new(width, half_height, word_size)
}

fn set_bytes(b: &mut UiState, at: usize, bytes: &[u8]) {
    for (i, &x) in bytes.iter().enumerate() {
        b.ledger[at + i] = x;
    }
}

#[test]
fn new_board_is_prefilled() {
    let b = board(12, 17, 5);
    assert_eq!(b.ledger.len(), 12 * 34);
    assert!(b.ledger.iter().all(|&c| c == b'*'));
    assert_eq!(b.cursor_seek, 0);
    assert!(b.word_placement.is_empty());
    assert!(b.side_log.is_empty());
}

#[test]
fn scenario_five_letter_words_keep_seven_cells_apart() {
    // board of width 12 and 34 rows (17 * 2): a 5-letter word leaves every
    // other word at least 7 cells away in the flattened index space
    let mut b = board(12, 17, 5);
    let words: Vec<Vec<u8>> = [
        "APPLE", "BREAD", "CHAIR", "DRINK", "EAGLE", "FLAME", "GRAPE", "HOUSE", "INBOX", "JOKER",
        "KNIFE", "LEMON",
    ]
    .iter()
    .map(|w| w.as_bytes().to_vec())
    .collect();
    b.init(&words).expect("the default board fits twelve words");

    assert_eq!(b.word_placement.len(), 12);
    for (i, (start, word)) in b.word_placement.iter().enumerate() {
        assert_eq!(word.len(), 5);
        assert!(start + 5 <= b.ledger.len());
        // the word really is on the board
        assert_eq!(&b.ledger[*start..start + 5], word.as_slice());
        for (j, (other, _)) in b.word_placement.iter().enumerate() {
            if i != j {
                let gap = if start > other { start - other } else { other - start };
                assert!(gap >= 7, "placements {start} and {other} are too close");
            }
        }
    }
    // letters appear only inside placed words; everything else comes from
    // the filler alphabet
    for (i, &c) in b.ledger.iter().enumerate() {
        if c.is_ascii_alphabetic() {
            assert!(b
                .word_placement
                .iter()
                .any(|(s, _)| *s <= i && i < s + 5));
        } else {
            assert!(b"(){}[]<>?:;^&$".contains(&c));
        }
    }
}

#[test]
fn placed_words_may_wrap_across_rows() {
    // a word laid over a row boundary in the flattened buffer is still one
    // word to the cursor scan
    let mut b = board(4, 1, 3);
    set_bytes(&mut b, 0, b"$$CAT$$$");
    b.word_placement = vec![(2, b"CAT".to_vec())];
    b.cursor_seek = 4; // second row, first column
    let (scan, range) = b.check_cursor();
    assert_eq!(scan, CursorScan::OnWord);
    assert_eq!(range, Some((2, 5)));
}

#[test]
fn full_ledger_of_the_default_board() {
    let b = board(12, 17, 5);
    let text = b.get_full_ledger();
    assert_eq!(text.len(), 17 * 26);
    for row in 0..17 {
        assert_eq!(text[row * 26 + 12], b' ');
        assert_eq!(text[row * 26 + 25], b'\n');
    }
    assert!(text.iter().all(|&c| c == b'*' || c == b' ' || c == b'\n'));
}

#[test]
fn closer_left_of_the_cursor_does_not_count() {
    let mut b = board(4, 1, 1);
    set_bytes(&mut b, 0, b")($$$$$$");
    b.cursor_seek = 1;
    assert_eq!(b.get_closing_char_at_cursor(), None);
    assert_eq!(b.check_cursor().0, CursorScan::OnRegular);
}

#[test]
fn init_reports_a_board_that_cannot_fit() {
    let mut b = board(2, 1, 1);
    let words = vec![b"A".to_vec(), b"B".to_vec()];
    assert_eq!(b.init(&words), Err(GameError::PreconditionViolation));
}

#[test]
fn cursor_moves_clamp_to_buffer() {
    let mut b = board(4, 2, 1);
    // 16 cells, 4 per row
    b.mv_cursor_up();
    assert_eq!(b.cursor_seek, 0);
    b.mv_cursor_left();
    assert_eq!(b.cursor_seek, 0);
    b.mv_cursor_down();
    assert_eq!(b.cursor_seek, 4);
    b.mv_cursor_right();
    assert_eq!(b.cursor_seek, 5);
    b.mv_cursor_up();
    assert_eq!(b.cursor_seek, 1);
    // horizontal moves cross row boundaries
    b.cursor_seek = 3;
    b.mv_cursor_right();
    assert_eq!(b.cursor_seek, 4);
    b.mv_cursor_left();
    assert_eq!(b.cursor_seek, 3);
    // clamped at the far end
    b.cursor_seek = 15;
    b.mv_cursor_right();
    assert_eq!(b.cursor_seek, 15);
    b.mv_cursor_down();
    assert_eq!(b.cursor_seek, 15);
}

#[test]
fn cursor_ui_pos_maps_panels() {
    let mut b = board(12, 17, 5);
    b.cursor_seek = 0;
    assert_eq!(b.get_cursor_ui_pos(), (0, 5));
    b.cursor_seek = 14; // row 1, col 2 of the left panel
    assert_eq!(b.get_cursor_ui_pos(), (2, 6));
    b.cursor_seek = 17 * 12; // first cell of the right panel
    assert_eq!(b.get_cursor_ui_pos(), (13, 5));
    b.cursor_seek = 17 * 12 + 12 + 3; // its second row, fourth column
    assert_eq!(b.get_cursor_ui_pos(), (16, 6));
}

#[test]
fn frames_follow_the_dimensions() {
    let b = board(12, 17, 5);
    assert_eq!(b.get_left_ledger_frame(), (0, 5, 12, 22));
    assert_eq!(b.get_right_ledger_frame(), (13, 5, 25, 22));
    assert_eq!(b.get_side_log_frame(), (30, 5, 45, 22));
}

#[test]
fn full_ledger_interleaves_the_panels() {
    let mut b = board(2, 1, 1);
    set_bytes(&mut b, 0, b"ab~+");
    let text = b.get_full_ledger();
    assert_eq!(text, b"ab ~+\n".to_vec());
}

#[test]
fn classify_letter_cell_highlights_whole_word() {
    let mut b = board(6, 1, 3);
    set_bytes(&mut b, 0, b"$$$$CAT$$$$$");
    b.word_placement = vec![(4, b"CAT".to_vec())];
    for cursor in 4..7 {
        b.cursor_seek = cursor;
        let (scan, range) = b.check_cursor();
        assert_eq!(scan, CursorScan::OnWord);
        assert_eq!(range, Some((4, 7)));
    }
}

#[test]
fn word_at_cursor_finds_the_start() {
    let mut b = board(6, 1, 3);
    set_bytes(&mut b, 0, b"CAT$$$$$$$$$");
    b.word_placement = vec![(0, b"CAT".to_vec())];
    b.cursor_seek = 2;
    assert_eq!(b.get_word_at_cursor(), Some(0));
    b.cursor_seek = 3;
    assert_eq!(b.get_word_at_cursor(), None);
}

#[test]
fn classify_clickable_token() {
    let mut b = board(6, 1, 3);
    set_bytes(&mut b, 0, b"(##)$$$$$$$$");
    b.cursor_seek = 0;
    assert_eq!(b.get_closing_char_at_cursor(), Some(4));
    let (scan, range) = b.check_cursor();
    assert_eq!(scan, CursorScan::OnClickable);
    assert_eq!(range, Some((0, 4)));
}

#[test]
fn bracket_without_closer_on_its_row_is_inert() {
    let mut b = board(4, 1, 1);
    // the closer sits on the next row, out of the scan's reach
    set_bytes(&mut b, 0, b"[###]###");
    b.cursor_seek = 0;
    assert_eq!(b.get_closing_char_at_cursor(), None);
    let (scan, range) = b.check_cursor();
    assert_eq!(scan, CursorScan::OnRegular);
    assert_eq!(range, None);
}

#[test]
fn classify_plain_filler_is_inert() {
    let mut b = board(4, 1, 1);
    set_bytes(&mut b, 0, b"????????");
    b.cursor_seek = 3;
    let (scan, range) = b.check_cursor();
    assert_eq!(scan, CursorScan::OnRegular);
    assert_eq!(range, None);
}

#[test]
fn abs_diff_is_symmetric() {
    assert_eq!(robco_backdoor::ledger::abs_diff(3, 10), 7);
    assert_eq!(robco_backdoor::ledger::abs_diff(10, 3), 7);
    assert_eq!(robco_backdoor::ledger::abs_diff(5, 5), 0);
}

fn word_board_and_game() -> (UiState, GameState) {
    let mut b = board(6, 2, 3);
    set_bytes(&mut b, 0, b"$$$$CAT$$$$$$$$$$$$$$$$$");
    b.word_placement = vec![(4, b"CAT".to_vec())];
    let g = GameState::new(vec![b"CAT".to_vec(), b"DOG".to_vec()], 1, 4);
    (b, g)
}

#[test]
fn enter_on_incorrect_word_logs_feedback() {
    let (mut b, mut g) = word_board_and_game();
    b.cursor_seek = 5;
    b.handle_enter(&mut g).expect("a word attempt cannot fail");
    assert_eq!(g.tries, 3);
    assert!(!g.won);
    assert_eq!(
        b.side_log,
        vec![
            LogEvent::PasswordIncorrect(b"CAT".to_vec()),
            LogEvent::AttemptScore(0, 3),
        ]
    );
}

#[test]
fn enter_on_target_word_wins_silently() {
    let (mut b, mut g) = word_board_and_game();
    g.target_word = b"CAT".to_vec();
    b.cursor_seek = 4;
    b.handle_enter(&mut g).expect("a word attempt cannot fail");
    assert!(g.won);
    assert_eq!(g.tries, 3);
    assert!(b.side_log.is_empty());
}

#[test]
fn enter_on_inert_cell_logs_invalid_token() {
    let (mut b, mut g) = word_board_and_game();
    b.cursor_seek = 0;
    b.handle_enter(&mut g).expect("an inert cell cannot fail");
    assert_eq!(g.tries, 4);
    assert_eq!(b.side_log, vec![LogEvent::InvalidToken(b'$')]);
}

#[test]
fn enter_on_clickable_consumes_the_token() {
    let mut b = board(6, 2, 3);
    set_bytes(&mut b, 0, b"{$$}$$DOG$$$$$$$$$$$$$$$");
    b.word_placement = vec![(6, b"DOG".to_vec())];
    let mut g = GameState::new(vec![b"CAT".to_vec(), b"DOG".to_vec()], 0, 4);
    g.tries = 2;
    b.cursor_seek = 0;
    b.handle_enter(&mut g).expect("one word is eliminable");
    // the clicked cell can never be activated again
    assert_eq!(b.ledger[0], b'.');
    match b.side_log.as_slice() {
        [LogEvent::ResetAttempts] => {
            assert_eq!(g.tries, 4);
            assert!(g.used_words.is_empty());
            assert_eq!(b.word_placement.len(), 1);
        }
        [LogEvent::RemoveDud] => {
            assert_eq!(g.tries, 2);
            assert_eq!(g.used_words, vec![b"DOG".to_vec()]);
            assert!(b.word_placement.is_empty());
            assert_eq!(&b.ledger[6..9], b"...");
        }
        other => panic!("unexpected log: {:?}", other),
    }
}

#[test]
fn enter_on_clickable_with_nothing_to_remove() {
    // the only candidate is the target: a RemoveWord draw must report
    // EmptyChoice, a ResetAttempts draw succeeds
    let mut b = board(6, 2, 3);
    set_bytes(&mut b, 0, b"($$)$$$$$$$$$$$$$$$$$$$$");
    let mut g = GameState::new(vec![b"CAT".to_vec()], 0, 4);
    g.tries = 1;
    b.cursor_seek = 0;
    match b.handle_enter(&mut g) {
        Ok(()) => {
            assert_eq!(g.tries, 4);
            assert_eq!(b.side_log, vec![LogEvent::ResetAttempts]);
            assert_eq!(b.ledger[0], b'.');
        }
        Err(e) => {
            assert_eq!(e, GameError::EmptyChoice);
            assert_eq!(g.tries, 1);
            assert!(b.side_log.is_empty());
            assert_eq!(b.ledger[0], b'(');
        }
    }
}
