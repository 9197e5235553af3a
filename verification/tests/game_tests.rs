use robco_backdoor::game::{AttemptResult, GameError, GameState};

fn words(list: &[&str]) -> Vec<Vec<u8>> {
    list.iter().map(|w| w.as_bytes().to_vec()).collect()
}

fn session(list: &[&str], target: usize, max_attempts: u16) -> GameState {
    GameState::new(words(list), target, max_attempts)
}

#[test]
fn scenario_radar_session() {
    // MAX_ATTEMPTS = 4, candidates {RADAR, HOUSE, MOUSE, LEASE}, target RADAR
    let mut g = session(&["RADAR", "HOUSE", "MOUSE", "LEASE"], 0, 4);
    assert_eq!(g.tries, 4);

    // HOUSE is a known candidate: incorrect, no position matches RADAR
    let r = g.do_try(b"HOUSE".to_vec());
    assert_eq!(r, AttemptResult::Incorrect);
    assert_eq!(g.get_attempt_score(&b"HOUSE".to_vec()), Ok(0));
    assert_eq!(g.tries, 3);
    assert!(!g.won);

    // ZEBRA is not a candidate: invalid, attempts restored
    let r = g.do_try(b"ZEBRA".to_vec());
    assert_eq!(r, AttemptResult::Invalid);
    assert_eq!(g.tries, 4);
    assert!(!g.won);

    // the target wins (and still consumes an attempt)
    let r = g.do_try(b"RADAR".to_vec());
    assert_eq!(r, AttemptResult::Correct);
    assert!(g.won);
    assert_eq!(g.tries, 3);
}

#[test]
fn correct_attempt_always_wins() {
    // even with one attempt left and words already used
    let mut g = session(&["ALPHA", "BRAVO", "DELTA"], 1, 4);
    g.tries = 1;
    g.used_words = words(&["DELTA"]);
    let r = g.do_try(b"BRAVO".to_vec());
    assert_eq!(r, AttemptResult::Correct);
    assert!(g.won);
    assert_eq!(g.tries, 0);
}

#[test]
fn invalid_attempt_resets_and_never_wins() {
    // an unknown word restores the full budget
    let mut g = session(&["ALPHA", "BRAVO"], 0, 4);
    g.tries = 1;
    let r = g.do_try(b"OMEGA".to_vec());
    assert_eq!(r, AttemptResult::Invalid);
    assert_eq!(g.tries, 4);
    assert!(!g.won);

    // a used-up candidate counts as invalid too
    let mut g = session(&["ALPHA", "BRAVO", "DELTA"], 0, 4);
    g.used_words = words(&["DELTA"]);
    g.tries = 2;
    let r = g.do_try(b"DELTA".to_vec());
    assert_eq!(r, AttemptResult::Invalid);
    assert_eq!(g.tries, 4);
    assert!(!g.won);
}

#[test]
fn incorrect_attempt_consumes_try_only() {
    let mut g = session(&["ALPHA", "BRAVO"], 0, 4);
    let r = g.do_try(b"BRAVO".to_vec());
    assert_eq!(r, AttemptResult::Incorrect);
    assert_eq!(g.tries, 3);
    assert!(!g.won);
    // the incorrect guess is not used up by the guess alone
    assert!(g.used_words.is_empty());
}

#[test]
fn reset_attempts_is_idempotent() {
    let mut g = session(&["ALPHA", "BRAVO"], 0, 4);
    g.tries = 1;
    g.reset_attempts();
    assert_eq!(g.tries, 4);
    g.reset_attempts();
    assert_eq!(g.tries, 4);
}

#[test]
fn game_on_tracks_tries_and_won() {
    let mut g = session(&["ALPHA", "BRAVO"], 0, 2);
    assert!(g.game_on());
    g.tries = 0;
    assert!(!g.game_on());
    g.tries = 2;
    g.won = true;
    assert!(!g.game_on());
}

#[test]
fn attempt_score_counts_positions() {
    let g = session(&["RADAR", "RADIO"], 0, 4);
    // R-A-D match, I and O do not
    assert_eq!(g.get_attempt_score(&b"RADIO".to_vec()), Ok(3));
    assert_eq!(g.get_attempt_score(&b"RADAR".to_vec()), Ok(5));
}

#[test]
fn attempt_score_rejects_other_lengths() {
    let g = session(&["RADAR", "HOUSE"], 0, 4);
    assert_eq!(
        g.get_attempt_score(&b"RAD".to_vec()),
        Err(GameError::IndexOutOfRange)
    );
    assert_eq!(
        g.get_attempt_score(&b"RADARS".to_vec()),
        Err(GameError::IndexOutOfRange)
    );
}

#[test]
fn available_choices_excludes_used_words() {
    let mut g = session(&["ALPHA", "BRAVO", "DELTA"], 0, 4);
    g.used_words = words(&["BRAVO"]);
    let c = g.get_available_choices();
    assert_eq!(c.len(), 2);
    assert!(c.contains(&b"ALPHA".to_vec()));
    assert!(c.contains(&b"DELTA".to_vec()));
}

#[test]
fn eliminate_never_returns_target_or_used() {
    let mut g = session(&["ALPHA", "BRAVO", "DELTA"], 0, 4);
    let first = g.remove_choice().expect("two words are eliminable");
    assert_ne!(first, b"ALPHA".to_vec());
    assert!(g.used_words.contains(&first));

    let second = g.remove_choice().expect("one word is still eliminable");
    assert_ne!(second, b"ALPHA".to_vec());
    assert_ne!(second, first);

    // nothing is left beside the target
    assert_eq!(g.remove_choice(), Err(GameError::EmptyChoice));
    assert_eq!(g.used_words.len(), 2);
    assert!(!g.won);
    assert_eq!(g.tries, 4);
}

#[test]
fn random_target_comes_from_the_list() {
    let list = words(&["ALPHA", "BRAVO", "DELTA"]);
    let g = GameState::new_with_random_target(list.clone(), 4);
    assert!(list.contains(&g.target_word));
    assert_eq!(g.tries, 4);
    assert!(!g.won);
    assert!(!g.exit);
}

#[test]
fn clickable_reward_is_one_of_two() {
    let r = GameState::random_clickable_reward();
    assert!(matches!(
        r,
        robco_backdoor::game::ClickableReward::ResetAttempts
            | robco_backdoor::game::ClickableReward::RemoveWord
    ));
}
