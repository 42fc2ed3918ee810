use hangman::engine::GameState;

#[test]
fn game_state_game_win_flow() {
    let mut state = GameState::new(b"alpaca".to_vec());

    // Correct guess
    let indexes = state.handle_guess(b'A');
    assert_eq!(indexes.len(), 3);
    assert_eq!(indexes, &[0, 3, 5]);

    // One wrong guess
    let indexes = state.handle_guess(b's');
    assert!(indexes.is_empty());

    // Correct guess
    let indexes = state.handle_guess(b'p');
    assert_eq!(indexes.len(), 1);
    assert_eq!(indexes, &[2]);

    // Correct guess
    let indexes = state.handle_guess(b'c');
    assert_eq!(indexes.len(), 1);
    assert_eq!(indexes, &[4]);

    // Sanity check
    assert!(!state.player_won());
    assert!(state.is_running());

    // Correct guess
    let indexes = state.handle_guess(b'l');
    assert_eq!(indexes.len(), 1);
    assert_eq!(indexes, &[1]);

    assert!(state.player_won());
    assert!(!state.is_running());
}

#[test]
fn game_state_game_lose_flow() {
    let mut state = GameState::new(b"alpaca".to_vec());

    // Correct guess
    state.handle_guess(b'a');

    // 5 wrong guesses
    for _ in 0..5 {
        state.handle_guess(b's');
    }

    // Sanity check
    assert!(!state.player_lost());
    assert!(state.is_running());

    // 6th wrong guess
    state.handle_guess(b's');

    assert!(state.player_lost());
    assert!(!state.is_running());
}

#[test]
fn word_len_reports_length() {
    let state = GameState::new(b"alpaca".to_vec());
    assert_eq!(state.word_len(), 6);
}

#[test]
fn reguess_returns_same_indexes_without_penalty() {
    let mut state = GameState::new(b"alpaca".to_vec());
    let first = state.handle_guess(b'a');
    assert_eq!(first, &[0, 3, 5]);
    let again = state.handle_guess(b'a');
    assert_eq!(again, &[0, 3, 5]);
    assert!(!state.player_lost());
    assert!(state.is_running());
    // No life was taken by the repeat: five misses are still needed
    // before the game comes close to being lost.
    for _ in 0..5 {
        state.handle_guess(b'z');
    }
    assert!(!state.player_lost());
    state.handle_guess(b'z');
    assert!(state.player_lost());
}

#[test]
fn non_alphabetic_guess_never_matches() {
    let mut state = GameState::new(b"alpaca".to_vec());
    let indexes = state.handle_guess(b'!');
    assert!(indexes.is_empty());
    assert!(state.is_running());
}
