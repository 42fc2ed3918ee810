use hangman::mirror::GameState;

#[test]
fn game_win_flow() {
    let mut state = GameState::with_word_len(6);

    // Correct guess
    let guess_result = state.handle_guess_result(b'a', &[0, 3, 5]);
    assert!(guess_result);
    assert_eq!(state.display_word(), "a__a_a");
    assert_eq!(state.lives_left, 5);

    let guess_result = state.handle_guess_result(b'b', &[]);
    assert!(!guess_result);
    assert_eq!(state.display_word(), "a__a_a");
    assert_eq!(state.lives_left, 4);

    // Correct guess
    let guess_result = state.handle_guess_result(b'p', &[2]);
    assert!(guess_result);
    assert_eq!(state.display_word(), "a_pa_a");

    // Correct guess
    let guess_result = state.handle_guess_result(b'l', &[1]);
    assert!(guess_result);
    assert_eq!(state.display_word(), "alpa_a");

    // Sanity check
    assert!(state.is_running());

    // Correct guess
    let guess_result = state.handle_guess_result(b'c', &[4]);
    assert!(guess_result);
    assert_eq!(state.display_word(), "alpaca");

    assert!(state.player_won());
    assert!(!state.is_running());
}

#[test]
fn game_lose_flow() {
    let mut state = GameState::with_word_len(6);

    // Correct guess
    let guess_result = state.handle_guess_result(b'a', &[0, 3, 5]);
    assert!(guess_result);

    // 5 wrong guesses
    for i in 0..5 {
        let guess_result = state.handle_guess_result(b's', &[]);
        assert!(!guess_result);
        assert_eq!(state.lives_left, 5 - (i + 1));
    }

    // Sanity check
    assert!(!state.player_lost());
    assert!(state.is_running());

    // 6th wrong guess
    let guess_result = state.handle_guess_result(b's', &[]);
    assert!(!guess_result);

    assert!(state.player_lost());
    assert!(!state.is_running());
}

#[test]
fn guess_log_is_comma_joined() {
    let mut state = GameState::with_word_len(3);
    assert_eq!(state.all_guesses(), "");
    state.handle_guess_result(b'a', &[0]);
    assert_eq!(state.all_guesses(), "a");
    state.handle_guess_result(b'z', &[]);
    state.handle_guess_result(b'c', &[2]);
    assert_eq!(state.all_guesses(), "a, z, c");
}

#[test]
fn out_of_range_index_reveals_nothing() {
    let mut state = GameState::with_word_len(3);
    // An index past the word still counts as a correct guess but
    // cannot reveal a position.
    let guess_result = state.handle_guess_result(b'x', &[7]);
    assert!(guess_result);
    assert_eq!(state.display_word(), "___");
    assert_eq!(state.lives_left, 5);
}

#[test]
fn fresh_mirror_shows_placeholders() {
    let state = GameState::with_word_len(4);
    assert_eq!(state.display_word(), "____");
    assert_eq!(state.lives_left, 5);
    assert!(state.is_running());
    assert!(!state.player_won());
    assert!(!state.player_lost());
}

#[test]
fn single_letter_word_win() {
    let mut state = GameState::with_word_len(1);
    let guess_result = state.handle_guess_result(b'q', &[0]);
    assert!(guess_result);
    assert_eq!(state.display_word(), "q");
    assert!(state.player_won());
    assert!(!state.player_lost());
}
