use hangman::codec::decode_active_count;
use hangman::codec::decode_guess_response;
use hangman::codec::encode_active_count;
use hangman::codec::encode_guess_response;
use hangman::session::parse_guess;
use hangman::session::ClientAction;
use hangman::session::ClientSession;
use hangman::session::ServerAction;
use hangman::session::ServerEvent;
use hangman::session::ServerSession;

#[test]
fn response_roundtrip_three_indexes() {
    let indexes: Vec<u8> = vec![0, 3, 5];
    let encoded = encode_guess_response(&indexes);
    assert_eq!(encoded, vec![3, 0, 3, 5]);
    let decoded = decode_guess_response(&encoded);
    assert_eq!(decoded, Some(vec![0, 3, 5]));
}

#[test]
fn response_roundtrip_empty() {
    let indexes: Vec<u8> = vec![];
    let encoded = encode_guess_response(&indexes);
    assert_eq!(encoded, vec![0]);
    assert_eq!(decode_guess_response(&encoded), Some(vec![]));
}

#[test]
fn response_decode_rejects_malformed() {
    assert_eq!(decode_guess_response(&vec![]), None);
    // Count byte promises two indexes, only one follows.
    assert_eq!(decode_guess_response(&vec![2, 7]), None);
    // A trailing byte past the promised count.
    assert_eq!(decode_guess_response(&vec![1, 7, 9]), None);
}

#[test]
fn active_count_encoding_is_little_endian() {
    assert_eq!(encode_active_count(1), vec![1, 0, 0, 0]);
    assert_eq!(encode_active_count(0x0102_0304), vec![4, 3, 2, 1]);
    let bytes = encode_active_count(81_920);
    assert_eq!(decode_active_count(&bytes), 81_920);
}

#[test]
fn parse_guess_accepts_one_ascii_byte() {
    assert_eq!(parse_guess(b"a"), Some(b'a'));
    assert_eq!(parse_guess(b"Z"), Some(b'Z'));
    assert_eq!(parse_guess(b""), None);
    assert_eq!(parse_guess(b"ab"), None);
    assert_eq!(parse_guess(&[200]), None);
}

#[test]
fn session_win_flow_in_lockstep() {
    // The two sides play the word in lockstep over an in-memory wire.
    let mut server = ServerSession::new(b"alpaca".to_vec());

    let handshake = match server.step(ServerEvent::PeerConnected) {
        ServerAction::SendHandshake(h) => h,
        _ => panic!("expected a handshake"),
    };
    assert_eq!(handshake, vec![6]);
    match server.step(ServerEvent::HandshakeWritten) {
        ServerAction::AwaitGuess => {}
        _ => panic!("expected the guess loop to begin"),
    }

    let mut client = ClientSession::start(handshake[0]).expect("word length must be positive");

    let script: &[(&[u8], bool, &str, u8)] = &[
        (b"a", true, "a__a_a", 5),
        (b"b", false, "a__a_a", 4),
        (b"p", true, "a_pa_a", 4),
        (b"l", true, "alpa_a", 4),
        (b"c", true, "alpaca", 4),
    ];
    for &(line, expect_correct, expect_display, expect_lives) in script {
        let guess = match client.on_input(line) {
            ClientAction::SendGuess(m) => {
                assert_eq!(m.len(), 1);
                m[0]
            }
            _ => panic!("expected the guess to go on the wire"),
        };
        let reply = match server.step(ServerEvent::GuessReceived(guess)) {
            ServerAction::SendReply(r) => r,
            _ => panic!("expected a reply"),
        };
        match client.on_response(&reply) {
            ClientAction::Applied(correct) => assert_eq!(correct, expect_correct),
            _ => panic!("expected the response to apply"),
        }
        assert_eq!(client.game.display_word(), expect_display);
        assert_eq!(client.game.lives_left, expect_lives);
    }

    // Both sides deduce the same outcome without a closing message.
    assert!(client.game.player_won());
    assert!(!client.game.player_lost());
}

#[test]
fn session_rejects_bad_input_locally() {
    let mut server = ServerSession::new(b"ox".to_vec());
    let handshake = match server.step(ServerEvent::PeerConnected) {
        ServerAction::SendHandshake(h) => h,
        _ => panic!("expected a handshake"),
    };
    let mut client = ClientSession::start(handshake[0]).expect("word length must be positive");
    match client.on_input(b"two") {
        ClientAction::RejectInput => {}
        _ => panic!("a multi-byte line must be rejected before the wire"),
    }
    match client.on_input(b"o") {
        ClientAction::SendGuess(m) => assert_eq!(m, vec![b'o']),
        _ => panic!("a single ASCII byte is a valid guess"),
    }
}

#[test]
fn session_refuses_zero_word_length() {
    assert!(ClientSession::start(0).is_none());
    assert!(ClientSession::start(1).is_some());
}

#[test]
fn session_closes_on_channel_failure() {
    let mut server = ServerSession::new(b"yak".to_vec());
    match server.step(ServerEvent::ChannelFailed) {
        ServerAction::Close => {}
        _ => panic!("a channel failure must close the session"),
    }
}

#[test]
fn full_word_response_fits_the_wire() {
    // The largest transmissible word: every position matches, and the
    // count byte still holds the index count.
    let word: Vec<u8> = vec![b'e'; 255];
    let mut server = ServerSession::new(word);
    server.step(ServerEvent::PeerConnected);
    server.step(ServerEvent::HandshakeWritten);
    let reply = match server.step(ServerEvent::GuessReceived(b'e')) {
        ServerAction::SendReply(r) => r,
        _ => panic!("expected a reply"),
    };
    assert_eq!(reply.len(), 256);
    assert_eq!(reply[0], 255);
    let decoded = decode_guess_response(&reply).expect("the reply decodes");
    assert_eq!(decoded.len(), 255);
    for (i, ix) in decoded.iter().enumerate() {
        assert_eq!(*ix as usize, i);
    }
}
