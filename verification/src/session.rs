//! The session orchestrators' decision logic, one state machine per
//! side. Each machine is stepped with the event the transport
//! delivered and answers the action to perform next; every channel
//! read and write stays with the caller, so a game's whole course is
//! decided here.

use vstd::prelude::*;
use crate::codec;
use crate::engine;
use crate::mirror;

verus! {

/// A well-formed input line is exactly one ASCII byte; anything else
/// is rejected locally and never reaches the wire.
pub open spec fn spec_parse_guess(line: Seq<u8>) -> Option<u8> {
    if line.len() == 1 && line[0] < 128 {
        Some(line[0])
    } else {
        None
    }
}

pub fn parse_guess(line: &[u8]) -> (r: Option<u8>)
    ensures
        r == spec_parse_guess(line@),
{
    if line.len() == 1 && line[0] < 128 {
        Some(line[0])
    } else {
        None
    }
}

pub enum ServerPhase {
    AwaitingConnection,
    HandshakeSent,
    GuessLoop,
    Closed,
}

pub enum ServerEvent {
    PeerConnected,
    HandshakeWritten,
    GuessReceived(u8),
    ChannelFailed,
}

pub enum ServerAction {
    SendHandshake(Vec<u8>),
    AwaitGuess,
    SendReply(Vec<u8>),
    Close,
}

/// The authoritative side of one session: the engine plus the phase
/// of the connection's life cycle.
pub struct ServerSession {
    pub phase: ServerPhase,
    pub game: engine::GameState,
}

impl ServerSession {
    pub open spec fn wf(self) -> bool {
        &&& self.game.wf()
        &&& (self.phase is GuessLoop ==> engine::spec_running(
            self.game.word(),
            self.game.guessed(),
            self.game.lives(),
        ))
        &&& !(engine::spec_won(self.game.word(), self.game.guessed()) && engine::spec_lost(
            self.game.lives(),
        ))
    }

    pub fn new(word: Vec<u8>) -> (s: ServerSession)
        requires
            1 <= word@.len() <= 255,
        ensures
            s.wf(),
            s.phase is AwaitingConnection,
            s.game.word() == word@,
            s.game.guessed() == Set::<u8>::empty(),
            s.game.lives() == 5,
    {
        ServerSession { phase: ServerPhase::AwaitingConnection, game: engine::GameState::new(word) }
    }

    /// Drives the session one event forward: answer the handshake on
    /// connection, score each received guess and encode the reply,
    /// leave the guess loop the moment the game is over, and close on
    /// any channel failure.
    pub fn step(&mut self, event: ServerEvent) -> (action: ServerAction)
        requires
            old(self).wf(),
            (match event {
                ServerEvent::PeerConnected => old(self).phase is AwaitingConnection,
                ServerEvent::HandshakeWritten => old(self).phase is HandshakeSent,
                ServerEvent::GuessReceived(_) => old(self).phase is GuessLoop,
                ServerEvent::ChannelFailed => true,
            }),
        ensures
            final(self).wf(),
            final(self).game.word() == old(self).game.word(),
            (match event {
                ServerEvent::PeerConnected => {
                    &&& final(self).phase is HandshakeSent
                    &&& final(self).game == old(self).game
                    &&& (action matches ServerAction::SendHandshake(h) && h@ == seq![
                        old(self).game.word().len() as u8,
                    ])
                },
                ServerEvent::HandshakeWritten => {
                    &&& final(self).game == old(self).game
                    &&& if engine::spec_running(
                        old(self).game.word(),
                        old(self).game.guessed(),
                        old(self).game.lives(),
                    ) {
                        final(self).phase is GuessLoop && action is AwaitGuess
                    } else {
                        final(self).phase is Closed && action is Close
                    }
                },
                ServerEvent::GuessReceived(g) => {
                    &&& final(self).game.guessed() == engine::step_guessed(
                        old(self).game.word(),
                        old(self).game.guessed(),
                        g,
                    )
                    &&& final(self).game.lives() == engine::step_lives(
                        old(self).game.word(),
                        old(self).game.lives(),
                        g,
                    )
                    &&& (action matches ServerAction::SendReply(reply) && reply@
                        == codec::spec_encode_response(
                        engine::match_indexes(old(self).game.word(), engine::spec_fold(g)),
                    ))
                    &&& (final(self).phase is GuessLoop <==> engine::spec_running(
                        final(self).game.word(),
                        final(self).game.guessed(),
                        final(self).game.lives(),
                    ))
                    &&& (final(self).phase is GuessLoop || final(self).phase is Closed)
                },
                ServerEvent::ChannelFailed => {
                    &&& final(self).phase is Closed
                    &&& final(self).game == old(self).game
                    &&& action is Close
                },
            }),
    {
        match event {
            ServerEvent::PeerConnected => {
                let len = self.game.word_len();
                self.phase = ServerPhase::HandshakeSent;
                let mut h: Vec<u8> = Vec::new();
                h.push(len);
                proof {
                    assert(h@ =~= seq![old(self).game.word().len() as u8]);
                }
                ServerAction::SendHandshake(h)
            },
            ServerEvent::HandshakeWritten => {
                if self.game.is_running() {
                    self.phase = ServerPhase::GuessLoop;
                    ServerAction::AwaitGuess
                } else {
                    self.phase = ServerPhase::Closed;
                    ServerAction::Close
                }
            },
            ServerEvent::GuessReceived(g) => {
                proof {
                    self.game.lemma_wf_properties();
                    engine::lemma_match_indexes_spec(
                        self.game.word(),
                        engine::spec_fold(g),
                    );
                    engine::lemma_terminal_exclusive_step(
                        self.game.word(),
                        self.game.guessed(),
                        self.game.lives(),
                        g,
                    );
                }
                let indexes = self.game.handle_guess(g);
                let reply = codec::encode_guess_response(&indexes);
                if self.game.is_running() {
                    self.phase = ServerPhase::GuessLoop;
                } else {
                    self.phase = ServerPhase::Closed;
                }
                ServerAction::SendReply(reply)
            },
            ServerEvent::ChannelFailed => {
                self.phase = ServerPhase::Closed;
                ServerAction::Close
            },
        }
    }
}

pub enum ClientPhase {
    Prompting,
    AwaitingResponse(u8),
    Finished,
}

pub enum ClientAction {
    SendGuess(Vec<u8>),
    RejectInput,
    Applied(bool),
    Stop,
}

/// The peer side of one session: the mirror plus the phase of the
/// interactive loop. It exists only once a handshake byte arrived.
pub struct ClientSession {
    pub phase: ClientPhase,
    pub game: mirror::GameState,
}

impl ClientSession {
    pub open spec fn wf(self) -> bool {
        &&& self.game.wf()
        &&& ((self.phase is Prompting || self.phase matches ClientPhase::AwaitingResponse(_))
            ==> (!mirror::spec_all_revealed(self.game.revealed_map()) && !engine::spec_lost(
            self.game.lives_left,
        )))
        &&& !(mirror::spec_all_revealed(self.game.revealed_map()) && engine::spec_lost(
            self.game.lives_left,
        ))
    }

    /// Builds the session from the handshake's word length. A length
    /// of zero breaks the protocol and yields no session.
    pub fn start(word_len: u8) -> (r: Option<ClientSession>)
        ensures
            r is Some <==> word_len >= 1,
            (r matches Some(s) ==> {
                &&& s.wf()
                &&& s.phase is Prompting
                &&& s.game.word_len == word_len
                &&& s.game.lives_left == 5
                &&& s.game.history() == Seq::<u8>::empty()
                &&& s.game.revealed_map() == Seq::new(word_len as nat, |p: int| None::<u8>)
            }),
    {
        if word_len == 0 {
            return None;
        }
        let game = mirror::GameState::with_word_len(word_len);
        proof {
            assert(!mirror::spec_all_revealed(game.revealed_map())) by {
                assert(game.revealed_map()[0] is None);
            }
        }
        Some(ClientSession { phase: ClientPhase::Prompting, game })
    }

    /// Judges one line of user input: a single ASCII byte becomes the
    /// next guess and goes on the wire, anything else is rejected
    /// locally and the prompt repeated.
    pub fn on_input(&mut self, line: &[u8]) -> (action: ClientAction)
        requires
            old(self).wf(),
            old(self).phase is Prompting,
        ensures
            final(self).wf(),
            final(self).game == old(self).game,
            (match spec_parse_guess(line@) {
                Some(g) => {
                    &&& final(self).phase == ClientPhase::AwaitingResponse(g)
                    &&& (action matches ClientAction::SendGuess(m) && m@ == seq![g])
                },
                None => {
                    &&& final(self).phase is Prompting
                    &&& action is RejectInput
                },
            }),
    {
        match parse_guess(line) {
            Some(g) => {
                self.phase = ClientPhase::AwaitingResponse(g);
                let mut m: Vec<u8> = Vec::new();
                m.push(g);
                proof {
                    assert(m@ =~= seq![g]);
                }
                ClientAction::SendGuess(m)
            },
            None => ClientAction::RejectInput,
        }
    }

    /// Applies the reply to the pending guess: a well-formed response
    /// feeds the mirror and reports whether the guess was correct; a
    /// malformed one ends the session.
    pub fn on_response(&mut self, buf: &Vec<u8>) -> (action: ClientAction)
        requires
            old(self).wf(),
            old(self).phase matches ClientPhase::AwaitingResponse(_),
        ensures
            final(self).wf(),
            final(self).game.word_len == old(self).game.word_len,
            (match codec::spec_decode_response(buf@) {
                Some(indexes) => (old(self).phase matches ClientPhase::AwaitingResponse(g) ==> {
                    &&& final(self).game.history() == old(self).game.history().push(g)
                    &&& final(self).game.revealed_map() == mirror::spec_apply_revealed(
                        old(self).game.revealed_map(),
                        indexes,
                        g,
                    )
                    &&& final(self).game.lives_left == (if indexes.len() > 0 {
                        old(self).game.lives_left
                    } else {
                        engine::spec_dec_lives(old(self).game.lives_left)
                    })
                    &&& action == ClientAction::Applied(indexes.len() > 0)
                    &&& (final(self).phase is Prompting <==> (!mirror::spec_all_revealed(
                        final(self).game.revealed_map(),
                    ) && !engine::spec_lost(final(self).game.lives_left)))
                    &&& (final(self).phase is Prompting || final(self).phase is Finished)
                }),
                None => {
                    &&& final(self).phase is Finished
                    &&& final(self).game == old(self).game
                    &&& action is Stop
                },
            }),
    {
        let g = match self.phase {
            ClientPhase::AwaitingResponse(g) => g,
            _ => 0,
        };
        match codec::decode_guess_response(buf) {
            Some(indexes) => {
                proof {
                    mirror::lemma_mirror_terminal_exclusive(
                        self.game.revealed_map(),
                        self.game.lives_left,
                        indexes@,
                        g,
                    );
                }
                let correct = self.game.handle_guess_result(g, indexes.as_slice());
                if self.game.is_running() {
                    self.phase = ClientPhase::Prompting;
                } else {
                    self.phase = ClientPhase::Finished;
                }
                ClientAction::Applied(correct)
            },
            None => {
                self.phase = ClientPhase::Finished;
                ClientAction::Stop
            },
        }
    }

    /// A failed channel ends the session; the mirror keeps its last
    /// state for the final report.
    pub fn on_failure(&mut self) -> (action: ClientAction)
        requires
            old(self).wf(),
        ensures
            final(self).wf(),
            final(self).game == old(self).game,
            final(self).phase is Finished,
            action is Stop,
    {
        self.phase = ClientPhase::Finished;
        ClientAction::Stop
    }
}

/// The mirror's reveal buffer after it has consumed, for each guess in
/// order, exactly the index list the engine answered for that guess.
pub open spec fn mirror_revealed_after(word: Seq<u8>, guesses: Seq<u8>) -> Seq<Option<u8>>
    decreases guesses.len(),
{
    if guesses.len() == 0 {
        Seq::new(word.len(), |p: int| None::<u8>)
    } else {
        mirror::spec_apply_revealed(
            mirror_revealed_after(word, guesses.drop_last()),
            engine::match_indexes(word, engine::spec_fold(guesses.last())),
            guesses.last(),
        )
    }
}

/// Law: fed exactly the engine's responses, the mirror marks a
/// position revealed precisely when the engine has revealed it, for
/// every guess sequence.
pub proof fn lemma_mirror_tracks_engine(word: Seq<u8>, guesses: Seq<u8>)
    requires
        word.len() <= 255,
    ensures
        mirror_revealed_after(word, guesses).len() == word.len(),
        forall|p: int|
            0 <= p < word.len() ==> ((#[trigger] mirror_revealed_after(word, guesses)[p]) is Some
                <==> engine::revealed_after(word, guesses).contains(p as u8)),
    decreases guesses.len(),
{
    if guesses.len() > 0 {
        lemma_mirror_tracks_engine(word, guesses.drop_last());
    }
}

/// Law: the two sides derive the win verdict in lockstep. For a
/// case-folded word, the mirror sees every position revealed exactly
/// when every letter of the word is in the engine's guessed set,
/// though the mirror never held the word. The loss verdict agrees by
/// construction: both sides count the same lives down on the same
/// empty index lists.
pub proof fn lemma_win_verdict_lockstep(word: Seq<u8>, guesses: Seq<u8>)
    requires
        1 <= word.len() <= 255,
        forall|i: int| 0 <= i < word.len() ==> engine::spec_fold(#[trigger] word[i]) == word[i],
    ensures
        mirror::spec_all_revealed(mirror_revealed_after(word, guesses)) <==> engine::spec_won(
            word,
            engine::guessed_after(word, Set::empty(), guesses),
        ),
{
    lemma_mirror_tracks_engine(word, guesses);
    engine::lemma_revealed_positions(word, guesses);
    let rev = mirror_revealed_after(word, guesses);
    let gs = engine::guessed_after(word, Set::empty(), guesses);
    if mirror::spec_all_revealed(rev) {
        assert forall|p: int| 0 <= p < word.len() implies gs.contains(#[trigger] word[p]) by {
            assert(rev[p] is Some);
        }
    }
    if engine::spec_won(word, gs) {
        assert forall|p: int| 0 <= p < rev.len() implies (#[trigger] rev[p]) is Some by {
            assert(gs.contains(word[p]));
        }
    }
}

} // verus!
