//! The client's connect phase: a bounded run of handshake requests, one per
//! waiting period, until the server acknowledges one of them.

use crate::handshake_data::{
    ack_label, handshake_bytes, lemma_response_decode_encode, parse_response, HandshakeData,
    HandshakeDataView, HandshakeResponse, HandshakeResponseView,
};
use crate::server::ack_for;
use crate::wire::u32_be;
use vstd::prelude::*;

verus! {

/// How many requests a client sends before it gives up.
pub const MAX_HANDSHAKE_ATTEMPTS: usize = 15;

/// How long a client waits for the answer to one request, in milliseconds.
pub const HANDSHAKE_TIMEOUT_MS: u64 = 2000;

/// Where a connect phase stands.
#[derive(Debug, Clone, Copy, PartialEq, Eq, Structural)]
pub enum ConnectPhase {
    /// Requests are being sent; no matching answer has arrived.
    Connecting,
    /// A matching answer arrived; the session is set up.
    Connected,
    /// Every request went unanswered; session setup is aborted.
    Failed,
}

/// What the caller is to do next.
#[derive(Debug)]
pub enum ConnectAction {
    /// Send these bytes to the server, then wait for a datagram for up to
    /// [`HANDSHAKE_TIMEOUT_MS`].
    Send(Vec<u8>),
    /// Go on waiting for the rest of the current period.
    Wait,
    /// Stop: the connection stands.
    Connected,
    /// Stop: the connect phase failed.
    Failed,
}

/// The mathematical content of a [`ConnectAction`].
pub enum ConnectActionView {
    Send(Seq<u8>),
    Wait,
    Connected,
    Failed,
}

impl View for ConnectAction {
    type V = ConnectActionView;

    open spec fn view(&self) -> ConnectActionView {
        match self {
            ConnectAction::Send(bytes) => ConnectActionView::Send(bytes@),
            ConnectAction::Wait => ConnectActionView::Wait,
            ConnectAction::Connected => ConnectActionView::Connected,
            ConnectAction::Failed => ConnectActionView::Failed,
        }
    }
}

/// A client's connect phase.
#[derive(Debug)]
pub struct ClientHandshake {
    player_number: u8,
    character_selection: String,
    player_name: String,
    sent_at: Vec<u64>,
    phase: ConnectPhase,
    round_trip_ms: u64,
}

/// The mathematical content of a [`ClientHandshake`]. Request number `k`
/// was sent at `sent_at[k]` and carries packet number `k`.
pub struct ConnectView {
    pub player_number: u8,
    pub character_selection: Seq<char>,
    pub player_name: Seq<char>,
    pub sent_at: Seq<u64>,
    pub phase: ConnectPhase,
    pub round_trip_ms: u64,
}

impl View for ClientHandshake {
    type V = ConnectView;

    closed spec fn view(&self) -> ConnectView {
        ConnectView {
            player_number: self.player_number,
            character_selection: self.character_selection@,
            player_name: self.player_name@,
            sent_at: self.sent_at@,
            phase: self.phase,
            round_trip_ms: self.round_trip_ms,
        }
    }
}

/// The request with packet number `packet_number`.
pub open spec fn request_for(s: ConnectView, packet_number: u8) -> Seq<u8> {
    handshake_bytes(
        HandshakeDataView {
            tick: 0,
            player_number: s.player_number,
            packet_number,
            character_selection: s.character_selection,
            player_name: s.player_name,
        },
    )
}

/// The action that says where a finished connect phase ended.
pub open spec fn verdict(phase: ConnectPhase) -> ConnectActionView {
    match phase {
        ConnectPhase::Connecting => ConnectActionView::Wait,
        ConnectPhase::Connected => ConnectActionView::Connected,
        ConnectPhase::Failed => ConnectActionView::Failed,
    }
}

/// The time from `sent` to `now`; zero if the clock went back.
pub open spec fn elapsed(sent: u64, now: u64) -> u64 {
    if now >= sent {
        (now - sent) as u64
    } else {
        0
    }
}

/// Whether a datagram answers one of the requests sent so far: it is an
/// acknowledgement for this client's player number and for a packet number
/// that was used.
pub open spec fn acknowledges(s: ConnectView, data: Seq<u8>) -> bool {
    parse_response(data) matches Some(answer) && answer.player_number == s.player_number
        && answer.packet_number < s.sent_at.len()
}

/// The step taken when a waiting period ends, or at the very start: the next
/// request goes out while the budget lasts; after the last period the phase
/// fails. A finished phase stays as it is.
pub open spec fn after_timeout(s: ConnectView, now: u64) -> (ConnectView, ConnectActionView) {
    if s.phase != ConnectPhase::Connecting {
        (s, verdict(s.phase))
    } else if s.sent_at.len() < MAX_HANDSHAKE_ATTEMPTS {
        (
            ConnectView { sent_at: s.sent_at.push(now), ..s },
            ConnectActionView::Send(request_for(s, s.sent_at.len() as u8)),
        )
    } else {
        (ConnectView { phase: ConnectPhase::Failed, ..s }, ConnectActionView::Failed)
    }
}

/// The step taken when a datagram arrives: an answer to one of the requests
/// completes the phase and measures the round trip of that request; anything
/// else is passed over. A finished phase stays as it is.
pub open spec fn after_datagram(s: ConnectView, data: Seq<u8>, now: u64) -> (
    ConnectView,
    ConnectActionView,
) {
    if s.phase != ConnectPhase::Connecting {
        (s, verdict(s.phase))
    } else if acknowledges(s, data) {
        let answered = parse_response(data)->0.packet_number as int;
        (
            ConnectView {
                phase: ConnectPhase::Connected,
                round_trip_ms: elapsed(s.sent_at[answered], now),
                ..s
            },
            ConnectActionView::Connected,
        )
    } else {
        (s, ConnectActionView::Wait)
    }
}

impl ClientHandshake {
    /// Whether no more requests were sent than the budget allows.
    pub open spec fn wf(&self) -> bool {
        self@.sent_at.len() <= MAX_HANDSHAKE_ATTEMPTS
    }

    /// A connect phase for the given player, with nothing sent yet.
    pub fn new(player_number: u8, character_selection: &str, player_name: &str) -> (s: Self)
        ensures
            s.wf(),
            s@ == (ConnectView {
                player_number,
                character_selection: character_selection@,
                player_name: player_name@,
                sent_at: Seq::<u64>::empty(),
                phase: ConnectPhase::Connecting,
                round_trip_ms: 0,
            }),
    {
        ClientHandshake {
            player_number,
            character_selection: character_selection.to_owned(),
            player_name: player_name.to_owned(),
            sent_at: Vec::new(),
            phase: ConnectPhase::Connecting,
            round_trip_ms: 0,
        }
    }

    /// Where the phase stands.
    pub fn phase(&self) -> (p: ConnectPhase)
        ensures
            p == self@.phase,
    {
        self.phase
    }

    /// The number of requests sent so far.
    pub fn attempts(&self) -> (n: usize)
        ensures
            n == self@.sent_at.len(),
    {
        self.sent_at.len()
    }

    /// The round trip of the request that was answered, in milliseconds;
    /// zero until the phase is connected.
    pub fn round_trip_ms(&self) -> (ms: u64)
        ensures
            ms == self@.round_trip_ms,
    {
        self.round_trip_ms
    }

    /// To be called at the start and whenever a waiting period ended without
    /// a datagram. `now` is the caller's clock in milliseconds.
    pub fn on_timeout(&mut self, now: u64) -> (action: ConnectAction)
        requires
            old(self).wf(),
        ensures
            final(self).wf(),
            (final(self)@, action@) == after_timeout(old(self)@, now),
    {
        match self.phase {
            ConnectPhase::Connected => ConnectAction::Connected,
            ConnectPhase::Failed => ConnectAction::Failed,
            ConnectPhase::Connecting => {
                let sent = self.sent_at.len();
                if sent < MAX_HANDSHAKE_ATTEMPTS {
                    let request = HandshakeData::new(
                        sent as u8,
                        0,
                        self.player_number,
                        self.character_selection.as_str(),
                        self.player_name.as_str(),
                    );
                    self.sent_at.push(now);
                    ConnectAction::Send(request.encode())
                } else {
                    self.phase = ConnectPhase::Failed;
                    ConnectAction::Failed
                }
            },
        }
    }

    /// To be called with each datagram that arrives during the phase. `now`
    /// is the caller's clock in milliseconds.
    pub fn on_datagram(&mut self, data: &[u8], now: u64) -> (action: ConnectAction)
        requires
            old(self).wf(),
        ensures
            final(self).wf(),
            (final(self)@, action@) == after_datagram(old(self)@, data@, now),
    {
        match self.phase {
            ConnectPhase::Connected => ConnectAction::Connected,
            ConnectPhase::Failed => ConnectAction::Failed,
            ConnectPhase::Connecting => {
                match HandshakeResponse::decode(data) {
                    Some(answer) => {
                        let k = answer.packet_number as usize;
                        if answer.player_number == self.player_number && k < self.sent_at.len() {
                            let sent = self.sent_at[k];
                            self.round_trip_ms = if now >= sent {
                                now - sent
                            } else {
                                0
                            };
                            self.phase = ConnectPhase::Connected;
                            ConnectAction::Connected
                        } else {
                            ConnectAction::Wait
                        }
                    },
                    None => ConnectAction::Wait,
                }
            },
        }
    }
}

/// Neither step ever sends more requests than the budget allows, and each
/// request carries the next unused packet number.
pub proof fn lemma_attempts_bounded(s: ConnectView, data: Seq<u8>, now: u64)
    requires
        s.sent_at.len() <= MAX_HANDSHAKE_ATTEMPTS,
    ensures
        after_timeout(s, now).0.sent_at.len() <= MAX_HANDSHAKE_ATTEMPTS,
        after_datagram(s, data, now).0.sent_at == s.sent_at,
        after_timeout(s, now).1 is Send ==> after_timeout(s, now).0.sent_at.len() == s.sent_at.len()
            + 1,
        !(after_datagram(s, data, now).1 is Send),
{
}

/// A phase that is connected or failed is never left again.
pub proof fn lemma_finished_phase_stays(s: ConnectView, data: Seq<u8>, now: u64)
    requires
        s.phase != ConnectPhase::Connecting,
    ensures
        after_timeout(s, now) == (s, verdict(s.phase)),
        after_datagram(s, data, now) == (s, verdict(s.phase)),
{
}

/// The phase fails exactly when a waiting period ends with the whole budget
/// spent and no answer accepted; a datagram never makes it fail.
pub proof fn lemma_fails_only_when_exhausted(s: ConnectView, data: Seq<u8>, now: u64)
    requires
        s.phase == ConnectPhase::Connecting,
        s.sent_at.len() <= MAX_HANDSHAKE_ATTEMPTS,
    ensures
        after_timeout(s, now).0.phase == ConnectPhase::Failed <==> s.sent_at.len()
            == MAX_HANDSHAKE_ATTEMPTS,
        after_timeout(s, now).0.phase != ConnectPhase::Connected,
        after_datagram(s, data, now).0.phase != ConnectPhase::Failed,
        after_datagram(s, data, now).0.phase == ConnectPhase::Connected <==> acknowledges(s, data),
{
}

/// The server's acknowledgement of any request sent so far completes the
/// phase and measures the round trip of that request.
pub proof fn lemma_echo_is_accepted(s: ConnectView, packet_number: u8, now: u64)
    requires
        s.phase == ConnectPhase::Connecting,
        packet_number < s.sent_at.len(),
    ensures
        acknowledges(s, ack_for(request_for(s, packet_number))),
        after_datagram(s, ack_for(request_for(s, packet_number)), now).0.phase
            == ConnectPhase::Connected,
        after_datagram(s, ack_for(request_for(s, packet_number)), now).0.round_trip_ms == elapsed(
            s.sent_at[packet_number as int],
            now,
        ),
{
    let request = request_for(s, packet_number);
    assert(request[4] == s.player_number && request[5] == packet_number) by {
        assert(u32_be(0).len() == 4);
    }
    lemma_response_decode_encode(
        HandshakeResponseView { label: ack_label(), player_number: s.player_number, packet_number },
    );
}

} // verus!
