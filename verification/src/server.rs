//! The server's side of a session: the registry of known peers and the
//! decision taken for each datagram that arrives.

use crate::handshake_data::{
    ack_label, has_handshake_shape, response_bytes, HandshakeData, HandshakeResponse,
    HandshakeResponseView,
};
use crate::input::{input_event, parse_input_packet, RemoteInputEvent, INPUT_FRAME_LEN};
use vstd::prelude::*;

verus! {

/// The number of player slots a session can steer.
pub const SLOT_COUNT: u8 = 2;

/// A peer's socket address as plain data: an IPv4 or IPv6 address with its
/// port, field for field.
#[allow(inconsistent_fields)]
#[derive(Debug, Clone, Copy, PartialEq, Eq, Structural, Hash)]
pub enum Endpoint {
    V4 { ip: u32, port: u16 },
    V6 { ip: u128, port: u16, flowinfo: u32, scope_id: u32 },
}

/// What the server keeps about one peer.
#[derive(Debug, Clone, Copy, PartialEq, Eq, Structural)]
pub struct ClientSession {
    /// The address the peer sends from.
    pub addr: Endpoint,
    /// When the peer's last accepted input arrived, in milliseconds of the
    /// caller's clock.
    pub last_seen: u64,
    /// The player slot the peer steers.
    pub player_number: u8,
    /// The mask of the peer's last accepted input frame.
    pub prev_mask: u8,
}

/// Why a datagram was dropped.
#[derive(Debug, Clone, Copy, PartialEq, Eq, Structural)]
pub enum DropReason {
    /// An input frame from an address that never completed a handshake.
    UnknownSender,
    /// Neither a handshake nor long enough for an input frame.
    Malformed,
}

/// What the caller is to do after a datagram was handled.
#[derive(Debug)]
pub enum ServerAction {
    /// Send these bytes back to the sender.
    Reply(Vec<u8>),
    /// Hand this input to the simulation.
    Apply(RemoteInputEvent),
    /// Nothing; the datagram was dropped.
    Ignore(DropReason),
}

/// The mathematical content of a [`ServerAction`].
pub enum ServerActionView {
    Reply(Seq<u8>),
    Apply(RemoteInputEvent),
    Ignore(DropReason),
}

impl View for ServerAction {
    type V = ServerActionView;

    open spec fn view(&self) -> ServerActionView {
        match self {
            ServerAction::Reply(bytes) => ServerActionView::Reply(bytes@),
            ServerAction::Apply(event) => ServerActionView::Apply(*event),
            ServerAction::Ignore(reason) => ServerActionView::Ignore(*reason),
        }
    }
}

/// The slot a handshake claims: slot 0 for player number 0, slot 1 for any
/// other.
pub open spec fn slot_of(player_number: u8) -> u8 {
    if player_number == 0 {
        0
    } else {
        1
    }
}

/// Whether `sessions` holds one for `addr`.
pub open spec fn knows(sessions: Seq<ClientSession>, addr: Endpoint) -> bool {
    exists|i: int| 0 <= i < sessions.len() && (#[trigger] sessions[i]).addr == addr
}

/// The position of the session for `addr`; meaningful when there is one.
pub open spec fn position_of(sessions: Seq<ClientSession>, addr: Endpoint) -> int {
    choose|i: int| 0 <= i < sessions.len() && (#[trigger] sessions[i]).addr == addr
}

/// The session for `addr`, if there is one.
pub open spec fn lookup(sessions: Seq<ClientSession>, addr: Endpoint) -> Option<ClientSession> {
    if knows(sessions, addr) {
        Some(sessions[position_of(sessions, addr)])
    } else {
        None
    }
}

/// No two sessions share an address.
pub open spec fn distinct_addresses(sessions: Seq<ClientSession>) -> bool {
    forall|i: int, j: int|
        0 <= i < j < sessions.len() ==> (#[trigger] sessions[i]).addr != (
        #[trigger] sessions[j]).addr
}

/// Every session steers one of the player slots.
pub open spec fn slots_in_range(sessions: Seq<ClientSession>) -> bool {
    forall|i: int| 0 <= i < sessions.len() ==> (#[trigger] sessions[i]).player_number < SLOT_COUNT
}

/// What holds of the sessions of every registry: one session per address,
/// one slot per session.
pub open spec fn valid_sessions(sessions: Seq<ClientSession>) -> bool {
    distinct_addresses(sessions) && slots_in_range(sessions)
}

/// The addresses of all sessions, in the order they registered.
pub open spec fn addresses_of(sessions: Seq<ClientSession>) -> Seq<Endpoint> {
    Seq::new(sessions.len(), |i: int| sessions[i].addr)
}

/// The sessions after a handshake from `addr`: a peer that is known keeps its
/// session as it is; an unseen one gets a fresh session behind all others.
pub open spec fn registered(
    sessions: Seq<ClientSession>,
    addr: Endpoint,
    player_number: u8,
    now: u64,
) -> Seq<ClientSession> {
    if knows(sessions, addr) {
        sessions
    } else {
        sessions.push(
            ClientSession {
                addr,
                last_seen: now,
                player_number: slot_of(player_number),
                prev_mask: 0,
            },
        )
    }
}

/// The sessions after an input frame with `mask` from the known peer `addr`
/// was accepted: that peer's previous mask and last-seen time are replaced.
pub open spec fn touched(sessions: Seq<ClientSession>, addr: Endpoint, mask: u8, now: u64) -> Seq<
    ClientSession,
> {
    let i = position_of(sessions, addr);
    sessions.update(i, ClientSession { last_seen: now, prev_mask: mask, ..sessions[i] })
}

/// The acknowledgement of a handshake-shaped datagram: it echoes the
/// request's player number and packet number.
pub open spec fn ack_for(data: Seq<u8>) -> Seq<u8> {
    response_bytes(
        HandshakeResponseView {
            label: ack_label(),
            player_number: data[4],
            packet_number: data[5],
        },
    )
}

/// What becomes of a datagram taken as an input frame: dropped if the sender
/// is unknown or the frame too short, otherwise turned into an event for the
/// sender's slot, with the sender's session brought up to date.
pub open spec fn input_step(
    sessions: Seq<ClientSession>,
    addr: Endpoint,
    data: Seq<u8>,
    now: u64,
) -> (Seq<ClientSession>, Result<RemoteInputEvent, DropReason>) {
    if !knows(sessions, addr) {
        (sessions, Err(DropReason::UnknownSender))
    } else if data.len() < INPUT_FRAME_LEN {
        (sessions, Err(DropReason::Malformed))
    } else {
        let session = sessions[position_of(sessions, addr)];
        (
            touched(sessions, addr, data[4], now),
            Ok(input_event(data[4], session.prev_mask, session.player_number)),
        )
    }
}

/// The server's decision for one datagram. A datagram in the shape of a
/// handshake registers its sender, if unseen, and is always acknowledged.
/// Anything else is taken as an input frame.
pub open spec fn server_step(
    sessions: Seq<ClientSession>,
    addr: Endpoint,
    data: Seq<u8>,
    now: u64,
) -> (Seq<ClientSession>, ServerActionView) {
    if has_handshake_shape(data) {
        (registered(sessions, addr, data[4], now), ServerActionView::Reply(ack_for(data)))
    } else {
        let (after, outcome) = input_step(sessions, addr, data, now);
        (
            after,
            match outcome {
                Ok(event) => ServerActionView::Apply(event),
                Err(reason) => ServerActionView::Ignore(reason),
            },
        )
    }
}

/// The sessions of all peers that completed a handshake, one per address.
#[derive(Debug)]
pub struct ClientRegistry {
    clients: Vec<ClientSession>,
}

impl View for ClientRegistry {
    type V = Seq<ClientSession>;

    closed spec fn view(&self) -> Seq<ClientSession> {
        self.clients@
    }
}

impl ClientRegistry {
    /// Whether the registry holds at most one session per address, each for
    /// one of the player slots.
    pub open spec fn wf(&self) -> bool {
        valid_sessions(self@)
    }

    /// A registry without sessions.
    pub fn new() -> (r: Self)
        ensures
            r@ == Seq::<ClientSession>::empty(),
            r.wf(),
    {
        ClientRegistry { clients: Vec::new() }
    }

    /// The number of sessions.
    pub fn len(&self) -> (n: usize)
        ensures
            n == self@.len(),
    {
        self.clients.len()
    }

    /// Whether any peer has registered.
    pub fn has_clients(&self) -> (b: bool)
        ensures
            b == (self@.len() > 0),
    {
        self.clients.len() > 0
    }

    /// Where the session for `addr` stands, if there is one.
    fn find(&self, addr: Endpoint) -> (r: Option<usize>)
        ensures
            r is Some <==> knows(self@, addr),
            r matches Some(i) ==> i < self@.len() && self@[i as int].addr == addr,
    {
        let mut i: usize = 0;
        while i < self.clients.len()
            invariant
                i <= self.clients@.len(),
                forall|k: int| 0 <= k < i ==> (#[trigger] self.clients@[k]).addr != addr,
            decreases self.clients@.len() - i,
        {
            if self.clients[i].addr == addr {
                return Some(i);
            }
            i += 1;
        }
        None
    }

    /// The session for `addr`, if there is one.
    pub fn session(&self, addr: Endpoint) -> (r: Option<ClientSession>)
        requires
            self.wf(),
        ensures
            r == lookup(self@, addr),
    {
        match self.find(addr) {
            Some(i) => {
                proof {
                    lemma_position_of(self@, addr, i as int);
                }
                Some(self.clients[i])
            },
            None => None,
        }
    }

    /// The addresses a broadcast goes to: one per session, in the order the
    /// sessions registered.
    pub fn addresses(&self) -> (addrs: Vec<Endpoint>)
        ensures
            addrs@ == addresses_of(self@),
    {
        let mut addrs: Vec<Endpoint> = Vec::with_capacity(self.clients.len());
        let mut i: usize = 0;
        while i < self.clients.len()
            invariant
                i <= self.clients@.len(),
                addrs@.len() == i,
                forall|k: int| 0 <= k < i ==> addrs@[k] == self.clients@[k].addr,
            decreases self.clients@.len() - i,
        {
            addrs.push(self.clients[i].addr);
            i += 1;
        }
        assert(addrs@ =~= addresses_of(self@));
        addrs
    }

    /// Registers the sender of a handshake. An unseen address gets a session
    /// for the slot its player number claims; a known one keeps its session.
    /// Returns whether a session was added.
    pub fn register(&mut self, addr: Endpoint, player_number: u8, now: u64) -> (added: bool)
        requires
            old(self).wf(),
        ensures
            final(self).wf(),
            final(self)@ == registered(old(self)@, addr, player_number, now),
            added == !knows(old(self)@, addr),
            knows(final(self)@, addr),
    {
        match self.find(addr) {
            Some(_) => false,
            None => {
                let slot: u8 = if player_number == 0 {
                    0
                } else {
                    1
                };
                self.clients.push(
                    ClientSession { addr, last_seen: now, player_number: slot, prev_mask: 0 },
                );
                assert(self@[self@.len() - 1].addr == addr);
                true
            },
        }
    }

    /// Takes a datagram that is not a handshake as an input frame from
    /// `addr`. An accepted frame replaces the session's previous mask and
    /// last-seen time; a dropped one changes nothing.
    pub fn accept_input(&mut self, addr: Endpoint, data: &[u8], now: u64) -> (r: Result<
        RemoteInputEvent,
        DropReason,
    >)
        requires
            old(self).wf(),
        ensures
            final(self).wf(),
            (final(self)@, r) == input_step(old(self)@, addr, data@, now),
    {
        let i = match self.find(addr) {
            Some(i) => i,
            None => {
                return Err(DropReason::UnknownSender);
            },
        };
        proof {
            lemma_position_of(self@, addr, i as int);
        }
        let session = self.clients[i];
        match parse_input_packet(data, session.prev_mask, session.player_number) {
            Some(event) => {
                self.clients[i] = ClientSession { last_seen: now, prev_mask: data[4], ..session };
                assert(self@ =~= touched(old(self)@, addr, data@[4], now));
                Ok(event)
            },
            None => Err(DropReason::Malformed),
        }
    }

    /// Handles one datagram from `addr` that arrived at time `now`, and says
    /// what the caller is to do about it.
    pub fn handle_datagram(&mut self, addr: Endpoint, data: &[u8], now: u64) -> (action:
        ServerAction)
        requires
            old(self).wf(),
        ensures
            final(self).wf(),
            (final(self)@, action@) == server_step(old(self)@, addr, data@, now),
            has_handshake_shape(data@) ==> knows(final(self)@, addr),
    {
        match HandshakeData::decode(data) {
            Some(request) => {
                self.register(addr, request.player_number, now);
                let reply = HandshakeResponse::new(request.player_number, request.packet_number);
                ServerAction::Reply(reply.encode())
            },
            None => match self.accept_input(addr, data, now) {
                Ok(event) => ServerAction::Apply(event),
                Err(reason) => ServerAction::Ignore(reason),
            },
        }
    }
}

impl Default for ClientRegistry {
    fn default() -> (r: Self)
        ensures
            r@ == Seq::<ClientSession>::empty(),
            r.wf(),
    {
        ClientRegistry::new()
    }
}

/// Among sessions with distinct addresses, the session for an address is the
/// one found at any position that holds that address.
pub proof fn lemma_position_of(sessions: Seq<ClientSession>, addr: Endpoint, i: int)
    requires
        distinct_addresses(sessions),
        0 <= i < sessions.len(),
        sessions[i].addr == addr,
    ensures
        knows(sessions, addr),
        position_of(sessions, addr) == i,
        lookup(sessions, addr) == Some(sessions[i]),
{
    let p = position_of(sessions, addr);
    if p < i {
        assert(sessions[p].addr != sessions[i].addr);
    } else if i < p {
        assert(sessions[i].addr != sessions[p].addr);
    }
}

/// A datagram shorter than an input frame is dropped and leaves every
/// session, previous masks included, as it was.
pub proof fn lemma_short_datagram_dropped(
    sessions: Seq<ClientSession>,
    addr: Endpoint,
    data: Seq<u8>,
    now: u64,
)
    requires
        data.len() < INPUT_FRAME_LEN,
    ensures
        server_step(sessions, addr, data, now).0 == sessions,
        server_step(sessions, addr, data, now).1 is Ignore,
{
}

/// An input handed to the simulation is always for one of the player slots.
pub proof fn lemma_event_targets_a_slot(
    sessions: Seq<ClientSession>,
    addr: Endpoint,
    data: Seq<u8>,
    now: u64,
)
    requires
        valid_sessions(sessions),
    ensures
        server_step(sessions, addr, data, now).1 matches ServerActionView::Apply(event)
            ==> event.player < SLOT_COUNT,
{
}

/// Whatever the datagram, a step keeps the registry well formed, never
/// removes or reorders a session, and never changes the address or the slot
/// of one: the addresses before are a prefix of the addresses after.
pub proof fn lemma_step_keeps_sessions(
    sessions: Seq<ClientSession>,
    addr: Endpoint,
    data: Seq<u8>,
    now: u64,
)
    requires
        valid_sessions(sessions),
    ensures
        valid_sessions(server_step(sessions, addr, data, now).0),
        sessions.len() <= server_step(sessions, addr, data, now).0.len(),
        addresses_of(server_step(sessions, addr, data, now).0).take(sessions.len() as int)
            == addresses_of(sessions),
        forall|i: int|
            0 <= i < sessions.len() ==> (#[trigger] server_step(
                sessions,
                addr,
                data,
                now,
            ).0[i]).player_number == sessions[i].player_number,
{
    let after = server_step(sessions, addr, data, now).0;
    if has_handshake_shape(data) {
        if !knows(sessions, addr) {
            assert forall|i: int, j: int| 0 <= i < j < after.len() implies (
            #[trigger] after[i]).addr != (#[trigger] after[j]).addr by {
                if j == sessions.len() {
                    assert(sessions[i].addr != addr);
                }
            }
        }
    }
    assert(addresses_of(after).take(sessions.len() as int) =~= addresses_of(sessions));
}

/// A handshake changes no session that was there before it: every peer
/// known before is found afterwards with the very same session.
pub proof fn lemma_handshake_overwrites_nothing(
    sessions: Seq<ClientSession>,
    addr: Endpoint,
    data: Seq<u8>,
    now: u64,
    other: Endpoint,
)
    requires
        valid_sessions(sessions),
        has_handshake_shape(data),
        knows(sessions, other),
    ensures
        lookup(server_step(sessions, addr, data, now).0, other) == lookup(sessions, other),
{
    let after = server_step(sessions, addr, data, now).0;
    let i = position_of(sessions, other);
    lemma_step_keeps_sessions(sessions, addr, data, now);
    assert(after[i] == sessions[i]);
    lemma_position_of(after, other, i);
}

/// A peer whose handshake was acknowledged is in the registry, in the slot
/// its first handshake claimed, and its address is among those the next
/// broadcast goes to.
pub proof fn lemma_acknowledged_peer_is_addressed(
    sessions: Seq<ClientSession>,
    addr: Endpoint,
    data: Seq<u8>,
    now: u64,
)
    requires
        valid_sessions(sessions),
        has_handshake_shape(data),
    ensures
        server_step(sessions, addr, data, now).1 == ServerActionView::Reply(ack_for(data)),
        knows(server_step(sessions, addr, data, now).0, addr),
        addresses_of(server_step(sessions, addr, data, now).0).contains(addr),
        !knows(sessions, addr) ==> lookup(
            server_step(sessions, addr, data, now).0,
            addr,
        )->0.player_number == slot_of(data[4]),
{
    let after = server_step(sessions, addr, data, now).0;
    lemma_step_keeps_sessions(sessions, addr, data, now);
    if knows(sessions, addr) {
        let i = position_of(sessions, addr);
        assert(addresses_of(after)[i] == addr);
    } else {
        let i = sessions.len() as int;
        assert(after[i].addr == addr);
        assert(addresses_of(after)[i] == addr);
        lemma_position_of(after, addr, i);
    }
}

/// Two peers at different addresses, the first claiming player number 0 and
/// the second any other, steer different slots.
pub proof fn lemma_two_peers_two_slots(
    sessions: Seq<ClientSession>,
    first: Endpoint,
    first_data: Seq<u8>,
    second: Endpoint,
    second_data: Seq<u8>,
    now: u64,
    later: u64,
)
    requires
        valid_sessions(sessions),
        !knows(sessions, first),
        !knows(sessions, second),
        first != second,
        has_handshake_shape(first_data),
        has_handshake_shape(second_data),
        first_data[4] == 0,
        second_data[4] != 0,
    ensures
        ({
            let after = server_step(
                server_step(sessions, first, first_data, now).0,
                second,
                second_data,
                later,
            ).0;
            &&& lookup(after, first) is Some
            &&& lookup(after, second) is Some
            &&& lookup(after, first)->0.player_number == 0
            &&& lookup(after, second)->0.player_number == 1
        }),
{
    let mid = server_step(sessions, first, first_data, now).0;
    let after = server_step(mid, second, second_data, later).0;
    lemma_step_keeps_sessions(sessions, first, first_data, now);
    lemma_acknowledged_peer_is_addressed(sessions, first, first_data, now);
    assert(!knows(mid, second)) by {
        if knows(mid, second) {
            let k = position_of(mid, second);
            if k < sessions.len() {
                assert(sessions[k].addr == second);
            }
        }
    }
    lemma_handshake_overwrites_nothing(mid, second, second_data, later, first);
    lemma_acknowledged_peer_is_addressed(mid, second, second_data, later);
}

} // verus!
