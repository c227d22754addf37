//! Positional snapshots: what the server broadcasts once per tick and what a
//! client reads from it.

use crate::wire::{
    get_u16, get_u32, lemma_u16_at_be, lemma_u16_be_at, lemma_u32_at_be, lemma_u32_be_at, put_u16,
    put_u32, u16_at, u16_be, u32_at, u32_be,
};
use vstd::prelude::*;

verus! {

/// Number of bytes in front of the positions: tick and player count.
pub const SNAPSHOT_HEADER_LEN: usize = 6;

/// Number of bytes one position takes: two 4-byte coordinates.
pub const POSITION_LEN: usize = 8;

/// A player's position as it travels: each coordinate is the 32-bit word that
/// holds a single-precision number, already cut to one decimal place by the
/// sender. The codec carries the words unchanged and never looks inside.
#[derive(Debug, Clone, Copy, PartialEq, Eq, Structural)]
pub struct WirePosition {
    pub x: u32,
    pub y: u32,
}

/// The positions of all players at one server tick, in slot order.
#[derive(Debug)]
pub struct SnapshotUpdate {
    pub tick: u32,
    pub positions: Vec<WirePosition>,
}

/// The mathematical content of a [`SnapshotUpdate`].
pub struct SnapshotView {
    pub tick: u32,
    pub positions: Seq<WirePosition>,
}

impl View for SnapshotUpdate {
    type V = SnapshotView;

    open spec fn view(&self) -> SnapshotView {
        SnapshotView { tick: self.tick, positions: self.positions@ }
    }
}

/// An encoded snapshot on its way from the simulation to the broadcaster.
#[derive(Debug)]
pub struct SnapshotMsg {
    pub data: Vec<u8>,
}

/// The eight bytes of one position: `x:4 | y:4`.
pub open spec fn position_bytes(p: WirePosition) -> Seq<u8> {
    u32_be(p.x) + u32_be(p.y)
}

/// The bytes of a run of positions, one after the other.
pub open spec fn positions_bytes(ps: Seq<WirePosition>) -> Seq<u8>
    decreases ps.len(),
{
    if ps.len() == 0 {
        Seq::<u8>::empty()
    } else {
        positions_bytes(ps.drop_last()) + position_bytes(ps.last())
    }
}

/// The wire image of a snapshot: `tick:4 | player_count:2 | (x:4, y:4) ...`.
/// The count field holds the low sixteen bits of the number of positions, so
/// only snapshots of at most 65535 positions can be read back.
pub open spec fn snapshot_bytes(s: SnapshotView) -> Seq<u8> {
    u32_be(s.tick) + u16_be((s.positions.len() % 0x1_0000) as u16) + positions_bytes(s.positions)
}

/// The position that starts at `at`.
pub open spec fn position_at(bytes: Seq<u8>, at: int) -> WirePosition {
    WirePosition { x: u32_at(bytes, at), y: u32_at(bytes, at + 4) }
}

/// Whether a datagram holds a snapshot: the header, and as many positions
/// behind it as the header counts. Bytes behind the last position are allowed
/// and ignored.
pub open spec fn has_snapshot_shape(bytes: Seq<u8>) -> bool {
    bytes.len() >= SNAPSHOT_HEADER_LEN && SNAPSHOT_HEADER_LEN + POSITION_LEN * u16_at(bytes, 4)
        <= bytes.len()
}

/// The snapshot a datagram holds, if it holds one.
pub open spec fn parse_snapshot(bytes: Seq<u8>) -> Option<SnapshotView> {
    if has_snapshot_shape(bytes) {
        Some(
            SnapshotView {
                tick: u32_at(bytes, 0),
                positions: Seq::new(
                    u16_at(bytes, 4) as nat,
                    |i: int| position_at(bytes, SNAPSHOT_HEADER_LEN + POSITION_LEN * i),
                ),
            },
        )
    } else {
        None
    }
}

/// A run of positions takes eight bytes each, and each is found where its
/// index says.
pub proof fn lemma_positions_bytes(ps: Seq<WirePosition>)
    ensures
        positions_bytes(ps).len() == POSITION_LEN * ps.len(),
        forall|i: int|
            0 <= i < ps.len() ==> #[trigger] positions_bytes(ps).subrange(
                POSITION_LEN * i,
                POSITION_LEN * i + POSITION_LEN,
            ) == position_bytes(ps[i]),
    decreases ps.len(),
{
    if ps.len() > 0 {
        let front = ps.drop_last();
        lemma_positions_bytes(front);
        let all = positions_bytes(ps);
        assert forall|i: int| 0 <= i < ps.len() implies #[trigger] all.subrange(
            POSITION_LEN * i,
            POSITION_LEN * i + POSITION_LEN,
        ) == position_bytes(ps[i]) by {
            if i < front.len() {
                assert(all.subrange(POSITION_LEN * i, POSITION_LEN * i + POSITION_LEN)
                    =~= positions_bytes(front).subrange(
                    POSITION_LEN * i,
                    POSITION_LEN * i + POSITION_LEN,
                ));
                assert(front[i] == ps[i]);
            } else {
                assert(all.subrange(POSITION_LEN * i, POSITION_LEN * i + POSITION_LEN)
                    =~= position_bytes(ps.last()));
            }
        }
    }
}

/// A position is read back from where its image stands.
pub proof fn lemma_position_at(bytes: Seq<u8>, at: int, p: WirePosition)
    requires
        0 <= at,
        at + POSITION_LEN <= bytes.len(),
        bytes.subrange(at, at + POSITION_LEN) == position_bytes(p),
    ensures
        position_at(bytes, at) == p,
{
    let img = bytes.subrange(at, at + POSITION_LEN);
    assert(bytes.subrange(at, at + 4) =~= img.subrange(0, 4));
    assert(bytes.subrange(at + 4, at + 8) =~= img.subrange(4, 8));
    assert(img.subrange(0, 4) =~= u32_be(p.x));
    assert(img.subrange(4, 8) =~= u32_be(p.y));
    lemma_u32_at_be(bytes, at, p.x);
    lemma_u32_at_be(bytes, at + 4, p.y);
}

/// A snapshot of at most 65535 positions is read back from its own image:
/// the tick, the count and every position word for word.
pub proof fn lemma_snapshot_decode_encode(s: SnapshotView)
    requires
        s.positions.len() <= 0xFFFF,
    ensures
        parse_snapshot(snapshot_bytes(s)) == Some(s),
{
    let bytes = snapshot_bytes(s);
    let body = positions_bytes(s.positions);
    let count = (s.positions.len() % 0x1_0000) as u16;
    lemma_positions_bytes(s.positions);
    assert(bytes.subrange(0, 4) =~= u32_be(s.tick));
    assert(bytes.subrange(4, 6) =~= u16_be(count));
    lemma_u32_at_be(bytes, 0, s.tick);
    lemma_u16_at_be(bytes, 4, count);
    assert(has_snapshot_shape(bytes));
    let parsed = parse_snapshot(bytes)->0;
    assert forall|i: int| 0 <= i < s.positions.len() implies parsed.positions[i]
        == s.positions[i] by {
        let at = SNAPSHOT_HEADER_LEN + POSITION_LEN * i;
        assert(bytes.subrange(at, at + POSITION_LEN) =~= body.subrange(
            POSITION_LEN * i,
            POSITION_LEN * i + POSITION_LEN,
        ));
        lemma_position_at(bytes, at, s.positions[i]);
    }
    assert(parsed.positions =~= s.positions);
}

/// A datagram that is exactly one snapshot is the image of the snapshot read
/// from it.
pub proof fn lemma_snapshot_encode_decode(bytes: Seq<u8>)
    requires
        has_snapshot_shape(bytes),
        bytes.len() == SNAPSHOT_HEADER_LEN + POSITION_LEN * u16_at(bytes, 4),
    ensures
        snapshot_bytes(parse_snapshot(bytes)->0) == bytes,
{
    let s = parse_snapshot(bytes)->0;
    let count = u16_at(bytes, 4);
    let head = bytes.subrange(0, 4);
    let middle = bytes.subrange(4, 6);
    let body = bytes.subrange(6, bytes.len() as int);
    assert(s.positions.len() == count);
    assert(u32_be(s.tick) == head) by {
        lemma_u32_be_at(bytes, 0);
    }
    assert(u16_be((s.positions.len() % 0x1_0000) as u16) == middle) by {
        lemma_u16_be_at(bytes, 4);
    }
    assert(positions_bytes(s.positions) == body) by {
        lemma_positions_of(bytes, count as int);
        assert(s.positions.take(count as int) =~= s.positions);
    }
    assert(head + middle + body =~= bytes);
}

/// The first `n` positions read from a datagram are written as the bytes
/// they were read from.
proof fn lemma_positions_of(bytes: Seq<u8>, n: int)
    requires
        has_snapshot_shape(bytes),
        0 <= n <= u16_at(bytes, 4),
    ensures
        positions_bytes(parse_snapshot(bytes)->0.positions.take(n)) == bytes.subrange(
            SNAPSHOT_HEADER_LEN as int,
            SNAPSHOT_HEADER_LEN + POSITION_LEN * n,
        ),
    decreases n,
{
    let ps = parse_snapshot(bytes)->0.positions;
    if n == 0 {
        assert(positions_bytes(ps.take(0)) =~= bytes.subrange(6, 6));
    } else {
        lemma_positions_of(bytes, n - 1);
        let at = SNAPSHOT_HEADER_LEN + POSITION_LEN * (n - 1);
        assert(ps.take(n).drop_last() =~= ps.take(n - 1));
        assert(ps.take(n).last() == position_at(bytes, at));
        lemma_u32_be_at(bytes, at);
        lemma_u32_be_at(bytes, at + 4);
        assert(positions_bytes(ps.take(n)) =~= bytes.subrange(
            SNAPSHOT_HEADER_LEN as int,
            SNAPSHOT_HEADER_LEN + POSITION_LEN * n,
        ));
    }
}

impl SnapshotUpdate {
    /// The wire image of this snapshot.
    pub fn encode(&self) -> (buf: Vec<u8>)
        ensures
            buf@ == snapshot_bytes(self@),
    {
        let mut buf: Vec<u8> = Vec::new();
        put_u32(&mut buf, self.tick);
        put_u16(&mut buf, (self.positions.len() % 0x1_0000) as u16);
        let ghost head = buf@;
        let mut i: usize = 0;
        while i < self.positions.len()
            invariant
                i <= self.positions@.len(),
                buf@ == head + positions_bytes(self.positions@.take(i as int)),
            decreases self.positions@.len() - i,
        {
            let p = self.positions[i];
            assert(self.positions@.take(i + 1).drop_last() =~= self.positions@.take(i as int));
            put_u32(&mut buf, p.x);
            put_u32(&mut buf, p.y);
            i += 1;
            assert(buf@ =~= head + positions_bytes(self.positions@.take(i as int)));
        }
        assert(self.positions@.take(i as int) =~= self.positions@);
        buf
    }

    /// Reads a snapshot from a datagram. The count is checked against the
    /// bytes that are there before any position is read, so a short or
    /// cut-off datagram gives `None`.
    pub fn decode(data: &[u8]) -> (r: Option<Self>)
        ensures
            r is Some <==> has_snapshot_shape(data@),
            r matches Some(s) ==> Some(s@) == parse_snapshot(data@),
    {
        if data.len() < SNAPSHOT_HEADER_LEN {
            return None;
        }
        let tick = get_u32(data, 0);
        let count = get_u16(data, 4) as usize;
        if (data.len() - SNAPSHOT_HEADER_LEN) / POSITION_LEN < count {
            return None;
        }
        let mut positions: Vec<WirePosition> = Vec::with_capacity(count);
        let mut i: usize = 0;
        while i < count
            invariant
                i <= count,
                count == u16_at(data@, 4),
                SNAPSHOT_HEADER_LEN + POSITION_LEN * count <= data@.len(),
                positions@.len() == i,
                forall|k: int|
                    0 <= k < i ==> positions@[k] == position_at(
                        data@,
                        SNAPSHOT_HEADER_LEN + POSITION_LEN * k,
                    ),
            decreases count - i,
        {
            let at = SNAPSHOT_HEADER_LEN + POSITION_LEN * i;
            let x = get_u32(data, at);
            let y = get_u32(data, at + 4);
            positions.push(WirePosition { x, y });
            i += 1;
        }
        assert(positions@ =~= parse_snapshot(data@)->0.positions);
        Some(SnapshotUpdate { tick, positions })
    }
}

/// The position a player is reported at before it is known: the origin.
pub open spec fn origin() -> WirePosition {
    WirePosition { x: 0, y: 0 }
}

/// The position reported for `slot`: that of the first player listed for
/// it, or the origin if none is.
pub open spec fn position_in_slot(players: Seq<(usize, WirePosition)>, slot: usize) -> WirePosition
    decreases players.len(),
{
    if players.len() == 0 {
        origin()
    } else if players[0].0 == slot {
        players[0].1
    } else {
        position_in_slot(players.drop_first(), slot)
    }
}

/// Puts the positions of the players, listed in any order with their slots,
/// into the fixed slot order of a snapshot with `slot_count` slots.
pub fn positions_in_slot_order(players: &[(usize, WirePosition)], slot_count: usize) -> (positions:
    Vec<WirePosition>)
    ensures
        positions@.len() == slot_count,
        forall|slot: int|
            0 <= slot < slot_count ==> positions@[slot] == position_in_slot(
                players@,
                slot as usize,
            ),
{
    let mut positions: Vec<WirePosition> = Vec::with_capacity(slot_count);
    let mut slot: usize = 0;
    while slot < slot_count
        invariant
            slot <= slot_count,
            positions@.len() == slot,
            forall|k: int|
                0 <= k < slot ==> positions@[k] == position_in_slot(players@, k as usize),
        decreases slot_count - slot,
    {
        let mut found = WirePosition { x: 0, y: 0 };
        let mut i: usize = 0;
        assert(players@.skip(0) =~= players@);
        while i < players.len()
            invariant_except_break
                found == origin(),
                position_in_slot(players@, slot) == position_in_slot(players@.skip(i as int), slot),
            invariant
                i <= players@.len(),
            ensures
                found == position_in_slot(players@, slot),
            decreases players@.len() - i,
        {
            let ghost rest = players@.skip(i as int);
            assert(rest[0] == players@[i as int]);
            assert(rest.drop_first() =~= players@.skip(i + 1));
            if players[i].0 == slot {
                found = players[i].1;
                break ;
            }
            i += 1;
        }
        positions.push(found);
        slot += 1;
    }
    positions
}

/// Advances the server's tick counter and encodes the snapshot of that tick
/// for the broadcaster.
pub fn send_snapshots(tick: &mut u32, positions: Vec<WirePosition>) -> (msg: SnapshotMsg)
    requires
        *old(tick) < u32::MAX,
    ensures
        *final(tick) == *old(tick) + 1,
        msg.data@ == snapshot_bytes(SnapshotView { tick: *final(tick), positions: positions@ }),
{
    *tick = *tick + 1;
    let update = SnapshotUpdate { tick: *tick, positions };
    SnapshotMsg { data: update.encode() }
}

} // verus!
