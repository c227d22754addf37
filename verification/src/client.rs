//! The client's side of the simulation: capturing input every tick,
//! predicting ahead of the server, and reconciling with each snapshot by
//! rolling back to it and replaying the inputs it has not seen.

use crate::input::{
    held, input_bytes, lemma_newer_than, newer_than, pack_buttons, recorded, button_mask,
    InputCommand, InputEntry, InputHistory, DOWN, JUMP, LEFT, MAX_HISTORY, RIGHT,
};
use crate::snapshot::{SnapshotUpdate, SnapshotView, WirePosition};
use vstd::prelude::*;
use vstd::slice::slice_to_vec;

verus! {

/// Simulation ticks per second.
pub const TICK_RATE: u32 = 60;

/// Horizontal speed, and speed of a dive, in world units per second.
pub const MOVE_SPEED: i64 = 300;

/// Upward speed of a jump, in world units per second.
pub const JUMP_SPEED: i64 = 450;

/// A displacement in sixtieths of a world unit. A tick lasts a sixtieth of a
/// second, so one tick at `v` units per second displaces by exactly `v`.
#[derive(Debug, Clone, Copy, PartialEq, Eq, Structural)]
pub struct Displacement {
    pub dx: i64,
    pub dy: i64,
}

/// A position known relative to one the server sent: `base`, moved by
/// `offset`.
#[derive(Debug, Clone, Copy, PartialEq, Eq, Structural)]
pub struct PredictedPosition {
    pub base: WirePosition,
    pub offset: Displacement,
}

/// The horizontal velocity a mask asks for: right minus left.
pub open spec fn velocity_x(mask: u8) -> int {
    let right: int = if held(mask, RIGHT) { MOVE_SPEED as int } else { 0 };
    let left: int = if held(mask, LEFT) { MOVE_SPEED as int } else { 0 };
    right - left
}

/// The vertical velocity a mask asks for: jump minus down.
pub open spec fn velocity_y(mask: u8) -> int {
    let up: int = if held(mask, JUMP) { JUMP_SPEED as int } else { 0 };
    let down: int = if held(mask, DOWN) { MOVE_SPEED as int } else { 0 };
    up - down
}

/// The displacement of replaying a run of inputs, one tick each, in order.
pub open spec fn replayed(h: Seq<InputEntry>) -> (int, int)
    decreases h.len(),
{
    if h.len() == 0 {
        (0, 0)
    } else {
        let before = replayed(h.drop_last());
        (before.0 + velocity_x(h.last().mask), before.1 + velocity_y(h.last().mask))
    }
}

/// One tick never moves further than the speeds allow.
pub proof fn lemma_velocity_bounds(mask: u8)
    ensures
        -MOVE_SPEED <= velocity_x(mask) <= MOVE_SPEED,
        -MOVE_SPEED <= velocity_y(mask) <= JUMP_SPEED,
{
}

/// Replaying `n` ticks never moves further than `n` times the speeds allow.
pub proof fn lemma_replayed_bounds(h: Seq<InputEntry>)
    ensures
        -300 * h.len() <= replayed(h).0 <= 300 * h.len(),
        -300 * h.len() <= replayed(h).1 <= 450 * h.len(),
    decreases h.len(),
{
    if h.len() > 0 {
        lemma_replayed_bounds(h.drop_last());
        lemma_velocity_bounds(h.last().mask);
    }
}

/// Advances a displacement by one tick under the buttons of `mask`.
pub fn simulate_input(pos: &mut Displacement, mask: u8)
    requires
        i64::MIN + MOVE_SPEED <= old(pos).dx <= i64::MAX - MOVE_SPEED,
        i64::MIN + MOVE_SPEED <= old(pos).dy <= i64::MAX - JUMP_SPEED,
    ensures
        final(pos).dx == old(pos).dx + velocity_x(mask),
        final(pos).dy == old(pos).dy + velocity_y(mask),
{
    let mut vx: i64 = 0;
    let mut vy: i64 = 0;
    if mask & JUMP != 0 {
        vy = vy + JUMP_SPEED;
    }
    if mask & LEFT != 0 {
        vx = vx - MOVE_SPEED;
    }
    if mask & DOWN != 0 {
        vy = vy - MOVE_SPEED;
    }
    if mask & RIGHT != 0 {
        vx = vx + MOVE_SPEED;
    }
    pos.dx = pos.dx + vx;
    pos.dy = pos.dy + vy;
}

/// What became of a snapshot.
#[derive(Debug, Clone, Copy, PartialEq, Eq, Structural)]
pub enum SnapshotOutcome {
    /// The prediction was rolled back to the snapshot and replayed.
    Applied,
    /// The snapshot was not newer than the last one applied.
    Stale,
    /// The local player's slot is not in the snapshot; nothing was done.
    Skipped,
}

/// What a client knows of its own player: the last word from the server and
/// the prediction built on it.
#[derive(Debug)]
pub struct ClientPredictionState {
    pub last_server_tick: u32,
    pub authoritative_pos: WirePosition,
    pub predicted_pos: PredictedPosition,
    pub input_history: InputHistory,
    /// The positions of all players in the last snapshot applied.
    pub latest_positions: Vec<WirePosition>,
}

/// The mathematical content of a [`ClientPredictionState`].
pub struct PredictionView {
    pub last_server_tick: u32,
    pub authoritative_pos: WirePosition,
    pub predicted_base: WirePosition,
    pub predicted_dx: int,
    pub predicted_dy: int,
    pub input_history: Seq<InputEntry>,
    pub latest_positions: Seq<WirePosition>,
}

impl View for ClientPredictionState {
    type V = PredictionView;

    open spec fn view(&self) -> PredictionView {
        PredictionView {
            last_server_tick: self.last_server_tick,
            authoritative_pos: self.authoritative_pos,
            predicted_base: self.predicted_pos.base,
            predicted_dx: self.predicted_pos.offset.dx as int,
            predicted_dy: self.predicted_pos.offset.dy as int,
            input_history: self.input_history@,
            latest_positions: self.latest_positions@,
        }
    }
}

/// What a client knows before any snapshot: tick 0, everything at the
/// origin, no input recorded.
pub open spec fn initial_prediction() -> PredictionView {
    PredictionView {
        last_server_tick: 0,
        authoritative_pos: WirePosition { x: 0, y: 0 },
        predicted_base: WirePosition { x: 0, y: 0 },
        predicted_dx: 0,
        predicted_dy: 0,
        input_history: Seq::<InputEntry>::empty(),
        latest_positions: Seq::<WirePosition>::empty(),
    }
}

/// Whether a snapshot holds a position for the local player's slot.
pub open spec fn slot_resolves(snapshot: SnapshotView, local_slot: Option<usize>) -> bool {
    local_slot matches Some(slot) && slot < snapshot.positions.len()
}

/// What becomes of a snapshot that meets a state.
pub open spec fn outcome_of(
    state: PredictionView,
    snapshot: SnapshotView,
    local_slot: Option<usize>,
) -> SnapshotOutcome {
    if snapshot.tick <= state.last_server_tick {
        SnapshotOutcome::Stale
    } else if !slot_resolves(snapshot, local_slot) {
        SnapshotOutcome::Skipped
    } else {
        SnapshotOutcome::Applied
    }
}

/// The state after a snapshot met it. A snapshot that is stale or lacks the
/// local slot changes nothing. Any other becomes the authoritative
/// position; the history keeps only the inputs after the snapshot's tick,
/// the prediction is the authoritative position moved by replaying them, and
/// the snapshot's positions become the latest known of all players.
pub open spec fn reconciled(
    state: PredictionView,
    snapshot: SnapshotView,
    local_slot: Option<usize>,
) -> PredictionView {
    if outcome_of(state, snapshot, local_slot) == SnapshotOutcome::Applied {
        let authoritative = snapshot.positions[local_slot->0 as int];
        let unseen = newer_than(state.input_history, snapshot.tick);
        PredictionView {
            last_server_tick: snapshot.tick,
            authoritative_pos: authoritative,
            predicted_base: authoritative,
            predicted_dx: replayed(unseen).0,
            predicted_dy: replayed(unseen).1,
            input_history: unseen,
            latest_positions: snapshot.positions,
        }
    } else {
        state
    }
}

/// The state after a run of snapshots met it, one after the other.
pub open spec fn reconciled_all(
    state: PredictionView,
    snapshots: Seq<SnapshotView>,
    local_slot: Option<usize>,
) -> PredictionView
    decreases snapshots.len(),
{
    if snapshots.len() == 0 {
        state
    } else {
        reconciled(
            reconciled_all(state, snapshots.drop_last(), local_slot),
            snapshots.last(),
            local_slot,
        )
    }
}

/// The latest of `tick` and the ticks of `snapshots`.
pub open spec fn latest_tick(tick: u32, snapshots: Seq<SnapshotView>) -> u32
    decreases snapshots.len(),
{
    if snapshots.len() == 0 {
        tick
    } else {
        let before = latest_tick(tick, snapshots.drop_last());
        if snapshots.last().tick > before {
            snapshots.last().tick
        } else {
            before
        }
    }
}

impl ClientPredictionState {
    /// Whether the input history is within its capacity.
    pub open spec fn wf(&self) -> bool {
        self.input_history.wf()
    }

    /// The state before any snapshot.
    pub fn new() -> (state: Self)
        ensures
            state.wf(),
            state@ == initial_prediction(),
    {
        let origin = WirePosition { x: 0, y: 0 };
        ClientPredictionState {
            last_server_tick: 0,
            authoritative_pos: origin,
            predicted_pos: PredictedPosition {
                base: origin,
                offset: Displacement { dx: 0, dy: 0 },
            },
            input_history: InputHistory::new(),
            latest_positions: Vec::new(),
        }
    }

    /// Meets a snapshot from the server. `local_slot` is the local player's
    /// slot, or `None` while it cannot be told.
    pub fn apply_snapshot(
        &mut self,
        snapshot: &SnapshotUpdate,
        local_slot: Option<usize>,
    ) -> (outcome: SnapshotOutcome)
        requires
            old(self).wf(),
        ensures
            final(self).wf(),
            outcome == outcome_of(old(self)@, snapshot@, local_slot),
            final(self)@ == reconciled(old(self)@, snapshot@, local_slot),
    {
        if snapshot.tick <= self.last_server_tick {
            return SnapshotOutcome::Stale;
        }
        let slot = match local_slot {
            Some(slot) => slot,
            None => {
                return SnapshotOutcome::Skipped;
            },
        };
        if slot >= snapshot.positions.len() {
            return SnapshotOutcome::Skipped;
        }
        let authoritative = snapshot.positions[slot];
        self.authoritative_pos = authoritative;
        self.input_history.retain_newer(snapshot.tick);
        let mut offset = Displacement { dx: 0, dy: 0 };
        let ghost unseen = self.input_history@;
        let n = self.input_history.len();
        let mut i: usize = 0;
        while i < n
            invariant
                i <= n,
                n == unseen.len(),
                n <= MAX_HISTORY,
                unseen == self.input_history@,
                offset.dx == replayed(unseen.take(i as int)).0,
                offset.dy == replayed(unseen.take(i as int)).1,
            decreases n - i,
        {
            proof {
                let done = unseen.take(i as int);
                lemma_replayed_bounds(done);
                assert(unseen.take(i + 1).drop_last() =~= done);
                assert(done.len() <= 200);
                assert(-60_000 <= replayed(done).0 <= 60_000);
                assert(-60_000 <= replayed(done).1 <= 90_000);
            }
            match self.input_history.get(i) {
                Some(entry) => {
                    simulate_input(&mut offset, entry.mask);
                },
                None => {},
            }
            i += 1;
        }
        assert(unseen.take(i as int) =~= unseen);
        self.predicted_pos = PredictedPosition { base: authoritative, offset };
        self.latest_positions = slice_to_vec(snapshot.positions.as_slice());
        self.last_server_tick = snapshot.tick;
        SnapshotOutcome::Applied
    }
}

impl Default for ClientPredictionState {
    fn default() -> (state: Self)
        ensures
            state.wf(),
            state@ == initial_prediction(),
    {
        ClientPredictionState::new()
    }
}

/// Who steers a player shown on this client, and in which slot of a
/// snapshot it stands.
#[derive(Debug, Clone, Copy, PartialEq, Eq, Structural)]
pub enum Player {
    /// Steered by this client and predicted ahead of the server.
    Local(usize),
    /// Steered by another client; known from snapshots only.
    Net(usize),
    /// Steered by the game itself; not synchronised.
    Npc(usize),
}

/// The share of the way, in percent, that the local player's display moves
/// towards its predicted position at each update.
pub const LOCAL_BLEND_PERCENT: u8 = 12;

/// The share of the way, in percent, that a remote player's display moves
/// towards its last known position at each update.
pub const REMOTE_BLEND_PERCENT: u8 = 30;

/// A display correction: move `percent` hundredths of the way `toward` the
/// target.
#[derive(Debug, Clone, Copy, PartialEq, Eq, Structural)]
pub struct Nudge {
    pub toward: PredictedPosition,
    pub percent: u8,
}

/// The slot of the first local player among `players`, if there is one.
pub open spec fn first_local(players: Seq<Player>) -> Option<usize>
    decreases players.len(),
{
    if players.len() == 0 {
        None
    } else {
        match players[0] {
            Player::Local(slot) => Some(slot),
            _ => first_local(players.drop_first()),
        }
    }
}

/// The correction for one displayed player. The local player is drawn
/// towards the prediction; a remote player towards its position in the
/// latest snapshot, if that snapshot has its slot; any other is left alone.
pub open spec fn nudge_of(
    player: Player,
    predicted_pos: PredictedPosition,
    latest: Seq<WirePosition>,
) -> Option<Nudge> {
    match player {
        Player::Local(_) => Some(Nudge { toward: predicted_pos, percent: LOCAL_BLEND_PERCENT }),
        Player::Net(slot) => if slot < latest.len() {
            Some(
                Nudge {
                    toward: PredictedPosition {
                        base: latest[slot as int],
                        offset: Displacement { dx: 0, dy: 0 },
                    },
                    percent: REMOTE_BLEND_PERCENT,
                },
            )
        } else {
            None
        },
        Player::Npc(_) => None,
    }
}

/// Finds the local player's slot among the players that are alive.
pub fn local_slot(players: &[Player]) -> (r: Option<usize>)
    ensures
        r == first_local(players@),
{
    let mut i: usize = 0;
    assert(players@.skip(0) =~= players@);
    while i < players.len()
        invariant
            i <= players@.len(),
            first_local(players@) == first_local(players@.skip(i as int)),
        decreases players@.len() - i,
    {
        let ghost rest = players@.skip(i as int);
        assert(rest[0] == players@[i as int]);
        assert(rest.drop_first() =~= players@.skip(i + 1));
        match players[i] {
            Player::Local(slot) => {
                return Some(slot);
            },
            _ => {},
        }
        i += 1;
    }
    None
}

/// The display correction for `player`, given what the client knows.
pub fn nudge_for(player: Player, state: &ClientPredictionState) -> (r: Option<Nudge>)
    ensures
        r == nudge_of(player, state.predicted_pos, state.latest_positions@),
{
    match player {
        Player::Local(_) => Some(
            Nudge { toward: state.predicted_pos, percent: LOCAL_BLEND_PERCENT },
        ),
        Player::Net(slot) => {
            if slot < state.latest_positions.len() {
                Some(
                    Nudge {
                        toward: PredictedPosition {
                            base: state.latest_positions[slot],
                            offset: Displacement { dx: 0, dy: 0 },
                        },
                        percent: REMOTE_BLEND_PERCENT,
                    },
                )
            } else {
                None
            }
        },
        Player::Npc(_) => None,
    }
}

/// Captures one tick of local input: takes the next sequence number,
/// records the buttons in the history, and gives the command with the frame
/// to transmit.
pub fn send_input_state(
    seq: &mut u32,
    state: &mut ClientPredictionState,
    jump: bool,
    left: bool,
    down: bool,
    right: bool,
) -> (sent: (InputCommand, Vec<u8>))
    requires
        *old(seq) < u32::MAX,
        old(state).wf(),
    ensures
        final(state).wf(),
        *final(seq) == *old(seq) + 1,
        sent.0 == (InputCommand { seq: *final(seq), mask: button_mask(jump, left, down, right) }),
        sent.1@ == input_bytes(sent.0),
        final(state)@ == (PredictionView {
            input_history: recorded(
                old(state)@.input_history,
                InputEntry { tick: sent.0.seq, mask: sent.0.mask },
            ),
            ..old(state)@
        }),
{
    let mask = pack_buttons(jump, left, down, right);
    *seq = *seq + 1;
    state.input_history.push(*seq, mask);
    let command = InputCommand { seq: *seq, mask };
    let frame = command.encode();
    (command, frame)
}

/// A snapshot that is not newer than the last one applied changes nothing.
pub proof fn lemma_stale_snapshot_ignored(
    state: PredictionView,
    snapshot: SnapshotView,
    local_slot: Option<usize>,
)
    requires
        snapshot.tick <= state.last_server_tick,
    ensures
        reconciled(state, snapshot, local_slot) == state,
        outcome_of(state, snapshot, local_slot) == SnapshotOutcome::Stale,
{
}

/// The tick of the last snapshot applied never goes back, whatever arrives.
pub proof fn lemma_server_tick_never_goes_back(
    state: PredictionView,
    snapshot: SnapshotView,
    local_slot: Option<usize>,
)
    ensures
        reconciled(state, snapshot, local_slot).last_server_tick >= state.last_server_tick,
{
}

/// After any run of snapshots, in any order and with any repetitions, each
/// holding the local slot, the last server tick is the latest tick seen.
pub proof fn lemma_last_tick_is_latest(
    state: PredictionView,
    snapshots: Seq<SnapshotView>,
    local_slot: Option<usize>,
)
    requires
        forall|i: int|
            0 <= i < snapshots.len() ==> slot_resolves(#[trigger] snapshots[i], local_slot),
    ensures
        reconciled_all(state, snapshots, local_slot).last_server_tick == latest_tick(
            state.last_server_tick,
            snapshots,
        ),
    decreases snapshots.len(),
{
    if snapshots.len() > 0 {
        let front = snapshots.drop_last();
        assert forall|i: int| 0 <= i < front.len() implies slot_resolves(
            #[trigger] front[i],
            local_slot,
        ) by {
            assert(front[i] == snapshots[i]);
        }
        lemma_last_tick_is_latest(state, front, local_slot);
        assert(slot_resolves(snapshots[snapshots.len() - 1], local_slot));
    }
}

/// After a snapshot was applied, the history holds only inputs later than
/// its tick, and applying the same tick's cut again would keep all of them.
pub proof fn lemma_history_after_reconciliation(
    state: PredictionView,
    snapshot: SnapshotView,
    local_slot: Option<usize>,
)
    requires
        outcome_of(state, snapshot, local_slot) == SnapshotOutcome::Applied,
    ensures
        ({
            let kept = reconciled(state, snapshot, local_slot).input_history;
            &&& kept.len() <= state.input_history.len()
            &&& forall|i: int| 0 <= i < kept.len() ==> (#[trigger] kept[i]).tick > snapshot.tick
        }),
{
    lemma_newer_than(state.input_history, snapshot.tick);
}

/// Where the history is a run of inputs up to the snapshot's tick followed by
/// a run of later ones, reconciliation replays exactly the later run: the
/// prediction is the authoritative position moved by those inputs alone.
pub proof fn lemma_replays_only_unseen(
    state: PredictionView,
    snapshot: SnapshotView,
    local_slot: Option<usize>,
    seen: Seq<InputEntry>,
    unseen: Seq<InputEntry>,
)
    requires
        outcome_of(state, snapshot, local_slot) == SnapshotOutcome::Applied,
        state.input_history == seen + unseen,
        forall|i: int| 0 <= i < seen.len() ==> (#[trigger] seen[i]).tick <= snapshot.tick,
        forall|i: int| 0 <= i < unseen.len() ==> (#[trigger] unseen[i]).tick > snapshot.tick,
    ensures
        ({
            let after = reconciled(state, snapshot, local_slot);
            let authoritative = snapshot.positions[local_slot->0 as int];
            &&& after.input_history == unseen
            &&& after.authoritative_pos == authoritative
            &&& after.predicted_base == authoritative
            &&& after.predicted_dx == replayed(unseen).0
            &&& after.predicted_dy == replayed(unseen).1
        }),
{
    lemma_newer_than_split(seen, unseen, snapshot.tick);
}

/// Cutting a history that is an old run followed by a new run leaves the new
/// run.
proof fn lemma_newer_than_split(seen: Seq<InputEntry>, unseen: Seq<InputEntry>, tick: u32)
    requires
        forall|i: int| 0 <= i < seen.len() ==> (#[trigger] seen[i]).tick <= tick,
        forall|i: int| 0 <= i < unseen.len() ==> (#[trigger] unseen[i]).tick > tick,
    ensures
        newer_than(seen + unseen, tick) == unseen,
    decreases seen.len() + unseen.len(),
{
    let all = seen + unseen;
    if unseen.len() > 0 {
        assert(all.drop_last() =~= seen + unseen.drop_last());
        assert(all.last() == unseen.last());
        let front = unseen.drop_last();
        assert forall|i: int| 0 <= i < front.len() implies (#[trigger] front[i]).tick > tick by {
            assert(front[i] == unseen[i]);
        }
        lemma_newer_than_split(seen, unseen.drop_last(), tick);
        assert(unseen.drop_last().push(unseen.last()) =~= unseen);
    } else if seen.len() > 0 {
        assert(all =~= seen);
        assert(all.drop_last() =~= seen.drop_last() + unseen);
        let front = seen.drop_last();
        assert forall|i: int| 0 <= i < front.len() implies (#[trigger] front[i]).tick <= tick by {
            assert(front[i] == seen[i]);
        }
        assert(seen.last() == seen[seen.len() - 1]);
        lemma_newer_than_split(seen.drop_last(), unseen, tick);
    } else {
        assert(all =~= unseen);
    }
}

} // verus!
