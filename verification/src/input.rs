//! Per-tick button state: the bitmask, the input frame that carries it, the
//! bounded history a client keeps of it, and the server's reading of it.

use crate::wire::{get_u32, lemma_u32_at_be, lemma_u32_be_at, put_u32, u32_at, u32_be};
use vstd::prelude::*;

verus! {

/// Bit 0 of a mask: jump, also used as "up".
pub const JUMP: u8 = 1;

/// Bit 1 of a mask: left.
pub const LEFT: u8 = 2;

/// Bit 2 of a mask: down.
pub const DOWN: u8 = 4;

/// Bit 3 of a mask: right.
pub const RIGHT: u8 = 8;

/// Length of an input frame: the sequence number and the mask.
pub const INPUT_FRAME_LEN: usize = 5;

/// The largest number of entries an input history keeps.
pub const MAX_HISTORY: usize = 200;

/// Whether the button `bit` is held in `mask`.
pub open spec fn held(mask: u8, bit: u8) -> bool {
    mask & bit != 0
}

/// The mask of four button states, one bit each in the fixed order of the
/// protocol.
pub open spec fn button_mask(jump: bool, left: bool, down: bool, right: bool) -> u8 {
    let j: u8 = if jump { JUMP } else { 0u8 };
    let l: u8 = if left { LEFT } else { 0u8 };
    let d: u8 = if down { DOWN } else { 0u8 };
    let r: u8 = if right { RIGHT } else { 0u8 };
    j | l | d | r
}

/// Each button is read back from the mask it was packed into, and no other bit
/// of the mask is set.
pub proof fn lemma_button_mask(jump: bool, left: bool, down: bool, right: bool)
    ensures
        held(button_mask(jump, left, down, right), JUMP) == jump,
        held(button_mask(jump, left, down, right), LEFT) == left,
        held(button_mask(jump, left, down, right), DOWN) == down,
        held(button_mask(jump, left, down, right), RIGHT) == right,
        button_mask(jump, left, down, right) < 16,
{
    let j: u8 = if jump { JUMP } else { 0u8 };
    let l: u8 = if left { LEFT } else { 0u8 };
    let d: u8 = if down { DOWN } else { 0u8 };
    let r: u8 = if right { RIGHT } else { 0u8 };
    assert(((j | l | d | r) & 1 != 0) == (j != 0) && ((j | l | d | r) & 2 != 0) == (l != 0) && ((j
        | l | d | r) & 4 != 0) == (d != 0) && ((j | l | d | r) & 8 != 0) == (r != 0) && (j | l | d
        | r) < 16) by (bit_vector)
        requires
            j == 0 || j == 1,
            l == 0 || l == 2,
            d == 0 || d == 4,
            r == 0 || r == 8,
    ;
}

/// Packs four button states into a mask.
pub fn pack_buttons(jump: bool, left: bool, down: bool, right: bool) -> (mask: u8)
    ensures
        mask == button_mask(jump, left, down, right),
{
    let mut mask: u8 = 0;
    if jump {
        mask = mask | JUMP;
    }
    if left {
        mask = mask | LEFT;
    }
    if down {
        mask = mask | DOWN;
    }
    if right {
        mask = mask | RIGHT;
    }
    proof {
        let j: u8 = if jump { JUMP } else { 0u8 };
        let l: u8 = if left { LEFT } else { 0u8 };
        let d: u8 = if down { DOWN } else { 0u8 };
        let r: u8 = if right { RIGHT } else { 0u8 };
        assert(0u8 | j == j && j | 0 == j && (j | l) | 0 == j | l && ((j | l) | d) | 0 == (j | l)
            | d) by (bit_vector);
    }
    mask
}

/// What an automated controller can ask for in one tick: nothing, a
/// direction, a jump, or a jump in a direction. Such a controller produces
/// input as a keyboard does, through the mask of its action.
#[derive(Debug, Clone, Copy, PartialEq, Eq, Structural)]
pub enum Action {
    /// Idle.
    I,
    /// Left.
    L,
    /// Right.
    R,
    /// Jump.
    J,
    /// Left and jump.
    LJ,
    /// Right and jump.
    RJ,
}

/// The number of an action, from 0 for idle to 5.
pub open spec fn action_index(action: Action) -> usize {
    match action {
        Action::I => 0,
        Action::L => 1,
        Action::R => 2,
        Action::J => 3,
        Action::LJ => 4,
        Action::RJ => 5,
    }
}

/// The action with number `i`; idle for any number that no action has.
pub open spec fn action_from_index(i: usize) -> Action {
    if i == 1 {
        Action::L
    } else if i == 2 {
        Action::R
    } else if i == 3 {
        Action::J
    } else if i == 4 {
        Action::LJ
    } else if i == 5 {
        Action::RJ
    } else {
        Action::I
    }
}

/// The buttons an action holds, as a mask.
pub open spec fn action_mask(action: Action) -> u8 {
    match action {
        Action::I => button_mask(false, false, false, false),
        Action::L => button_mask(false, true, false, false),
        Action::R => button_mask(false, false, false, true),
        Action::J => button_mask(true, false, false, false),
        Action::LJ => button_mask(true, true, false, false),
        Action::RJ => button_mask(true, false, false, true),
    }
}

impl Action {
    /// The number of this action.
    pub fn index(self) -> (i: usize)
        ensures
            i == action_index(self),
    {
        match self {
            Action::I => 0,
            Action::L => 1,
            Action::R => 2,
            Action::J => 3,
            Action::LJ => 4,
            Action::RJ => 5,
        }
    }

    /// The action with number `i`; idle for any number that no action has.
    pub fn from_index(i: usize) -> (action: Self)
        ensures
            action == action_from_index(i),
    {
        match i {
            0 => Action::I,
            1 => Action::L,
            2 => Action::R,
            3 => Action::J,
            4 => Action::LJ,
            5 => Action::RJ,
            _ => Action::I,
        }
    }

    /// The mask that holds the buttons of this action.
    pub fn mask(self) -> (mask: u8)
        ensures
            mask == action_mask(self),
    {
        match self {
            Action::I => pack_buttons(false, false, false, false),
            Action::L => pack_buttons(false, true, false, false),
            Action::R => pack_buttons(false, false, false, true),
            Action::J => pack_buttons(true, false, false, false),
            Action::LJ => pack_buttons(true, true, false, false),
            Action::RJ => pack_buttons(true, false, false, true),
        }
    }
}

/// Every action is found again by its number, and every number below 6 is
/// the number of the action found by it.
pub proof fn lemma_action_index(action: Action, i: usize)
    ensures
        action_from_index(action_index(action)) == action,
        action_index(action) < 6,
        i < 6 ==> action_index(action_from_index(i)) == i,
{
}

/// One tick of button state on its way to the server.
#[derive(Debug, Clone, Copy, PartialEq, Eq, Structural)]
pub struct InputCommand {
    pub seq: u32,
    pub mask: u8,
}

/// The wire image of an input frame: `sequence:4 | mask:1`.
pub open spec fn input_bytes(c: InputCommand) -> Seq<u8> {
    u32_be(c.seq).push(c.mask)
}

/// The input frame at the start of a datagram; none if the datagram is
/// shorter than a frame. Bytes behind the frame are ignored.
pub open spec fn parse_input(bytes: Seq<u8>) -> Option<InputCommand> {
    if bytes.len() >= INPUT_FRAME_LEN {
        Some(InputCommand { seq: u32_at(bytes, 0), mask: bytes[4] })
    } else {
        None
    }
}

impl InputCommand {
    /// The wire image of this frame.
    pub fn encode(&self) -> (buf: Vec<u8>)
        ensures
            buf@ == input_bytes(*self),
    {
        let mut buf: Vec<u8> = Vec::with_capacity(INPUT_FRAME_LEN);
        put_u32(&mut buf, self.seq);
        buf.push(self.mask);
        assert(buf@ =~= input_bytes(*self));
        buf
    }

    /// Reads an input frame from a datagram; `None` if it is too short.
    pub fn decode(data: &[u8]) -> (r: Option<Self>)
        ensures
            r == parse_input(data@),
    {
        if data.len() < INPUT_FRAME_LEN {
            return None;
        }
        Some(InputCommand { seq: get_u32(data, 0), mask: data[4] })
    }
}

/// An input frame is read back from its own image, and a datagram of exactly
/// one frame is the image of the frame read from it.
pub proof fn lemma_input_roundtrip(c: InputCommand, bytes: Seq<u8>)
    ensures
        parse_input(input_bytes(c)) == Some(c),
        bytes.len() == INPUT_FRAME_LEN ==> input_bytes(parse_input(bytes)->0) == bytes,
{
    let img = input_bytes(c);
    assert(img.subrange(0, 4) =~= u32_be(c.seq));
    lemma_u32_at_be(img, 0, c.seq);
    if bytes.len() == INPUT_FRAME_LEN {
        lemma_u32_be_at(bytes, 0);
        assert(input_bytes(parse_input(bytes)->0) =~= bytes);
    }
}

/// Button state as the simulation takes it, with the one edge it needs: the
/// jump button let go since the sender's previous frame.
#[derive(Debug, Clone, Copy, PartialEq, Eq, Structural)]
pub struct RemoteInputEvent {
    /// The player slot the input is for.
    pub player: u8,
    pub left: bool,
    pub right: bool,
    pub jump_pressed: bool,
    pub jump_just_released: bool,
}

/// The event a mask stands for, given the mask that came before it from the
/// same sender.
pub open spec fn input_event(mask: u8, prev_mask: u8, player: u8) -> RemoteInputEvent {
    RemoteInputEvent {
        player,
        left: held(mask, LEFT),
        right: held(mask, RIGHT),
        jump_pressed: held(mask, JUMP),
        jump_just_released: !held(mask, JUMP) && held(prev_mask, JUMP),
    }
}

/// The event an input datagram stands for; none if the datagram is shorter
/// than a frame.
pub open spec fn parse_input_event(bytes: Seq<u8>, prev_mask: u8, player: u8) -> Option<
    RemoteInputEvent,
> {
    if bytes.len() >= INPUT_FRAME_LEN {
        Some(input_event(bytes[4], prev_mask, player))
    } else {
        None
    }
}

/// The buttons a client packs into a frame are the buttons the server reads
/// from it, whatever came before.
pub proof fn lemma_buttons_reach_the_server(
    seq: u32,
    jump: bool,
    left: bool,
    down: bool,
    right: bool,
    prev_mask: u8,
    player: u8,
)
    ensures
        ({
            let mask = button_mask(jump, left, down, right);
            let frame = input_bytes(InputCommand { seq, mask });
            parse_input_event(frame, prev_mask, player) == Some(
                RemoteInputEvent {
                    player,
                    left,
                    right,
                    jump_pressed: jump,
                    jump_just_released: !jump && held(prev_mask, JUMP),
                },
            )
        }),
{
    lemma_button_mask(jump, left, down, right);
}

/// Reads an input datagram for the player in slot `player`, whose previous
/// mask was `prev_mask`. A datagram shorter than a frame gives `None`.
pub fn parse_input_packet(data: &[u8], prev_mask: u8, player: u8) -> (r: Option<RemoteInputEvent>)
    ensures
        r == parse_input_event(data@, prev_mask, player),
{
    if data.len() < INPUT_FRAME_LEN {
        return None;
    }
    let mask = data[4];
    let jump_pressed = mask & JUMP != 0;
    let left = mask & LEFT != 0;
    let right = mask & RIGHT != 0;
    let jump_prev_pressed = prev_mask & JUMP != 0;
    let jump_just_released = !jump_pressed && jump_prev_pressed;
    Some(RemoteInputEvent { player, left, right, jump_pressed, jump_just_released })
}

/// One remembered tick of local input.
#[derive(Debug, Clone, Copy, PartialEq, Eq, Structural)]
pub struct InputEntry {
    pub tick: u32,
    pub mask: u8,
}

/// A history after `e` was recorded: `e` stands last, and the oldest entry
/// has left if the history would otherwise exceed its capacity.
pub open spec fn recorded(h: Seq<InputEntry>, e: InputEntry) -> Seq<InputEntry> {
    if h.len() + 1 > MAX_HISTORY {
        h.push(e).skip(1)
    } else {
        h.push(e)
    }
}

/// Recording keeps a history within its capacity, puts the new entry last,
/// and keeps the entries before it in their order, dropping at most the
/// oldest.
pub proof fn lemma_recorded(h: Seq<InputEntry>, e: InputEntry)
    requires
        h.len() <= MAX_HISTORY,
    ensures
        recorded(h, e).len() <= MAX_HISTORY,
        recorded(h, e).last() == e,
        h.len() < MAX_HISTORY ==> recorded(h, e).drop_last() == h,
        h.len() == MAX_HISTORY ==> recorded(h, e).drop_last() == h.skip(1),
{
    if h.len() < MAX_HISTORY {
        assert(recorded(h, e).drop_last() =~= h);
    } else {
        assert(recorded(h, e).drop_last() =~= h.skip(1));
    }
}

/// The entries of `h` whose tick is later than `tick`, in their order.
pub open spec fn newer_than(h: Seq<InputEntry>, tick: u32) -> Seq<InputEntry>
    decreases h.len(),
{
    if h.len() == 0 {
        h
    } else if h.last().tick > tick {
        newer_than(h.drop_last(), tick).push(h.last())
    } else {
        newer_than(h.drop_last(), tick)
    }
}

/// Pruning keeps exactly the later entries, in order, and never adds one.
pub proof fn lemma_newer_than(h: Seq<InputEntry>, tick: u32)
    ensures
        newer_than(h, tick).len() <= h.len(),
        forall|i: int|
            0 <= i < newer_than(h, tick).len() ==> (#[trigger] newer_than(h, tick)[i]).tick > tick
                && h.contains(newer_than(h, tick)[i]),
        forall|i: int|
            0 <= i < h.len() && (#[trigger] h[i]).tick > tick ==> newer_than(h, tick).contains(
                h[i],
            ),
    decreases h.len(),
{
    if h.len() > 0 {
        let front = h.drop_last();
        let kept = newer_than(h, tick);
        lemma_newer_than(front, tick);
        assert forall|i: int| 0 <= i < kept.len() implies (#[trigger] kept[i]).tick > tick
            && h.contains(kept[i]) by {
            if i < newer_than(front, tick).len() {
                let e = newer_than(front, tick)[i];
                assert(front.contains(e));
                let k = choose|k: int| 0 <= k < front.len() && front[k] == e;
                assert(h[k] == e);
            } else {
                assert(kept[i] == h[h.len() - 1]);
            }
        }
        assert forall|i: int|
            0 <= i < h.len() && (#[trigger] h[i]).tick > tick implies kept.contains(h[i]) by {
            if i < front.len() {
                assert(front[i] == h[i]);
                assert(newer_than(front, tick).contains(h[i]));
                let k = choose|k: int|
                    0 <= k < newer_than(front, tick).len() && newer_than(front, tick)[k] == h[i];
                assert(kept[k] == h[i]);
            } else {
                assert(kept[kept.len() - 1] == h[i]);
            }
        }
    }
}

/// Pruning a second time at the same tick changes nothing.
pub proof fn lemma_newer_than_twice(h: Seq<InputEntry>, tick: u32)
    ensures
        newer_than(newer_than(h, tick), tick) == newer_than(h, tick),
    decreases h.len(),
{
    if h.len() > 0 {
        lemma_newer_than_twice(h.drop_last(), tick);
        if h.last().tick > tick {
            let kept = newer_than(h, tick);
            assert(kept.drop_last() =~= newer_than(h.drop_last(), tick));
        }
    }
}

/// The client's record of the input it has sent: at most [`MAX_HISTORY`]
/// entries, oldest first.
#[derive(Debug)]
pub struct InputHistory {
    entries: Vec<InputEntry>,
}

impl View for InputHistory {
    type V = Seq<InputEntry>;

    closed spec fn view(&self) -> Seq<InputEntry> {
        self.entries@
    }
}

impl InputHistory {
    /// Whether the history is within its capacity.
    pub open spec fn wf(&self) -> bool {
        self@.len() <= MAX_HISTORY
    }

    /// An empty history.
    pub fn new() -> (h: Self)
        ensures
            h@ == Seq::<InputEntry>::empty(),
            h.wf(),
    {
        InputHistory { entries: Vec::new() }
    }

    /// The number of entries held.
    pub fn len(&self) -> (n: usize)
        ensures
            n == self@.len(),
    {
        self.entries.len()
    }

    /// The entry at position `i`, the oldest being at 0; `None` behind the
    /// last one.
    pub fn get(&self, i: usize) -> (e: Option<InputEntry>)
        ensures
            e == (if i < self@.len() {
                Some(self@[i as int])
            } else {
                None
            }),
    {
        if i < self.entries.len() {
            Some(self.entries[i])
        } else {
            None
        }
    }

    /// Records the input of one tick, dropping the oldest entry when the
    /// capacity is exceeded.
    pub fn push(&mut self, tick: u32, mask: u8)
        ensures
            final(self)@ == recorded(old(self)@, InputEntry { tick, mask }),
            old(self).wf() ==> final(self).wf(),
    {
        self.entries.push(InputEntry { tick, mask });
        if self.entries.len() > MAX_HISTORY {
            self.entries.remove(0);
            assert(self.entries@ =~= old(self)@.push(InputEntry { tick, mask }).skip(1));
        }
    }

    /// Forgets every entry whose tick is not later than `tick`.
    pub fn retain_newer(&mut self, tick: u32)
        ensures
            final(self)@ == newer_than(old(self)@, tick),
            old(self).wf() ==> final(self).wf(),
    {
        let mut kept: Vec<InputEntry> = Vec::new();
        let mut i: usize = 0;
        while i < self.entries.len()
            invariant
                i <= self.entries@.len(),
                self.entries@ == old(self)@,
                kept@ == newer_than(self.entries@.take(i as int), tick),
            decreases self.entries@.len() - i,
        {
            let e = self.entries[i];
            assert(self.entries@.take(i + 1).drop_last() =~= self.entries@.take(i as int));
            if e.tick > tick {
                kept.push(e);
            }
            i += 1;
        }
        assert(self.entries@.take(i as int) =~= self.entries@);
        proof {
            lemma_newer_than(old(self)@, tick);
        }
        self.entries = kept;
    }
}

impl Default for InputHistory {
    fn default() -> (h: Self)
        ensures
            h@ == Seq::<InputEntry>::empty(),
            h.wf(),
    {
        InputHistory::new()
    }
}

} // verus!
