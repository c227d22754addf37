//! The two handshake messages: the binary request a client sends to claim a
//! player slot, and the textual acknowledgement the server answers with.

use crate::ascii::{
    decimal, first_index_of, is_digit, lemma_decimal, lemma_first_index_is, lemma_parse_decimal,
    parse_u8, parse_u8_text, put_decimal, BAR,
};
use crate::wire::{get_u32, lemma_u32_at_be, lemma_u32_be_at, put_bytes, put_u32, u32_at, u32_be};
use vstd::prelude::*;
use vstd::slice::slice_subrange;
use vstd::utf8::{decode_utf8, encode_utf8, valid_utf8};
use vstd::utf8::{decode_utf8_encode_utf8, encode_utf8_decode_utf8, encode_utf8_valid_utf8};
use vstd::utf8::{is_ascii_chars, is_ascii_chars_encode_utf8};

verus! {

/// Number of bytes in front of the first length-prefixed field of a request:
/// tick, player number, packet number.
pub const HANDSHAKE_HEADER_LEN: usize = 6;

/// A client's request to join, as it is held in memory.
#[derive(Debug, Clone)]
pub struct HandshakeData {
    pub tick: u32,
    pub player_number: u8,
    pub packet_number: u8,
    pub character_selection: String,
    pub player_name: String,
}

/// The mathematical content of a [`HandshakeData`].
pub struct HandshakeDataView {
    pub tick: u32,
    pub player_number: u8,
    pub packet_number: u8,
    pub character_selection: Seq<char>,
    pub player_name: Seq<char>,
}

impl View for HandshakeData {
    type V = HandshakeDataView;

    open spec fn view(&self) -> HandshakeDataView {
        HandshakeDataView {
            tick: self.tick,
            player_number: self.player_number,
            packet_number: self.packet_number,
            character_selection: self.character_selection@,
            player_name: self.player_name@,
        }
    }
}

/// What the lossy decoder makes of bytes that are not well-formed UTF-8.
pub uninterp spec fn utf8_lossy(bytes: Seq<u8>) -> Seq<char>;

/// The text a byte field is read as: its characters when the bytes are
/// well-formed UTF-8, and the lossy decoding otherwise.
pub open spec fn lossy_text(bytes: Seq<u8>) -> Seq<char> {
    if valid_utf8(bytes) {
        decode_utf8(bytes)
    } else {
        utf8_lossy(bytes)
    }
}

/// A byte field behind its one-byte length. The length byte holds the low
/// eight bits of the field's length, so only fields of at most 255 bytes can
/// be read back.
pub open spec fn length_prefixed(field: Seq<u8>) -> Seq<u8> {
    seq![(field.len() % 256) as u8] + field
}

/// The wire image of a request:
/// `tick:4 | player_number:1 | packet_number:1 | sel_len:1 | sel | name_len:1 | name`.
pub open spec fn handshake_bytes(h: HandshakeDataView) -> Seq<u8> {
    u32_be(h.tick) + seq![h.player_number, h.packet_number] + length_prefixed(
        encode_utf8(h.character_selection),
    ) + length_prefixed(encode_utf8(h.player_name))
}

/// Whether a request fits the wire format: both text fields take at most 255
/// bytes.
pub open spec fn handshake_fits(h: HandshakeDataView) -> bool {
    encode_utf8(h.character_selection).len() <= 255 && encode_utf8(h.player_name).len() <= 255
}

/// Where the name's length byte stands in a datagram that holds a selection
/// length byte.
pub open spec fn name_len_at(bytes: Seq<u8>) -> int {
    HANDSHAKE_HEADER_LEN + 1 + bytes[HANDSHAKE_HEADER_LEN as int]
}

/// Whether a datagram has the shape of a request: the header, then two
/// length-prefixed fields that lie wholly inside it. Bytes behind the name are
/// allowed and ignored.
pub open spec fn has_handshake_shape(bytes: Seq<u8>) -> bool {
    &&& bytes.len() > HANDSHAKE_HEADER_LEN
    &&& name_len_at(bytes) < bytes.len()
    &&& name_len_at(bytes) + 1 + bytes[name_len_at(bytes)] <= bytes.len()
}

/// The selection bytes of a request-shaped datagram.
pub open spec fn selection_field(bytes: Seq<u8>) -> Seq<u8> {
    bytes.subrange(HANDSHAKE_HEADER_LEN + 1, name_len_at(bytes))
}

/// The name bytes of a request-shaped datagram.
pub open spec fn name_field(bytes: Seq<u8>) -> Seq<u8> {
    bytes.subrange(name_len_at(bytes) + 1, name_len_at(bytes) + 1 + bytes[name_len_at(bytes)])
}

/// The request a datagram holds, if it has the shape of one.
pub open spec fn parse_handshake(bytes: Seq<u8>) -> Option<HandshakeDataView> {
    if has_handshake_shape(bytes) {
        Some(
            HandshakeDataView {
                tick: u32_at(bytes, 0),
                player_number: bytes[4],
                packet_number: bytes[5],
                character_selection: lossy_text(selection_field(bytes)),
                player_name: lossy_text(name_field(bytes)),
            },
        )
    } else {
        None
    }
}

/// Calls `String::from_utf8_lossy` and takes the result as an owned string.
/// Trusted: on well-formed UTF-8 the string holds exactly the characters the
/// bytes encode; on anything else it is the decoder's replacement text, a
/// function of the bytes alone.
#[verifier::external_body]
fn text_from_bytes(bytes: &[u8]) -> (s: String)
    ensures
        valid_utf8(bytes@) ==> s@ == decode_utf8(bytes@),
        !valid_utf8(bytes@) ==> s@ == utf8_lossy(bytes@),
{
    String::from_utf8_lossy(bytes).into_owned()
}

impl HandshakeData {
    /// A request with the given fields.
    pub fn new(
        packet_number: u8,
        tick: u32,
        player_number: u8,
        character_selection: &str,
        player_name: &str,
    ) -> (h: Self)
        ensures
            h@ == (HandshakeDataView {
                tick,
                player_number,
                packet_number,
                character_selection: character_selection@,
                player_name: player_name@,
            }),
    {
        HandshakeData {
            tick,
            player_number,
            packet_number,
            character_selection: character_selection.to_owned(),
            player_name: player_name.to_owned(),
        }
    }

    /// The wire image of this request.
    pub fn encode(&self) -> (buf: Vec<u8>)
        ensures
            buf@ == handshake_bytes(self@),
    {
        let mut buf: Vec<u8> = Vec::new();
        put_u32(&mut buf, self.tick);
        buf.push(self.player_number);
        buf.push(self.packet_number);
        let selection = self.character_selection.as_str().as_bytes();
        buf.push((selection.len() % 256) as u8);
        put_bytes(&mut buf, selection);
        let name = self.player_name.as_str().as_bytes();
        buf.push((name.len() % 256) as u8);
        put_bytes(&mut buf, name);
        assert(buf@ =~= handshake_bytes(self@));
        buf
    }

    /// Reads a request from a datagram. Every field is checked against the
    /// bytes that are left before it is read, so a short or cut-off datagram
    /// gives `None`; text that is not UTF-8 is decoded lossily.
    pub fn decode(data: &[u8]) -> (r: Option<Self>)
        ensures
            r is Some <==> has_handshake_shape(data@),
            r matches Some(h) ==> Some(h@) == parse_handshake(data@),
    {
        if data.len() <= HANDSHAKE_HEADER_LEN {
            return None;
        }
        let tick = get_u32(data, 0);
        let player_number = data[4];
        let packet_number = data[5];
        let selection_len = data[HANDSHAKE_HEADER_LEN] as usize;
        let name_at: usize = HANDSHAKE_HEADER_LEN + 1 + selection_len;
        if name_at >= data.len() {
            return None;
        }
        let name_len = data[name_at] as usize;
        if name_at + 1 + name_len > data.len() {
            return None;
        }
        let character_selection = text_from_bytes(
            slice_subrange(data, HANDSHAKE_HEADER_LEN + 1, name_at),
        );
        let player_name = text_from_bytes(
            slice_subrange(data, name_at + 1, name_at + 1 + name_len),
        );
        Some(HandshakeData { tick, player_number, packet_number, character_selection, player_name })
    }
}

/// A request that fits the wire format is read back from its own image
/// field for field.
pub proof fn lemma_handshake_decode_encode(h: HandshakeDataView)
    requires
        handshake_fits(h),
    ensures
        parse_handshake(handshake_bytes(h)) == Some(h),
{
    let sel = encode_utf8(h.character_selection);
    let name = encode_utf8(h.player_name);
    let bytes = handshake_bytes(h);
    assert(bytes.len() == 8 + sel.len() + name.len());
    assert(bytes[6] as int == sel.len());
    assert(name_len_at(bytes) == 7 + sel.len());
    assert(bytes[7 + sel.len() as int] as int == name.len());
    assert(has_handshake_shape(bytes));
    assert(selection_field(bytes) =~= sel);
    assert(name_field(bytes) =~= name);
    assert(bytes.subrange(0, 4) =~= u32_be(h.tick));
    lemma_u32_at_be(bytes, 0, h.tick);
    encode_utf8_valid_utf8(h.character_selection);
    encode_utf8_valid_utf8(h.player_name);
    encode_utf8_decode_utf8(h.character_selection);
    encode_utf8_decode_utf8(h.player_name);
    assert(parse_handshake(bytes)->0.character_selection == h.character_selection);
    assert(parse_handshake(bytes)->0.player_name == h.player_name);
}

/// A datagram that is exactly one request, with well-formed UTF-8 in both
/// text fields, is the image of the request that is read from it.
pub proof fn lemma_handshake_encode_decode(bytes: Seq<u8>)
    requires
        has_handshake_shape(bytes),
        bytes.len() == name_len_at(bytes) + 1 + bytes[name_len_at(bytes)],
        valid_utf8(selection_field(bytes)),
        valid_utf8(name_field(bytes)),
    ensures
        parse_handshake(bytes) is Some,
        handshake_fits(parse_handshake(bytes)->0),
        handshake_bytes(parse_handshake(bytes)->0) == bytes,
{
    let h = parse_handshake(bytes)->0;
    decode_utf8_encode_utf8(selection_field(bytes));
    decode_utf8_encode_utf8(name_field(bytes));
    lemma_u32_be_at(bytes, 0);
    assert(handshake_bytes(h) =~= bytes);
}

/// The server's answer to a request, as it is held in memory.
#[derive(Debug, Clone)]
pub struct HandshakeResponse {
    pub label: String,
    pub player_number: u8,
    pub packet_number: u8,
}

/// The mathematical content of a [`HandshakeResponse`].
pub struct HandshakeResponseView {
    pub label: Seq<char>,
    pub player_number: u8,
    pub packet_number: u8,
}

impl View for HandshakeResponse {
    type V = HandshakeResponseView;

    open spec fn view(&self) -> HandshakeResponseView {
        HandshakeResponseView {
            label: self.label@,
            player_number: self.player_number,
            packet_number: self.packet_number,
        }
    }
}

/// The label that every acknowledgement starts with.
pub open spec fn ack_label() -> Seq<char> {
    seq!['A', 'C', 'K']
}

/// The label and the separator behind it, as bytes: `ACK|`.
pub open spec fn ack_prefix() -> Seq<u8> {
    seq![0x41u8, 0x43u8, 0x4Bu8, BAR]
}

/// The wire image of an answer: `<label>|<player_number>|<packet_number>`,
/// the numbers in decimal without leading zeros.
pub open spec fn response_bytes(r: HandshakeResponseView) -> Seq<u8> {
    encode_utf8(r.label) + seq![BAR] + decimal(r.player_number as nat) + seq![BAR] + decimal(
        r.packet_number as nat,
    )
}

/// The answer a datagram holds: `ACK`, a separator, a number, a separator and
/// a number, with nothing else around them. Each number may carry one leading
/// `+` and leading zeros.
pub open spec fn parse_response(bytes: Seq<u8>) -> Option<HandshakeResponseView> {
    let rest = bytes.skip(4);
    let bar = first_index_of(rest, BAR);
    if bytes.len() >= 4 && bytes.take(4) == ack_prefix() && bar < rest.len() {
        match (parse_u8_text(rest.take(bar)), parse_u8_text(rest.skip(bar + 1))) {
            (Some(player_number), Some(packet_number)) => Some(
                HandshakeResponseView { label: ack_label(), player_number, packet_number },
            ),
            _ => None,
        }
    } else {
        None
    }
}

/// The label's text is the label's characters.
proof fn lemma_ack_literal()
    ensures
        "ACK"@ == ack_label(),
{
    reveal_strlit("ACK");
    assert("ACK"@ =~= ack_label());
}

/// The label and its separator are the four bytes `ACK|`.
proof fn lemma_ack_prefix()
    ensures
        encode_utf8(ack_label()) + seq![BAR] == ack_prefix(),
{
    assert(is_ascii_chars(ack_label()));
    is_ascii_chars_encode_utf8(ack_label());
    let e = encode_utf8(ack_label());
    assert(e[0] == ack_label()[0] as u8);
    assert(e[1] == ack_label()[1] as u8);
    assert(e[2] == ack_label()[2] as u8);
    assert(e + seq![BAR] =~= ack_prefix());
}

impl HandshakeResponse {
    /// The answer to a request: the label `ACK` and the request's two numbers.
    pub fn new(player_number: u8, packet_number: u8) -> (r: Self)
        ensures
            r@ == (HandshakeResponseView { label: ack_label(), player_number, packet_number }),
    {
        proof {
            lemma_ack_literal();
        }
        HandshakeResponse { label: "ACK".to_owned(), player_number, packet_number }
    }

    /// The wire image of this answer.
    pub fn encode(&self) -> (buf: Vec<u8>)
        ensures
            buf@ == response_bytes(self@),
    {
        let mut buf: Vec<u8> = Vec::new();
        put_bytes(&mut buf, self.label.as_str().as_bytes());
        buf.push(BAR);
        put_decimal(&mut buf, self.player_number);
        buf.push(BAR);
        put_decimal(&mut buf, self.packet_number);
        assert(buf@ =~= response_bytes(self@));
        buf
    }

    /// Reads an answer from a datagram; `None` for anything that is not one.
    pub fn decode(data: &[u8]) -> (r: Option<Self>)
        ensures
            r is Some <==> parse_response(data@) is Some,
            r matches Some(a) ==> Some(a@) == parse_response(data@),
    {
        if data.len() < 4 || data[0] != 0x41 || data[1] != 0x43 || data[2] != 0x4B || data[3]
            != BAR {
            assert(data@.len() >= 4 ==> data@.take(4)[0] == data@[0] && data@.take(4)[1] == data@[1]
                && data@.take(4)[2] == data@[2] && data@.take(4)[3] == data@[3]);
            return None;
        }
        assert(data@.take(4) =~= ack_prefix());
        let ghost rest = data@.skip(4);
        let mut bar: usize = 4;
        while bar < data.len() && data[bar] != BAR
            invariant
                4 <= bar <= data@.len(),
                rest == data@.skip(4),
                forall|k: int| 0 <= k < bar - 4 ==> rest[k] != BAR,
            decreases data@.len() - bar,
        {
            bar += 1;
        }
        proof {
            lemma_first_index_is(rest, BAR, bar - 4);
        }
        if bar >= data.len() {
            return None;
        }
        let first = parse_u8(slice_subrange(data, 4, bar));
        let second = parse_u8(slice_subrange(data, bar + 1, data.len()));
        assert(data@.subrange(4, bar as int) =~= rest.take(bar - 4));
        assert(data@.subrange(bar + 1, data@.len() as int) =~= rest.skip(bar - 4 + 1));
        match (first, second) {
            (Some(player_number), Some(packet_number)) => {
                proof {
                    lemma_ack_literal();
                }
                Some(HandshakeResponse { label: "ACK".to_owned(), player_number, packet_number })
            },
            _ => None,
        }
    }
}

/// An answer that carries the label `ACK` is read back from its own image
/// field for field.
pub proof fn lemma_response_decode_encode(r: HandshakeResponseView)
    requires
        r.label == ack_label(),
    ensures
        parse_response(response_bytes(r)) == Some(r),
{
    let first = decimal(r.player_number as nat);
    let second = decimal(r.packet_number as nat);
    let bytes = response_bytes(r);
    lemma_ack_prefix();
    lemma_decimal(r.player_number as nat);
    lemma_decimal(r.packet_number as nat);
    assert(bytes =~= ack_prefix() + first + seq![BAR] + second);
    assert(bytes.take(4) =~= ack_prefix());
    let rest = bytes.skip(4);
    assert(rest =~= first + seq![BAR] + second);
    assert forall|i: int| 0 <= i < first.len() implies rest[i] != BAR by {
        assert(is_digit(first[i]));
    }
    lemma_first_index_is(rest, BAR, first.len() as int);
    assert(rest.take(first.len() as int) =~= first);
    assert(rest.skip(first.len() as int + 1) =~= second);
    lemma_parse_decimal(r.player_number);
    lemma_parse_decimal(r.packet_number);
}

} // verus!
