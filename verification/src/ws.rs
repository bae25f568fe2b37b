//! WebSocket framing for single, unfragmented binary frames, and the opening
//! handshake's reply.

use vstd::prelude::*;
use vstd::slice::*;
use vstd::string::*;
use vstd::utf8::*;
use crate::bytes::{copy_to_slice, overlay};
use crate::http::{lookup, put_field, Request, RequestView, Response, ResponseView};
use crate::text::{contains_bytes, bytes_equal, find_bytes, lemma_contains_bytes};

verus! {

/// What makes a client frame unusable.
#[derive(PartialEq, Eq, Structural, Copy, Clone, Debug)]
pub enum WsError {
    /// The buffer ends inside the frame header.
    MalformedHeader,
    /// The frame is a fragment of a longer message.
    Fragmented,
    /// The opcode is neither binary nor close.
    DisallowedOpcode,
    /// The frame is not masked.
    MaskAbsent,
    /// The frame announces a 64-bit length.
    UnsupportedLength,
    /// The buffer holds fewer payload bytes than the header announces.
    ShortPayload,
}

/// What a usable client frame brings.
#[derive(Debug)]
pub enum WsMessage {
    /// The unmasked payload of a binary frame.
    Binary(Vec<u8>),
    /// The peer closes the connection.
    Close,
}

/// A frame's content, apart from how it is stored.
pub enum FrameView {
    Binary(Seq<u8>),
    Close,
}

impl View for WsMessage {
    type V = FrameView;

    open spec fn view(&self) -> FrameView {
        match *self {
            WsMessage::Binary(v) => FrameView::Binary(v@),
            WsMessage::Close => FrameView::Close,
        }
    }
}

/// Largest payload that fits the 7-bit length field.
pub const MAX_SHORT_PAYLOAD: usize = 125;

/// Largest payload that fits the 16-bit extended length.
pub const MAX_PAYLOAD: usize = 65535;

/// FIN bit of a frame.
pub open spec fn frame_fin(b: Seq<u8>) -> bool {
    b[0] & 0x80 != 0
}

/// Opcode of a frame.
pub open spec fn frame_opcode(b: Seq<u8>) -> u8 {
    b[0] & 0x0f
}

/// MASK bit of a frame.
pub open spec fn frame_masked(b: Seq<u8>) -> bool {
    b[1] & 0x80 != 0
}

/// The 7-bit length field of a frame.
pub open spec fn frame_len7(b: Seq<u8>) -> u8 {
    b[1] & 0x7f
}

/// Number of header bytes before the masking key.
pub open spec fn frame_header_len(b: Seq<u8>) -> int {
    if frame_len7(b) == 126 {
        4
    } else {
        2
    }
}

/// Payload length that the header announces; the extended length is
/// big-endian.
pub open spec fn frame_payload_len(b: Seq<u8>) -> int {
    if frame_len7(b) == 126 {
        b[2] as int * 256 + b[3] as int
    } else {
        frame_len7(b) as int
    }
}

/// `data` with each byte XORed with the key byte of its position modulo 4.
pub open spec fn mask_with(data: Seq<u8>, key: Seq<u8>) -> Seq<u8> {
    Seq::new(data.len(), |i: int| data[i] ^ key[i % 4])
}

/// What a buffer that holds one client frame decodes to. The checks come in
/// this order: two header bytes, FIN, opcode (a close frame ends here), MASK,
/// length field, extended length, masking key and payload. Bytes after the
/// announced payload are not looked at.
pub open spec fn decode_frame(b: Seq<u8>) -> Result<FrameView, WsError> {
    if b.len() < 2 {
        Err(WsError::MalformedHeader)
    } else if !frame_fin(b) {
        Err(WsError::Fragmented)
    } else if frame_opcode(b) == 0x8 {
        Ok(FrameView::Close)
    } else if frame_opcode(b) != 0x2 {
        Err(WsError::DisallowedOpcode)
    } else if !frame_masked(b) {
        Err(WsError::MaskAbsent)
    } else if frame_len7(b) == 127 {
        Err(WsError::UnsupportedLength)
    } else if b.len() < frame_header_len(b) {
        Err(WsError::MalformedHeader)
    } else if b.len() < frame_header_len(b) + 4 + frame_payload_len(b) {
        Err(WsError::ShortPayload)
    } else {
        let start = frame_header_len(b) + 4;
        Ok(
            FrameView::Binary(
                mask_with(
                    b.subrange(start, start + frame_payload_len(b)),
                    b.subrange(frame_header_len(b), start),
                ),
            ),
        )
    }
}

/// Header of a final binary frame for a payload of `len` bytes, with the MASK
/// bit as given.
pub open spec fn frame_header(len: nat, masked: bool) -> Seq<u8> {
    let flag: u8 = if masked {
        0x80
    } else {
        0x00
    };
    if len <= 125 {
        seq![0x82u8, flag | (len as u8)]
    } else {
        seq![0x82u8, flag | 126u8, (len / 256) as u8, (len % 256) as u8]
    }
}

/// The frame that the server sends for a payload: final, binary, unmasked.
pub open spec fn server_frame(payload: Seq<u8>) -> Seq<u8> {
    frame_header(payload.len(), false) + payload
}

/// The frame that a client sends for a payload under a masking key.
pub open spec fn client_frame(payload: Seq<u8>, key: Seq<u8>) -> Seq<u8> {
    frame_header(payload.len(), true) + key + mask_with(payload, key)
}

/// The bits of `v` from position `bit` on, `width` of them, counting from the
/// most significant bit.
pub open spec fn bit_field(v: u16, bit: u8, width: u8) -> u16 {
    (v >> ((16 - bit - width) as u16)) & (((1u16 << (width as u16)) - 1) as u16)
}

/// Whether the bit at position `bit` of `v` is set, counting from the most
/// significant bit.
pub open spec fn bit_set(v: u16, bit: u8) -> bool {
    v & (1u16 << ((15 - bit) as u16)) != 0
}

/// The bits of `v` from position `bit` on, `width` of them, counting from the
/// most significant bit.
pub fn extract_bits(v: u16, bit: u8, width: u8) -> (r: u16)
    requires
        0 < width < 16,
        bit + width <= 16,
    ensures
        r == bit_field(v, bit, width),
{
    let shift: u16 = (16 - bit - width) as u16;
    let w: u16 = width as u16;
    assert((1u16 << w) >= 1) by (bit_vector)
        requires
            w < 16,
    ;
    let mask: u16 = (1u16 << w) - 1;
    (v >> shift) & mask
}

/// Whether the bit at position `bit` of `v` is set, counting from the most
/// significant bit.
pub fn test_bit(v: u16, bit: u8) -> (b: bool)
    requires
        bit <= 15,
    ensures
        b == bit_set(v, bit),
{
    let bit: u16 = (15 - bit) as u16;
    (v & (1u16 << bit)) != 0
}

/// Unmasking what was masked under the same key gives the data back.
pub proof fn lemma_mask_twice(data: Seq<u8>, key: Seq<u8>)
    requires
        key.len() == 4,
    ensures
        mask_with(mask_with(data, key), key) == data,
{
    assert forall|i: int| 0 <= i < data.len() implies mask_with(mask_with(data, key), key)[i]
        == data[i] by {
        let d = data[i];
        let k = key[i % 4];
        assert((d ^ k) ^ k == d) by (bit_vector);
    }
    assert(mask_with(mask_with(data, key), key) =~= data);
}

/// The header bytes written for a length say that length again.
proof fn lemma_frame_header_fields(len: nat, masked: bool)
    requires
        len <= 65535,
    ensures
        frame_header(len, masked).len() == (if len <= 125 {
            2int
        } else {
            4int
        }),
        frame_fin(frame_header(len, masked)),
        frame_opcode(frame_header(len, masked)) == 0x2,
        frame_masked(frame_header(len, masked)) == masked,
        frame_len7(frame_header(len, masked)) == (if len <= 125 {
            len as u8
        } else {
            126u8
        }),
        len > 125 ==> frame_header(len, masked)[2] as int * 256 + frame_header(
            len,
            masked,
        )[3] as int == len,
{
    let h = frame_header(len, masked);
    assert(0x82u8 & 0x80 != 0) by (bit_vector);
    assert(0x82u8 & 0x0f == 0x2) by (bit_vector);
    if len <= 125 {
        let l = len as u8;
        assert((0x80u8 | l) & 0x80 != 0 && (0x80u8 | l) & 0x7f == l && (0x00u8 | l) & 0x80 == 0
            && (0x00u8 | l) & 0x7f == l) by (bit_vector)
            requires
                l <= 125,
        ;
    } else {
        assert((0x80u8 | 126u8) & 0x80 != 0 && (0x80u8 | 126u8) & 0x7f == 126 && (0x00u8 | 126u8)
            & 0x80 == 0 && (0x00u8 | 126u8) & 0x7f == 126) by (bit_vector);
    }
}

/// A frame that a client builds for a payload of at most 65535 bytes, under
/// any masking key, decodes to that payload.
pub proof fn lemma_client_frame_round_trip(payload: Seq<u8>, key: Seq<u8>)
    requires
        payload.len() <= 65535,
        key.len() == 4,
    ensures
        decode_frame(client_frame(payload, key)) == Ok::<FrameView, WsError>(
            FrameView::Binary(payload),
        ),
{
    let h = frame_header(payload.len(), true);
    let b = client_frame(payload, key);
    lemma_frame_header_fields(payload.len(), true);
    assert(b[0] == h[0] && b[1] == h[1]);
    if payload.len() > 125 {
        assert(b[2] == h[2] && b[3] == h[3]);
    }
    let hl = frame_header_len(b);
    assert(hl == h.len());
    assert(frame_payload_len(b) == payload.len());
    assert(b.subrange(hl, hl + 4) =~= key);
    assert(b.subrange(hl + 4, hl + 4 + payload.len()) =~= mask_with(payload, key));
    lemma_mask_twice(payload, key);
}

/// A frame that the server builds is final, binary and unmasked, announces
/// the payload's length, and carries the payload unchanged behind its header.
pub proof fn lemma_server_frame_shape(payload: Seq<u8>)
    requires
        payload.len() <= 65535,
    ensures
        frame_fin(server_frame(payload)),
        frame_opcode(server_frame(payload)) == 0x2,
        !frame_masked(server_frame(payload)),
        frame_payload_len(server_frame(payload)) == payload.len(),
        server_frame(payload).skip(frame_header_len(server_frame(payload))) == payload,
{
    let h = frame_header(payload.len(), false);
    let b = server_frame(payload);
    lemma_frame_header_fields(payload.len(), false);
    assert(b[0] == h[0] && b[1] == h[1]);
    if payload.len() > 125 {
        assert(b[2] == h[2] && b[3] == h[3]);
    }
    assert(b.skip(frame_header_len(b)) =~= payload);
}

/// Decodes a buffer that holds one client frame: the unmasked payload of a
/// binary frame, the close signal, or the reason why the frame is unusable.
pub fn decode_ws_packet(buf: &[u8]) -> (res: Result<WsMessage, WsError>)
    ensures
        res is Ok <==> decode_frame(buf@) is Ok,
        res matches Ok(m) ==> decode_frame(buf@) == Ok::<FrameView, WsError>(m@),
        res matches Err(e) ==> decode_frame(buf@) == Err::<FrameView, WsError>(e),
{
    if buf.len() < 2 {
        return Err(WsError::MalformedHeader);
    }
    let b0 = buf[0];
    let b1 = buf[1];
    let header: u16 = (b0 as u16) << 8 | b1 as u16;

    let final_packet = test_bit(header, 0);
    let opcode = extract_bits(header, 4, 4);
    let masked = test_bit(header, 8);
    let len7 = extract_bits(header, 9, 7);
    proof {
        assert(bit_set(header, 0) == (b0 & 0x80 != 0) && bit_field(header, 4, 4) == (b0
            & 0x0f) as u16 && bit_set(header, 8) == (b1 & 0x80 != 0) && bit_field(header, 9, 7)
            == (b1 & 0x7f) as u16 && (b1 & 0x7f) <= 127) by (bit_vector)
            requires
                header == (b0 as u16) << 8 | b1 as u16,
        ;
    }
    if !final_packet {
        return Err(WsError::Fragmented);
    }
    if opcode == 0x8 {
        return Ok(WsMessage::Close);
    }
    if opcode != 0x2 {
        return Err(WsError::DisallowedOpcode);
    }
    if !masked {
        return Err(WsError::MaskAbsent);
    }
    if len7 == 127 {
        return Err(WsError::UnsupportedLength);
    }
    let header_len: usize = if len7 == 126 {
        4
    } else {
        2
    };
    if buf.len() < header_len {
        return Err(WsError::MalformedHeader);
    }
    let extlen: usize = if len7 == 126 {
        let b2 = buf[2];
        let b3 = buf[3];
        let wide: u16 = (b2 as u16) << 8 | b3 as u16;
        assert(wide == b2 as u16 * 256 + b3 as u16) by (bit_vector)
            requires
                wide == (b2 as u16) << 8 | b3 as u16,
        ;
        wide as usize
    } else {
        len7 as usize
    };
    assert(extlen == frame_payload_len(buf@));
    if buf.len() - header_len < extlen + 4 {
        return Err(WsError::ShortPayload);
    }
    let start: usize = header_len + 4;
    let ghost masked_part = buf@.subrange(start as int, start + extlen);
    let ghost key = buf@.subrange(header_len as int, start as int);
    let size = buf.len();
    let mut payload: Vec<u8> = Vec::new();
    let mut i: usize = 0;
    while i < extlen
        invariant
            i <= extlen,
            start == header_len + 4,
            start + extlen <= size,
            buf@.len() == size,
            masked_part == buf@.subrange(start as int, start + extlen),
            key == buf@.subrange(header_len as int, start as int),
            payload@ == mask_with(masked_part, key).take(i as int),
        decreases extlen - i,
    {
        payload.push(buf[start + i] ^ buf[header_len + i % 4]);
        i += 1;
        assert(payload@ =~= mask_with(masked_part, key).take(i as int));
    }
    assert(payload@ =~= mask_with(masked_part, key));
    Ok(WsMessage::Binary(payload))
}

/// Writes the server's frame for `payload` to the front of `buf` and returns
/// how many bytes it takes. The rest of `buf` is left alone.
pub fn encode_ws_packet(buf: &mut [u8], payload: &[u8]) -> (len: usize)
    requires
        payload@.len() <= MAX_PAYLOAD,
        server_frame(payload@).len() <= old(buf)@.len(),
    ensures
        len == server_frame(payload@).len(),
        final(buf)@ == overlay(old(buf)@, 0, server_frame(payload@)),
{
    let ghost before = buf@;
    let len = payload.len();
    let short_len: u16 = if len <= MAX_SHORT_PAYLOAD {
        len as u16
    } else {
        126
    };

    // Compile header
    let mut header: u16 = 0u16;
    header |= 0x8000;  // FIN
    header |= 0x0200;  // opcode
    header |= short_len & 0x7f;  // len field
    assert(header >> 8 == 0x82 && header & 0xFF <= 0xFF && (header & 0xFF) as u8 == 0x00u8 | (
    short_len as u8)) by (bit_vector)
        requires
            header == ((0u16 | 0x8000u16) | 0x0200u16) | (short_len & 0x7fu16),
            short_len <= 126,
    ;

    buf[0] = (header >> 8) as u8;
    buf[1] = (header & 0xFF) as u8;

    // Write payload length
    let header_len: usize = if short_len == 126 {
        let wide: u16 = len as u16;
        assert(wide >> 8 == wide / 256 && wide & 0xFF == wide % 256 && wide >> 8 <= 0xFF && wide
            & 0xFF <= 0xFF) by (bit_vector);
        buf[2] = (wide >> 8) as u8;
        buf[3] = (wide & 0xFF) as u8;
        4
    } else {
        2
    };
    assert(buf@ =~= overlay(before, 0, frame_header(payload@.len(), false)));

    // Copy payload
    copy_to_slice(buf, header_len, payload);
    assert(buf@ =~= overlay(before, 0, server_frame(payload@)));

    header_len + len
}

/// The SHA-1 digest of a byte string.
pub uninterp spec fn sha1_digest(data: Seq<u8>) -> Seq<u8>;

/// The base64 text of a byte string, in the standard alphabet with padding.
pub uninterp spec fn base64_text(data: Seq<u8>) -> Seq<char>;

/// SHA-1 digest of `data`.
///
/// Trusted: feeds `data` to a fresh hasher of the `sha1` crate with
/// `Sha1::from` and takes the digest's bytes with `digest` and `bytes`. The
/// contract names the result, which depends on the bytes alone, and says that
/// it has the 20 bytes of the array that `bytes` returns.
#[verifier::external_body]
fn sha1_of(data: &[u8]) -> (digest: Vec<u8>)
    ensures
        digest@ == sha1_digest(data@),
        digest@.len() == 20,
{
    sha1::Sha1::from(data).digest().bytes().to_vec()
}

/// Base64 text of `data`.
///
/// Trusted: calls `base64::encode`, which encodes with the crate's standard
/// configuration. The contract names the result, which depends on the bytes
/// alone. The crate gives up where the length of the text does not fit a
/// `usize`; such input is kept out.
#[verifier::external_body]
fn base64_of(data: &[u8]) -> (text: String)
    requires
        4 * (data@.len() / 3) + 4 <= usize::MAX,
    ensures
        text@ == base64_text(data@),
{
    base64::encode(data)
}

/// The fixed string that is hashed together with the client's key.
pub open spec fn handshake_guid() -> Seq<u8> {
    "258EAFA5-E914-47DA-95CA-C5AB0DC85B11".spec_bytes()
}

/// The `Sec-WebSocket-Accept` value for a client's `Sec-WebSocket-Key`: the
/// base64 text of the SHA-1 digest of the key followed by the fixed string.
pub open spec fn accept_key_of(client_key: Seq<u8>) -> Seq<char> {
    base64_text(sha1_digest(client_key + handshake_guid()))
}

/// Computes the `Sec-WebSocket-Accept` value for a client's key.
pub fn accept_key(client_key: &[u8]) -> (accept: String)
    ensures
        accept@ == accept_key_of(client_key@),
{
    let mut material: Vec<u8> = Vec::new();
    material.extend_from_slice(client_key);
    material.extend_from_slice("258EAFA5-E914-47DA-95CA-C5AB0DC85B11".as_bytes());
    assert(material@ =~= client_key@ + handshake_guid());
    let digest = sha1_of(material.as_slice());
    base64_of(digest.as_slice())
}

/// Why an upgrade request is turned down.
#[derive(PartialEq, Eq, Structural, Copy, Clone, Debug)]
pub enum HandshakeError {
    /// The request does not ask for an upgrade to WebSocket.
    NotWebSocket,
    /// The request does not offer the `binary` sub-protocol.
    InvalidProtocol,
    /// The request has no `Sec-WebSocket-Key`.
    MissingKey,
}

impl HandshakeError {
    /// The reason in words.
    pub fn message(&self) -> (text: &'static str)
        ensures
            text@ == (match *self {
                HandshakeError::NotWebSocket => "Not a websocket upgrade"@,
                HandshakeError::InvalidProtocol => "Invalid websocket protocol"@,
                HandshakeError::MissingKey => "Missing websocket key"@,
            }),
    {
        match *self {
            HandshakeError::NotWebSocket => "Not a websocket upgrade",
            HandshakeError::InvalidProtocol => "Invalid websocket protocol",
            HandshakeError::MissingKey => "Missing websocket key",
        }
    }
}

/// Whether a request may be upgraded, and if not, why.
pub open spec fn handshake_check(req: RequestView) -> Result<(), HandshakeError> {
    if lookup(req.fields, "Upgrade".spec_bytes()) != Some("websocket".spec_bytes()) {
        Err(HandshakeError::NotWebSocket)
    } else if !(lookup(req.fields, "Sec-WebSocket-Protocol".spec_bytes()) matches Some(offer)
        && contains_bytes(offer, "binary".spec_bytes())) {
        Err(HandshakeError::InvalidProtocol)
    } else if lookup(req.fields, "Sec-WebSocket-Key".spec_bytes()) is None {
        Err(HandshakeError::MissingKey)
    } else {
        Ok(())
    }
}

/// A response head with one more field set.
pub open spec fn with_field(r: ResponseView, key: &str, value: Seq<u8>) -> ResponseView {
    ResponseView { fields: put_field(r.fields, key.spec_bytes(), value), ..r }
}

/// The reply that switches protocols, for a client's key.
pub open spec fn switching_reply(client_key: Seq<u8>) -> ResponseView {
    let r0 = ResponseView {
        status_line: "HTTP/1.1 101 Switching Protocols".spec_bytes(),
        fields: Seq::empty(),
        body: None,
    };
    let r1 = with_field(r0, "Upgrade", "websocket".spec_bytes());
    let r2 = with_field(r1, "Connection", "Upgrade".spec_bytes());
    let r3 = with_field(r2, "Sec-WebSocket-Version", "13".spec_bytes());
    let r4 = with_field(r3, "Sec-WebSocket-Protocol", "binary".spec_bytes());
    let r5 = with_field(r4, "Sec-WebSocket-Accept", encode_utf8(accept_key_of(client_key)));
    let r6 = with_field(r5, "Cache-Control", "no-cache".spec_bytes());
    with_field(r6, "Pragma", "no-cache".spec_bytes())
}

/// The reply that turns a request down.
pub open spec fn bad_request_reply() -> ResponseView {
    ResponseView {
        status_line: "HTTP/1.1 400 Bad Request".spec_bytes(),
        fields: Seq::empty(),
        body: None,
    }
}

/// The reply to an upgrade request.
pub open spec fn handshake_reply(req: RequestView) -> ResponseView {
    if handshake_check(req) is Ok {
        switching_reply(lookup(req.fields, "Sec-WebSocket-Key".spec_bytes())->0)
    } else {
        bad_request_reply()
    }
}

/// Answers a request for an upgrade to WebSocket. The first part of the
/// result is the reply to send. The second says whether the connection is
/// now a WebSocket connection, and if it is not, why: then the reply is
/// `400 Bad Request` and the stream is to be closed.
pub fn init_websocket_connection(header: &Request) -> (res: (Response, Result<(), HandshakeError>))
    ensures
        res.1 == handshake_check(header@),
        res.0@ == handshake_reply(header@),
{
    let upgrade_ok = match header.get("Upgrade".as_bytes()) {
        Some(v) => bytes_equal(v, "websocket".as_bytes()),
        None => false,
    };
    if !upgrade_ok {
        return (Response::new("HTTP/1.1 400 Bad Request"), Err(HandshakeError::NotWebSocket));
    }
    let needle = "binary".as_bytes();
    proof {
        reveal_strlit("binary");
        is_ascii_spec_bytes("binary");
        assert(needle@.len() == 6);
    }
    let protocol_ok = match header.get("Sec-WebSocket-Protocol".as_bytes()) {
        Some(offer) => {
            proof {
                lemma_contains_bytes(offer@, needle@);
            }
            find_bytes(offer, needle, 0) < offer.len()
        },
        None => false,
    };
    if !protocol_ok {
        return (Response::new("HTTP/1.1 400 Bad Request"), Err(HandshakeError::InvalidProtocol));
    }
    let key = match header.get("Sec-WebSocket-Key".as_bytes()) {
        Some(k) => k,
        None => {
            return (Response::new("HTTP/1.1 400 Bad Request"), Err(HandshakeError::MissingKey));
        },
    };
    let accept = accept_key(key);

    let mut res = Response::new("HTTP/1.1 101 Switching Protocols");
    res.set("Upgrade", "websocket");
    res.set("Connection", "Upgrade");
    res.set("Sec-WebSocket-Version", "13");
    res.set("Sec-WebSocket-Protocol", "binary");
    res.set("Sec-WebSocket-Accept", accept.as_str());

    res.set("Cache-Control", "no-cache");
    res.set("Pragma", "no-cache");
    (res, Ok(()))
}

} // verus!
