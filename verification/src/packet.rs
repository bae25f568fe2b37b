//! Application packets and their wire form: one tag byte, then a payload whose
//! layout the tag decides. Multi-byte integers are little-endian.

use vstd::prelude::*;
use vstd::slice::*;
use vstd::string::*;
use vstd::utf8::*;
use crate::bytes::{copy_to_slice, overlay, read_u32_at, u32_at, u32_le, write_u32_at};
use crate::bytes::{lemma_u32_le_round_trip};
use crate::text::string_from_utf8;
use crate::world::Species;

verus! {

/// A packet of the application protocol. Coordinates are the bit patterns of
/// single-precision numbers.
#[derive(Clone, Debug)]
pub enum Packet {
    // Client -> Server
    Debug(String),
    RequestNewSession,
    AttemptAuthSession(u32),
    RequestDownloadWorld,
    /// x, y, species
    RequestPlaceTree(u32, u32, Species),
    // Server -> Client
    AuthSuccessful(u32),
    AuthFail,
    NewSession(u32),
    /// id, x, y, species
    TreePlaced(u32, u32, u32, Species),
    TreeDied(u32),
    HealthUpdate(Vec<u8>),
    /// (id, stage) of each tree
    TreeUpdate(Vec<(u32, u8)>),
}

/// What a packet says, apart from how it is stored.
pub enum PacketView {
    Debug(Seq<char>),
    RequestNewSession,
    AttemptAuthSession(u32),
    RequestDownloadWorld,
    RequestPlaceTree(u32, u32, Species),
    AuthSuccessful(u32),
    AuthFail,
    NewSession(u32),
    TreePlaced(u32, u32, u32, Species),
    TreeDied(u32),
    HealthUpdate(Seq<u8>),
    TreeUpdate(Seq<(u32, u8)>),
}

impl View for Packet {
    type V = PacketView;

    open spec fn view(&self) -> PacketView {
        match *self {
            Packet::Debug(s) => PacketView::Debug(s@),
            Packet::RequestNewSession => PacketView::RequestNewSession,
            Packet::AttemptAuthSession(t) => PacketView::AttemptAuthSession(t),
            Packet::RequestDownloadWorld => PacketView::RequestDownloadWorld,
            Packet::RequestPlaceTree(x, y, s) => PacketView::RequestPlaceTree(x, y, s),
            Packet::AuthSuccessful(t) => PacketView::AuthSuccessful(t),
            Packet::AuthFail => PacketView::AuthFail,
            Packet::NewSession(t) => PacketView::NewSession(t),
            Packet::TreePlaced(id, x, y, s) => PacketView::TreePlaced(id, x, y, s),
            Packet::TreeDied(id) => PacketView::TreeDied(id),
            Packet::HealthUpdate(hs) => PacketView::HealthUpdate(hs@),
            Packet::TreeUpdate(ts) => PacketView::TreeUpdate(ts@),
        }
    }
}

/// Wire length of one `(id, stage)` entry of a tree update.
pub const TREE_ENTRY_LEN: usize = 5;

/// The tag byte of a packet.
pub open spec fn tag_of(p: PacketView) -> u8 {
    match p {
        PacketView::Debug(_) => 0x00,
        PacketView::RequestNewSession => 0x01,
        PacketView::AttemptAuthSession(_) => 0x02,
        PacketView::RequestDownloadWorld => 0x03,
        PacketView::RequestPlaceTree(_, _, _) => 0x10,
        PacketView::AuthSuccessful(_) => 0x80,
        PacketView::AuthFail => 0x81,
        PacketView::NewSession(_) => 0x82,
        PacketView::TreePlaced(_, _, _, _) => 0x90,
        PacketView::TreeDied(_) => 0x91,
        PacketView::HealthUpdate(_) => 0x92,
        PacketView::TreeUpdate(_) => 0x93,
    }
}

/// The entries of a tree update laid end to end: four bytes of id, one of
/// stage.
pub open spec fn tree_entries(ts: Seq<(u32, u8)>) -> Seq<u8> {
    Seq::new(
        5 * ts.len(),
        |i: int|
            if i % 5 == 4 {
                ts[i / 5].1
            } else {
                u32_le(ts[i / 5].0)[i % 5]
            },
    )
}

/// The entries that `count` whole five-byte groups of `b` hold, from offset
/// `at` on.
pub open spec fn entries_at(b: Seq<u8>, at: int, count: nat) -> Seq<(u32, u8)> {
    Seq::new(count, |i: int| (u32_at(b, at + 5 * i), b[at + 5 * i + 4]))
}

/// The payload that follows a packet's tag.
pub open spec fn payload_of(p: PacketView) -> Seq<u8> {
    match p {
        PacketView::Debug(s) => encode_utf8(s),
        PacketView::RequestNewSession => seq![],
        PacketView::AttemptAuthSession(t) => u32_le(t),
        PacketView::RequestDownloadWorld => seq![],
        PacketView::RequestPlaceTree(x, y, s) => u32_le(x) + u32_le(y) + seq![s.byte()],
        PacketView::AuthSuccessful(t) => u32_le(t),
        PacketView::AuthFail => seq![],
        PacketView::NewSession(t) => u32_le(t),
        PacketView::TreePlaced(id, x, y, s) => u32_le(id) + u32_le(x) + u32_le(y) + seq![
            s.byte(),
        ],
        PacketView::TreeDied(id) => u32_le(id),
        PacketView::HealthUpdate(hs) => hs,
        PacketView::TreeUpdate(ts) => tree_entries(ts),
    }
}

/// The bytes of a packet on the wire.
pub open spec fn wire_bytes(p: PacketView) -> Seq<u8> {
    seq![tag_of(p)] + payload_of(p)
}

/// The packet that a byte string carries. Bytes after a payload of fixed
/// length are not looked at. There is none for an empty string, an unknown
/// tag, a payload that is too short, a species byte that names no species,
/// debug text that is not UTF-8, or a tree update that is not a whole number
/// of entries.
pub open spec fn parse_wire(b: Seq<u8>) -> Option<PacketView> {
    if b.len() == 0 {
        None
    } else if b[0] == 0x00 {
        if valid_utf8(b.skip(1)) {
            Some(PacketView::Debug(decode_utf8(b.skip(1))))
        } else {
            None
        }
    } else if b[0] == 0x01 {
        Some(PacketView::RequestNewSession)
    } else if b[0] == 0x02 {
        if b.len() >= 5 {
            Some(PacketView::AttemptAuthSession(u32_at(b, 1)))
        } else {
            None
        }
    } else if b[0] == 0x03 {
        Some(PacketView::RequestDownloadWorld)
    } else if b[0] == 0x10 {
        if b.len() >= 10 && Species::of_byte(b[9]) is Some {
            Some(
                PacketView::RequestPlaceTree(u32_at(b, 1), u32_at(b, 5), Species::of_byte(b[9])->0),
            )
        } else {
            None
        }
    } else if b[0] == 0x80 {
        if b.len() >= 5 {
            Some(PacketView::AuthSuccessful(u32_at(b, 1)))
        } else {
            None
        }
    } else if b[0] == 0x81 {
        Some(PacketView::AuthFail)
    } else if b[0] == 0x82 {
        if b.len() >= 5 {
            Some(PacketView::NewSession(u32_at(b, 1)))
        } else {
            None
        }
    } else if b[0] == 0x90 {
        if b.len() >= 14 && Species::of_byte(b[13]) is Some {
            Some(
                PacketView::TreePlaced(
                    u32_at(b, 1),
                    u32_at(b, 5),
                    u32_at(b, 9),
                    Species::of_byte(b[13])->0,
                ),
            )
        } else {
            None
        }
    } else if b[0] == 0x91 {
        if b.len() >= 5 {
            Some(PacketView::TreeDied(u32_at(b, 1)))
        } else {
            None
        }
    } else if b[0] == 0x92 {
        Some(PacketView::HealthUpdate(b.skip(1)))
    } else if b[0] == 0x93 {
        if (b.len() - 1) % 5 == 0 {
            Some(PacketView::TreeUpdate(entries_at(b, 1, ((b.len() - 1) / 5) as nat)))
        } else {
            None
        }
    } else {
        None
    }
}

/// Whether a client may send the packet.
pub open spec fn client_may_send(p: PacketView) -> bool {
    tag_of(p) < 0x80
}

/// Whether the server may send the packet.
pub open spec fn server_may_send(p: PacketView) -> bool {
    tag_of(p) >= 0x80
}

/// Debug text is read back from its wire bytes.
proof fn lemma_parse_debug(text: Seq<char>)
    ensures
        parse_wire(wire_bytes(PacketView::Debug(text))) == Some(PacketView::Debug(text)),
{
    let b = wire_bytes(PacketView::Debug(text));
    assert(b[0] == 0x00);
    assert(b.skip(1) =~= encode_utf8(text));
    encode_utf8_valid_utf8(text);
    encode_utf8_decode_utf8(text);
}

/// A word after the tag is read back from where it was written.
proof fn lemma_word_after(head: Seq<u8>, v: u32, tail: Seq<u8>)
    ensures
        u32_at(head + u32_le(v) + tail, head.len() as int) == v,
{
    lemma_u32_le_round_trip(v);
    let b = head + u32_le(v) + tail;
    let at = head.len() as int;
    assert(b[at] == u32_le(v)[0]);
    assert(b[at + 1] == u32_le(v)[1]);
    assert(b[at + 2] == u32_le(v)[2]);
    assert(b[at + 3] == u32_le(v)[3]);
}

/// A packet of one word is read back from its wire bytes.
proof fn lemma_parse_word(p: PacketView, v: u32)
    requires
        p == PacketView::AttemptAuthSession(v) || p == PacketView::AuthSuccessful(v) || p
            == PacketView::NewSession(v) || p == PacketView::TreeDied(v),
    ensures
        parse_wire(wire_bytes(p)) == Some(p),
{
    let b = wire_bytes(p);
    lemma_word_after(seq![tag_of(p)], v, seq![]);
    assert(b =~= seq![tag_of(p)] + u32_le(v) + seq![]);
    assert(b[0] == tag_of(p));
    assert(b.len() == 5);
}

/// A request for a tree is read back from its wire bytes.
proof fn lemma_parse_place_tree(x: u32, y: u32, s: Species)
    ensures
        parse_wire(wire_bytes(PacketView::RequestPlaceTree(x, y, s))) == Some(
            PacketView::RequestPlaceTree(x, y, s),
        ),
{
    let b = wire_bytes(PacketView::RequestPlaceTree(x, y, s));
    lemma_word_after(seq![0x10u8], x, u32_le(y) + seq![s.byte()]);
    lemma_word_after(seq![0x10u8] + u32_le(x), y, seq![s.byte()]);
    assert(b =~= seq![0x10u8] + u32_le(x) + (u32_le(y) + seq![s.byte()]));
    assert(b =~= (seq![0x10u8] + u32_le(x)) + u32_le(y) + seq![s.byte()]);
    assert(b[0] == 0x10);
    assert(b.len() == 10);
    assert(b[9] == s.byte());
}

/// The news of a tree is read back from its wire bytes.
proof fn lemma_parse_tree_placed(id: u32, x: u32, y: u32, s: Species)
    ensures
        parse_wire(wire_bytes(PacketView::TreePlaced(id, x, y, s))) == Some(
            PacketView::TreePlaced(id, x, y, s),
        ),
{
    let b = wire_bytes(PacketView::TreePlaced(id, x, y, s));
    lemma_word_after(seq![0x90u8], id, u32_le(x) + u32_le(y) + seq![s.byte()]);
    lemma_word_after(seq![0x90u8] + u32_le(id), x, u32_le(y) + seq![s.byte()]);
    lemma_word_after(seq![0x90u8] + u32_le(id) + u32_le(x), y, seq![s.byte()]);
    assert(b =~= seq![0x90u8] + u32_le(id) + (u32_le(x) + u32_le(y) + seq![s.byte()]));
    assert(b =~= (seq![0x90u8] + u32_le(id)) + u32_le(x) + (u32_le(y) + seq![s.byte()]));
    assert(b =~= (seq![0x90u8] + u32_le(id) + u32_le(x)) + u32_le(y) + seq![s.byte()]);
    assert(b[0] == 0x90);
    assert(b.len() == 14);
    assert(b[13] == s.byte());
}

/// The entries of a tree update are read back from where they were written.
proof fn lemma_entries_round_trip(ts: Seq<(u32, u8)>, i: int)
    requires
        0 <= i < ts.len(),
    ensures
        entries_at(seq![0x93u8] + tree_entries(ts), 1, ts.len())[i] == ts[i],
{
    let b = seq![0x93u8] + tree_entries(ts);
    lemma_u32_le_round_trip(ts[i].0);
    assert(b[1 + 5 * i] == tree_entries(ts)[5 * i]);
    assert(b[1 + 5 * i + 1] == tree_entries(ts)[5 * i + 1]);
    assert(b[1 + 5 * i + 2] == tree_entries(ts)[5 * i + 2]);
    assert(b[1 + 5 * i + 3] == tree_entries(ts)[5 * i + 3]);
    assert(b[1 + 5 * i + 4] == tree_entries(ts)[5 * i + 4]);
}

/// A tree update is read back from its wire bytes.
proof fn lemma_parse_tree_update(ts: Seq<(u32, u8)>)
    ensures
        parse_wire(wire_bytes(PacketView::TreeUpdate(ts))) == Some(PacketView::TreeUpdate(ts)),
{
    let b = wire_bytes(PacketView::TreeUpdate(ts));
    assert(b[0] == 0x93);
    assert(b.len() - 1 == 5 * ts.len());
    let got = entries_at(b, 1, ((b.len() - 1) / 5) as nat);
    assert(got.len() == ts.len());
    assert forall|i: int| 0 <= i < ts.len() implies got[i] == ts[i] by {
        lemma_entries_round_trip(ts, i);
    }
    assert(got =~= ts);
}

/// Every packet is read back from its own wire bytes.
pub proof fn lemma_parse_wire_bytes(p: PacketView)
    ensures
        parse_wire(wire_bytes(p)) == Some(p),
{
    match p {
        PacketView::Debug(s) => {
            lemma_parse_debug(s);
        },
        PacketView::AttemptAuthSession(t) => {
            lemma_parse_word(p, t);
        },
        PacketView::RequestPlaceTree(x, y, s) => {
            lemma_parse_place_tree(x, y, s);
        },
        PacketView::AuthSuccessful(t) => {
            lemma_parse_word(p, t);
        },
        PacketView::NewSession(t) => {
            lemma_parse_word(p, t);
        },
        PacketView::TreePlaced(id, x, y, s) => {
            lemma_parse_tree_placed(id, x, y, s);
        },
        PacketView::TreeDied(id) => {
            lemma_parse_word(p, id);
        },
        PacketView::TreeUpdate(ts) => {
            lemma_parse_tree_update(ts);
        },
        PacketView::HealthUpdate(hs) => {
            let b = wire_bytes(p);
            assert(b[0] == 0x92);
            assert(b.skip(1) =~= hs);
        },
        PacketView::RequestNewSession => {
            assert(wire_bytes(p)[0] == 0x01);
        },
        PacketView::RequestDownloadWorld => {
            assert(wire_bytes(p)[0] == 0x03);
        },
        PacketView::AuthFail => {
            assert(wire_bytes(p)[0] == 0x81);
        },
    }
}

/// Laying one part of a packet after another is laying down their
/// concatenation.
proof fn lemma_overlay_append(s: Seq<u8>, a: Seq<u8>, b: Seq<u8>)
    requires
        a.len() + b.len() <= s.len(),
    ensures
        overlay(overlay(s, 0, a), a.len() as int, b) == overlay(s, 0, a + b),
{
    assert(overlay(overlay(s, 0, a), a.len() as int, b) =~= overlay(s, 0, a + b));
}

impl Packet {
    /// The packet's tag byte.
    pub fn get_type(&self) -> (ty: u8)
        ensures
            ty == tag_of(self@),
    {
        match *self {
            Packet::Debug(_) => 0x0,
            Packet::RequestNewSession => 0x1,
            Packet::AttemptAuthSession(_) => 0x2,
            Packet::RequestDownloadWorld => 0x3,
            Packet::RequestPlaceTree(..) => 0x10,
            Packet::AuthSuccessful(_) => 0x80,
            Packet::AuthFail => 0x81,
            Packet::NewSession(_) => 0x82,
            Packet::TreePlaced(..) => 0x90,
            Packet::TreeDied(..) => 0x91,
            Packet::HealthUpdate(..) => 0x92,
            Packet::TreeUpdate(..) => 0x93,
        }
    }

    /// Reads the packet that `src` carries, if it carries one.
    pub fn parse(src: &[u8]) -> (res: Option<Packet>)
        ensures
            res is Some <==> parse_wire(src@) is Some,
            res matches Some(p) ==> Some(p@) == parse_wire(src@),
    {
        if src.len() == 0 {
            return None;
        }
        let ty = src[0];
        match ty {
            0x0 => {
                let body = slice_subrange(src, 1, src.len());
                assert(body@ =~= src@.skip(1));
                match string_from_utf8(body) {
                    Some(s) => Some(Packet::Debug(s)),
                    None => None,
                }
            },
            0x1 => Some(Packet::RequestNewSession),
            0x2 => {
                if src.len() < 5 {
                    return None;
                }
                Some(Packet::AttemptAuthSession(read_u32_at(src, 1)))
            },
            0x3 => Some(Packet::RequestDownloadWorld),
            0x10 => {
                if src.len() < 10 {
                    return None;
                }
                match Species::from_byte(src[9]) {
                    Some(s) => Some(
                        Packet::RequestPlaceTree(read_u32_at(src, 1), read_u32_at(src, 5), s),
                    ),
                    None => None,
                }
            },
            0x80 => {
                if src.len() < 5 {
                    return None;
                }
                Some(Packet::AuthSuccessful(read_u32_at(src, 1)))
            },
            0x81 => Some(Packet::AuthFail),
            0x82 => {
                if src.len() < 5 {
                    return None;
                }
                Some(Packet::NewSession(read_u32_at(src, 1)))
            },
            0x90 => {
                if src.len() < 14 {
                    return None;
                }
                match Species::from_byte(src[13]) {
                    Some(s) => Some(
                        Packet::TreePlaced(
                            read_u32_at(src, 1),
                            read_u32_at(src, 5),
                            read_u32_at(src, 9),
                            s,
                        ),
                    ),
                    None => None,
                }
            },
            0x91 => {
                if src.len() < 5 {
                    return None;
                }
                Some(Packet::TreeDied(read_u32_at(src, 1)))
            },
            0x92 => {
                let body = slice_subrange(src, 1, src.len());
                assert(body@ =~= src@.skip(1));
                Some(Packet::HealthUpdate(slice_to_vec(body)))
            },
            0x93 => {
                if (src.len() - 1) % TREE_ENTRY_LEN != 0 {
                    return None;
                }
                let size = src.len();
                let count: usize = (size - 1) / TREE_ENTRY_LEN;
                let mut ts: Vec<(u32, u8)> = Vec::new();
                let mut i: usize = 0;
                while i < count
                    invariant
                        i <= count,
                        src@.len() == size,
                        size == 1 + 5 * count,
                        ts@ == entries_at(src@, 1, i as nat),
                    decreases count - i,
                {
                    let base: usize = 1 + i * TREE_ENTRY_LEN;
                    ts.push((read_u32_at(src, base), src[base + 4]));
                    i += 1;
                    assert(ts@ =~= entries_at(src@, 1, i as nat));
                }
                Some(Packet::TreeUpdate(ts))
            },
            _ => None,
        }
    }

    /// Number of bytes that the packet takes on the wire, where that number is
    /// at most `limit`.
    pub fn wire_len_within(&self, limit: usize) -> (res: Option<usize>)
        ensures
            res is Some <==> wire_bytes(self@).len() <= limit,
            res matches Some(n) ==> n == wire_bytes(self@).len(),
    {
        let body: usize = match self {
            Packet::Debug(s) => s.as_str().as_bytes().len(),
            Packet::RequestNewSession => 0,
            Packet::AttemptAuthSession(_) => 4,
            Packet::RequestDownloadWorld => 0,
            Packet::RequestPlaceTree(..) => 9,
            Packet::AuthSuccessful(_) => 4,
            Packet::AuthFail => 0,
            Packet::NewSession(_) => 4,
            Packet::TreePlaced(..) => 13,
            Packet::TreeDied(_) => 4,
            Packet::HealthUpdate(hs) => hs.len(),
            Packet::TreeUpdate(ts) => {
                if ts.len() > limit / TREE_ENTRY_LEN {
                    return None;
                }
                ts.len() * TREE_ENTRY_LEN
            },
        };
        assert(body == payload_of(self@).len());
        if body < limit {
            Some(body + 1)
        } else {
            None
        }
    }

    /// Writes the packet's wire bytes to the front of `dst` and returns how
    /// many they are. The rest of `dst` is left alone.
    pub fn write(&self, dst: &mut [u8]) -> (len: usize)
        requires
            old(dst)@.len() > 64,
            wire_bytes(self@).len() <= old(dst)@.len(),
        ensures
            len == wire_bytes(self@).len(),
            final(dst)@ == overlay(old(dst)@, 0, wire_bytes(self@)),
    {
        let ghost before = dst@;
        let ghost wire = wire_bytes(self@);
        let size = dst.len();
        dst[0] = self.get_type();
        assert(dst@ =~= overlay(before, 0, seq![tag_of(self@)]));
        match self {
            Packet::Debug(s) => {
                let text = s.as_str().as_bytes();
                copy_to_slice(dst, 1, text);
                proof {
                    lemma_overlay_append(before, seq![tag_of(self@)], text@);
                }
                text.len() + 1
            },
            Packet::RequestNewSession => {
                assert(wire =~= seq![tag_of(self@)]);
                1
            },
            Packet::AttemptAuthSession(tok) => {
                write_u32_at(dst, 1, *tok);
                proof {
                    lemma_overlay_append(before, seq![tag_of(self@)], u32_le(*tok));
                }
                5
            },
            Packet::RequestDownloadWorld => {
                assert(wire =~= seq![tag_of(self@)]);
                1
            },
            Packet::RequestPlaceTree(x, y, s) => {
                write_u32_at(dst, 1, *x);
                write_u32_at(dst, 5, *y);
                dst[9] = s.to_byte();
                assert(dst@ =~= overlay(before, 0, wire));
                10
            },
            Packet::AuthSuccessful(tok) => {
                write_u32_at(dst, 1, *tok);
                proof {
                    lemma_overlay_append(before, seq![tag_of(self@)], u32_le(*tok));
                }
                5
            },
            Packet::AuthFail => {
                assert(wire =~= seq![tag_of(self@)]);
                1
            },
            Packet::NewSession(tok) => {
                write_u32_at(dst, 1, *tok);
                proof {
                    lemma_overlay_append(before, seq![tag_of(self@)], u32_le(*tok));
                }
                5
            },
            Packet::TreePlaced(id, x, y, s) => {
                write_u32_at(dst, 1, *id);
                write_u32_at(dst, 5, *x);
                write_u32_at(dst, 9, *y);
                dst[13] = s.to_byte();
                assert(dst@ =~= overlay(before, 0, wire));
                14
            },
            Packet::TreeDied(id) => {
                write_u32_at(dst, 1, *id);
                proof {
                    lemma_overlay_append(before, seq![tag_of(self@)], u32_le(*id));
                }
                5
            },
            Packet::HealthUpdate(hs) => {
                copy_to_slice(dst, 1, hs.as_slice());
                proof {
                    lemma_overlay_append(before, seq![tag_of(self@)], hs@);
                }
                1 + hs.len()
            },
            Packet::TreeUpdate(ts) => {
                let mut i: usize = 0;
                while i < ts.len()
                    invariant
                        i <= ts@.len(),
                        wire == seq![0x93u8] + tree_entries(ts@),
                        wire.len() == 1 + 5 * ts@.len(),
                        wire.len() <= size,
                        dst@.len() == size,
                        before.len() == size,
                        forall|j: int|
                            0 <= j < size ==> dst@[j] == (if j < 1 + 5 * i {
                                wire[j]
                            } else {
                                before[j]
                            }),
                    decreases ts@.len() - i,
                {
                    let base: usize = 1 + i * TREE_ENTRY_LEN;
                    let (tid, stage) = ts[i];
                    let ghost entry = u32_le(tid);
                    assert(wire[base as int] == entry[0]);
                    assert(wire[base + 1] == entry[1]);
                    assert(wire[base + 2] == entry[2]);
                    assert(wire[base + 3] == entry[3]);
                    assert(wire[base + 4] == stage);
                    write_u32_at(dst, base, tid);
                    dst[base + 4] = stage;
                    i += 1;
                }
                assert(dst@ =~= overlay(before, 0, wire));
                1 + ts.len() * TREE_ENTRY_LEN
            },
        }
    }

    /// Whether a client may send the packet: its tag is below `0x80`.
    pub fn is_valid_from_client(&self) -> (b: bool)
        ensures
            b == client_may_send(self@),
    {
        self.get_type() < 0x80
    }

    /// Whether the server may send the packet: its tag is `0x80` or above.
    pub fn is_valid_from_server(&self) -> (b: bool)
        ensures
            b == server_may_send(self@),
    {
        self.get_type() >= 0x80
    }
}

} // verus!
