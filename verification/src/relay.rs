//! The relay stream: parses the framed bytes that the remote side sends and keeps what they
//! say, so that the router can answer the console from it.
//!
//! Frame: `AA 55 | type | len | payload[len] | xor`, where `xor` is the XOR of type, length and
//! payload.
//!   type 0x00 NO_PEER    len 0      clears the peer
//!   type 0x01 PEER       len 28     peer id and six beacon words, little-endian
//!   type 0x02 RECV_SLOT  len 4..=56 a received data slot
//!   type 0x7f BOOTSEL    len 0      asks for a reboot into the USB bootloader
//!
//! A frame that is longer than the payload buffer is passed over whole, whatever its type.
//! Otherwise only PEER insists on its length. NO_PEER and BOOTSEL do what they say with any payload,
//! which is ignored; a RECV_SLOT is the whole words of its payload, at most fourteen, so that one
//! of fewer than four bytes is a slot without words.
use crate::ring::Ring;
use crate::words::word_from_bytes;
use vstd::prelude::*;

verus! {

pub const T_NO_PEER: u8 = 0x00;

pub const T_PEER: u8 = 0x01;

pub const T_RECV_SLOT: u8 = 0x02;

pub const T_BOOTSEL: u8 = 0x7f;

/// The longest payload that a frame can carry.
pub const PBUF: usize = 60;

/// Slots of the ring between the USB reader and the parser.
pub const RING_SZ: usize = 512;

/// How many ring bytes one `poll` takes at most.
pub const POLL_MAX: usize = 128;

/// Where the frame parser stands.
#[verifier::ext_equal]
pub enum Parser {
    /// Waiting for `AA`.
    Sync,
    /// `AA` seen, waiting for `55`.
    Mark,
    /// Waiting for the type.
    Kind,
    /// Waiting for the length.
    Length { kind: u8 },
    /// Collecting the payload; `sum` is the XOR so far.
    Payload { kind: u8, len: nat, got: Seq<u8>, sum: u8 },
    /// Waiting for the checksum, which has to be `sum`.
    Check { kind: u8, payload: Seq<u8>, sum: u8 },
    /// Passing over the `left` bytes that remain of a frame that is too long.
    Skip { left: nat },
}

/// A discoverable partner.
#[verifier::ext_equal]
pub struct Peer {
    pub id: u32,
    pub beacon: Seq<u32>,
}

/// What the frames so far have said.
#[verifier::ext_equal]
pub struct Decoded {
    /// The partner that is present, if any.
    pub peer: Option<Peer>,
    /// The received slot that has not been taken yet, if any.
    pub slot: Option<Seq<u32>>,
}

/// The whole relay: parser and decoded state.
#[verifier::ext_equal]
pub struct RelayView {
    pub parser: Parser,
    pub decoded: Decoded,
}

/// The parser after byte `b`.
pub open spec fn parse_step(p: Parser, b: u8) -> Parser {
    match p {
        Parser::Sync => if b == 0xAA {
            Parser::Mark
        } else {
            Parser::Sync
        },
        Parser::Mark => if b == 0x55 {
            Parser::Kind
        } else if b == 0xAA {
            Parser::Mark
        } else {
            Parser::Sync
        },
        Parser::Kind => Parser::Length { kind: b },
        Parser::Length { kind } => if b <= PBUF {
            collect(kind, b as nat, Seq::empty(), kind ^ b)
        } else {
            Parser::Skip { left: (b + 1) as nat }
        },
        Parser::Payload { kind, len, got, sum } => collect(kind, len, got.push(b), sum ^ b),
        Parser::Check { kind, payload, sum } => Parser::Sync,
        Parser::Skip { left } => if left <= 1 {
            Parser::Sync
        } else {
            Parser::Skip { left: (left - 1) as nat }
        },
    }
}

/// Collecting a payload of `len` bytes with `got` in hand.
pub open spec fn collect(kind: u8, len: nat, got: Seq<u8>, sum: u8) -> Parser {
    if got.len() < len {
        Parser::Payload { kind, len, got, sum }
    } else {
        Parser::Check { kind, payload: got, sum }
    }
}

/// The decoded state after a frame of type `kind` came in whole. A frame without a peer clears it
/// whatever its payload; one with a peer needs 28 bytes. A slot is made of the whole words of its
/// payload, at most fourteen of them, and replaces a slot that waits even if it has no words.
/// Frames of other types change nothing.
pub open spec fn accept(d: Decoded, kind: u8, payload: Seq<u8>) -> Decoded {
    let ws = crate::words::bytes_words(payload);
    if kind == T_NO_PEER {
        Decoded { peer: None, ..d }
    } else if kind == T_PEER && payload.len() == 28 {
        Decoded { peer: Some(Peer { id: ws[0], beacon: ws.subrange(1, 7) }), ..d }
    } else if kind == T_RECV_SLOT {
        Decoded { slot: Some(ws.take(vstd::math::min(ws.len() as int, 14))), ..d }
    } else {
        d
    }
}

/// The relay after byte `b`, and whether `b` completed a request to reboot.
pub open spec fn relay_step(v: RelayView, b: u8) -> (RelayView, bool) {
    let parser = parse_step(v.parser, b);
    match v.parser {
        Parser::Check { kind, payload, sum } if sum == b => (
            RelayView { parser, decoded: accept(v.decoded, kind, payload) },
            kind == T_BOOTSEL,
        ),
        _ => (RelayView { parser, decoded: v.decoded }, false),
    }
}

/// The relay after `bytes`, up to the byte that completes a request to reboot, and whether
/// there was one.
pub open spec fn relay_run(v: RelayView, bytes: Seq<u8>) -> (RelayView, bool)
    decreases bytes.len(),
{
    if bytes.len() == 0 {
        (v, false)
    } else {
        let (next, reboot) = relay_step(v, bytes[0]);
        if reboot {
            (next, true)
        } else {
            relay_run(next, bytes.drop_first())
        }
    }
}

pub struct Relay {
    st: u8,
    ptype: u8,
    plen: u8,
    pidx: u8,
    pbuf: [u8; 60],
    csum: u8,
    skip: u16,
    peer_present: bool,
    peer_id: u32,
    beacon: [u32; 6],
    slot: [u32; 14],
    slot_len: u8,
    slot_new: bool,
}

impl View for Relay {
    type V = RelayView;

    closed spec fn view(&self) -> RelayView {
        RelayView { parser: self.parser(), decoded: self.decoded() }
    }
}

impl Relay {
    closed spec fn parser(&self) -> Parser {
        if self.st == 0 {
            Parser::Sync
        } else if self.st == 1 {
            Parser::Mark
        } else if self.st == 2 {
            Parser::Kind
        } else if self.st == 3 {
            Parser::Length { kind: self.ptype }
        } else if self.st == 4 {
            Parser::Payload {
                kind: self.ptype,
                len: self.plen as nat,
                got: self.pbuf@.take(self.pidx as int),
                sum: self.csum,
            }
        } else if self.st == 5 {
            Parser::Check {
                kind: self.ptype,
                payload: self.pbuf@.take(self.plen as int),
                sum: self.csum,
            }
        } else {
            Parser::Skip { left: self.skip as nat }
        }
    }

    closed spec fn decoded(&self) -> Decoded {
        Decoded {
            peer: if self.peer_present {
                Some(Peer { id: self.peer_id, beacon: self.beacon@ })
            } else {
                None
            },
            slot: if self.slot_new {
                Some(self.slot@.take(self.slot_len as int))
            } else {
                None
            },
        }
    }

    pub closed spec fn wf(&self) -> bool {
        &&& self.st <= 6
        &&& self.plen <= PBUF
        &&& self.st == 3 ==> self.csum == self.ptype
        &&& self.st == 4 ==> self.pidx < self.plen
        &&& self.st == 6 ==> 1 <= self.skip <= 256
        &&& self.slot_len <= 14
    }

    /// A relay that has seen nothing yet.
    pub fn new() -> (r: Self)
        ensures
            r.wf(),
            r@ == (RelayView {
                parser: Parser::Sync,
                decoded: Decoded { peer: None, slot: None },
            }),
    {
        Relay {
            st: 0,
            ptype: 0,
            plen: 0,
            pidx: 0,
            pbuf: [0;60],
            csum: 0,
            skip: 0,
            peer_present: false,
            peer_id: 0,
            beacon: [0;6],
            slot: [0;14],
            slot_len: 0,
            slot_new: false,
        }
    }

    /// Takes in one byte of the stream. The result says whether it completed a request to
    /// reboot into the USB bootloader.
    pub fn byte(&mut self, b: u8) -> (reboot: bool)
        requires
            old(self).wf(),
        ensures
            final(self).wf(),
            (final(self)@, reboot) == relay_step(old(self)@, b),
    {
        match self.st {
            0 => {
                self.st = if b == 0xAA {
                    1
                } else {
                    0
                };
            },
            1 => {
                self.st = if b == 0x55 {
                    2
                } else if b == 0xAA {
                    1
                } else {
                    0
                };
            },
            2 => {
                self.ptype = b;
                self.csum = b;
                self.st = 3;
            },
            3 => {
                if b as usize <= PBUF {
                    self.plen = b;
                    self.csum = self.csum ^ b;
                    self.pidx = 0;
                    self.st = if self.plen == 0 {
                        5
                    } else {
                        4
                    };
                    assert(self.pbuf@.take(0) =~= Seq::<u8>::empty());
                } else {
                    self.skip = b as u16 + 1;
                    self.st = 6;
                }
            },
            4 => {
                let ghost got = self.pbuf@.take(self.pidx as int);
                let at: usize = self.pidx as usize;
                self.pbuf[at] = b;
                self.csum = self.csum ^ b;
                self.pidx = self.pidx + 1;
                assert(self.pbuf@.take(self.pidx as int) =~= got.push(b));
                if self.pidx >= self.plen {
                    self.st = 5;
                }
            },
            5 => {
                let mut reboot: bool = false;
                if self.csum == b {
                    reboot = self.commit();
                }
                self.st = 0;
                return reboot;
            },
            _ => {
                if self.skip <= 1 {
                    self.st = 0;
                } else {
                    self.skip = self.skip - 1;
                }
            },
        }
        false
    }

    /// Takes over what the frame in the buffer says. The result says whether it asks for a
    /// reboot.
    fn commit(&mut self) -> (reboot: bool)
        requires
            old(self).wf(),
            old(self).st == 5,
        ensures
            final(self).wf(),
            final(self).decoded() == accept(
                old(self).decoded(),
                old(self).ptype,
                old(self).pbuf@.take(old(self).plen as int),
            ),
            reboot == (old(self).ptype == T_BOOTSEL),
    {
        let ghost payload = self.pbuf@.take(self.plen as int);
        let ghost ws = crate::words::bytes_words(payload);
        if self.ptype == T_NO_PEER {
            self.peer_present = false;
        } else if self.ptype == T_PEER && self.plen == 28 {
            self.peer_id = word_from_bytes(self.pbuf.as_slice(), 0);
            assert(self.peer_id == ws[0]);
            for k in 0..6usize
                invariant
                    self.wf(),
                    self.st == 5,
                    self.ptype == old(self).ptype,
                    self.plen == 28,
                    self.pbuf@.take(28) == payload,
                    self.peer_id == ws[0],
                    ws == crate::words::bytes_words(payload),
                    self.slot@ == old(self).slot@,
                    self.slot_len == old(self).slot_len,
                    self.slot_new == old(self).slot_new,
                    forall|j: int| 0 <= j < k ==> self.beacon@[j] == ws[j + 1],
            {
                let w: u32 = word_from_bytes(self.pbuf.as_slice(), 4 + k * 4);
                assert(w == ws[k + 1]);
                self.beacon[k] = w;
            }
            self.peer_present = true;
            assert(self.beacon@ =~= ws.subrange(1, 7));
        } else if self.ptype == T_RECV_SLOT {
            let whole: usize = self.plen as usize / 4;
            let n: usize = if whole < 14 {
                whole
            } else {
                14
            };
            for k in 0..n
                invariant
                    self.wf(),
                    self.st == 5,
                    self.ptype == old(self).ptype,
                    self.plen == old(self).plen,
                    n == vstd::math::min(self.plen as int / 4, 14),
                    self.pbuf@.take(self.plen as int) == payload,
                    payload.len() == self.plen,
                    ws == crate::words::bytes_words(payload),
                    self.peer_present == old(self).peer_present,
                    self.peer_id == old(self).peer_id,
                    self.beacon@ == old(self).beacon@,
                    forall|j: int| 0 <= j < k ==> self.slot@[j] == ws[j],
            {
                let w: u32 = word_from_bytes(self.pbuf.as_slice(), k * 4);
                assert(w == ws[k as int]);
                self.slot[k] = w;
            }
            self.slot_len = n as u8;
            self.slot_new = true;
            assert(self.slot@.take(n as int) =~= ws.take(n as int));
        } else if self.ptype == T_BOOTSEL {
            return true;
        }
        false
    }

    /// Takes in `bytes` in order. The result says whether one of them completed a request to
    /// reboot; the bytes behind it are then left alone.
    pub fn feed(&mut self, bytes: &[u8]) -> (reboot: bool)
        requires
            old(self).wf(),
        ensures
            final(self).wf(),
            (final(self)@, reboot) == relay_run(old(self)@, bytes@),
    {
        assert(bytes@.skip(0) =~= bytes@);
        for i in 0..bytes.len()
            invariant
                self.wf(),
                relay_run(old(self)@, bytes@) == relay_run(self@, bytes@.skip(i as int)),
        {
            assert(bytes@.skip(i as int).drop_first() =~= bytes@.skip(i + 1));
            if self.byte(bytes[i]) {
                return true;
            }
        }
        false
    }
}

/// Queues a byte that came over USB for the parser, or drops it when the ring is full.
pub fn usb_push(ring: &mut Ring<RING_SZ>, b: u8)
    requires
        old(ring).wf(),
    ensures
        final(ring).wf(),
        final(ring)@ == crate::ring::offer(old(ring)@, seq![b], RING_SZ - 1),
{
    ring.push(b);
}

/// Takes the oldest byte that came over USB, if there is one.
pub fn ring_pop(ring: &mut Ring<RING_SZ>) -> (b: Option<u8>)
    requires
        old(ring).wf(),
    ensures
        final(ring).wf(),
        old(ring)@.len() == 0 ==> b is None && final(ring)@ == old(ring)@,
        old(ring)@.len() > 0 ==> b == Some(old(ring)@[0]) && final(ring)@
            == old(ring)@.drop_first(),
{
    ring.pop()
}

/// How many bytes one `poll` takes out of a ring that holds `queued`.
pub open spec fn poll_take(queued: Seq<u8>) -> int {
    vstd::math::min(queued.len() as int, POLL_MAX as int)
}

/// Runs what has arrived through the parser: first `uart`, the bytes read from the UART, then
/// `usb`, the bytes taken out of the USB ring. The result says whether a request to reboot came in.
pub fn poll_bytes(relay: &mut Relay, uart: &[u8], usb: &[u8]) -> (reboot: bool)
    requires
        old(relay).wf(),
    ensures
        final(relay).wf(),
        (final(relay)@, reboot) == relay_run(old(relay)@, uart@ + usb@),
{
    proof {
        lemma_run_split(old(relay)@, uart@, usb@);
    }
    relay.feed(uart) || relay.feed(usb)
}

/// Runs what has arrived through the parser: first `uart`, the bytes read from the UART, then at
/// most `POLL_MAX` bytes of the USB ring. The result says whether a request to reboot came in.
pub fn poll(relay: &mut Relay, ring: &mut Ring<RING_SZ>, uart: &[u8]) -> (reboot: bool)
    requires
        old(relay).wf(),
        old(ring).wf(),
    ensures
        final(relay).wf(),
        final(ring).wf(),
        final(ring)@ == old(ring)@.skip(poll_take(old(ring)@)),
        (final(relay)@, reboot) == relay_run(
            old(relay)@,
            uart@ + old(ring)@.take(poll_take(old(ring)@)),
        ),
{
    let mut taken: [u8; 128] = [0;128];
    let m: usize = ring.drain(&mut taken);
    let usb: &[u8] = vstd::slice::slice_subrange(taken.as_slice(), 0, m);
    assert(usb@ =~= old(ring)@.take(m as int));
    poll_bytes(relay, uart, usb)
}

/// The words that list the partner: its id and its beacon, or none when nobody is there.
pub open spec fn peer_words(d: Decoded) -> Seq<u32> {
    match d.peer {
        Some(p) => seq![p.id] + p.beacon,
        None => Seq::empty(),
    }
}

/// With a partner present and room for seven words, writes its id and beacon to `out` and
/// returns 7; otherwise writes nothing and returns 0.
pub fn get_peer(relay: &Relay, out: &mut [u32]) -> (n: usize)
    requires
        relay.wf(),
    ensures
        n == (if relay@.decoded.peer is Some && old(out)@.len() >= 7 {
            7int
        } else {
            0
        }),
        n > 0 ==> final(out)@ == peer_words(relay@.decoded) + old(out)@.skip(7),
        n == 0 ==> final(out)@ == old(out)@,
        n > 0 ==> final(out)@[0] == relay@.decoded.peer->0.id && final(out)@.subrange(1, 7)
            == relay@.decoded.peer->0.beacon && final(out)@.skip(7) == old(out)@.skip(7),
{
    if relay.peer_present && out.len() >= 7 {
        out[0] = relay.peer_id;
        for k in 0..6usize
            invariant
                out@.len() == old(out)@.len(),
                out@.len() >= 7,
                out@[0] == relay.peer_id,
                forall|j: int| 0 <= j < k ==> out@[j + 1] == relay.beacon@[j],
                forall|j: int| k < j < out@.len() ==> out@[j] == old(out)@[j],
        {
            out[k + 1] = relay.beacon[k];
        }
        assert(out@ =~= peer_words(relay@.decoded) + old(out)@.skip(7));
        assert(out@.subrange(1, 7) =~= relay@.decoded.peer->0.beacon);
        assert(out@.skip(7) =~= old(out)@.skip(7));
        7
    } else {
        0
    }
}

/// The id of the partner, if one is present.
pub fn peer_id(relay: &Relay) -> (id: Option<u32>)
    requires
        relay.wf(),
    ensures
        id == (match relay@.decoded.peer {
            Some(p) => Some(p.id),
            None => None,
        }),
{
    if relay.peer_present {
        Some(relay.peer_id)
    } else {
        None
    }
}

/// The words that taking the slot writes to a buffer of `room` words.
pub open spec fn slot_words(d: Decoded, room: int) -> Seq<u32> {
    match d.slot {
        Some(ws) => ws.take(vstd::math::min(ws.len() as int, room)),
        None => Seq::empty(),
    }
}

/// Takes the latest received slot: writes as many of its words as fit to `out`, returns how many,
/// and forgets the slot. Without a new slot nothing is written and the result is 0.
pub fn take_slot(relay: &mut Relay, out: &mut [u32]) -> (n: usize)
    requires
        old(relay).wf(),
    ensures
        final(relay).wf(),
        final(relay)@ == (RelayView {
            parser: old(relay)@.parser,
            decoded: Decoded { slot: None, ..old(relay)@.decoded },
        }),
        n == slot_words(old(relay)@.decoded, old(out)@.len() as int).len(),
        final(out)@ == slot_words(old(relay)@.decoded, old(out)@.len() as int) + old(out)@.skip(
            n as int,
        ),
        old(relay)@.decoded.slot is None ==> n == 0,
        old(relay)@.decoded.slot matches Some(ws) ==> n == vstd::math::min(
            ws.len() as int,
            old(out)@.len() as int,
        ) && final(out)@.take(n as int) == ws.take(n as int),
        final(out)@.skip(n as int) == old(out)@.skip(n as int),
{
    if !relay.slot_new {
        assert(Seq::<u32>::empty() + out@.skip(0) =~= out@);
        return 0;
    }
    relay.slot_new = false;
    let stored: usize = relay.slot_len as usize;
    let n: usize = if stored < out.len() {
        stored
    } else {
        out.len()
    };
    for k in 0..n
        invariant
            n <= 14,
            n <= out@.len(),
            out@.len() == old(out)@.len(),
            forall|j: int| 0 <= j < k ==> out@[j] == relay.slot@[j],
            forall|j: int| k <= j < out@.len() ==> out@[j] == old(out)@[j],
    {
        out[k] = relay.slot[k];
    }
    assert(out@ =~= slot_words(old(relay)@.decoded, old(out)@.len() as int) + old(out)@.skip(
        n as int,
    ));
    assert(out@.take(n as int) =~= old(relay)@.decoded.slot->0.take(n as int));
    assert(out@.skip(n as int) =~= old(out)@.skip(n as int));
    n
}

/// Running `a` and `b` at once is running `a` and, unless it asked for a reboot, `b` after it.
proof fn lemma_run_split(v: RelayView, a: Seq<u8>, b: Seq<u8>)
    ensures
        relay_run(v, a + b) == (if relay_run(v, a).1 {
            relay_run(v, a)
        } else {
            relay_run(relay_run(v, a).0, b)
        }),
    decreases a.len(),
{
    if a.len() == 0 {
        assert(a + b =~= b);
    } else {
        assert((a + b).drop_first() =~= a.drop_first() + b);
        lemma_run_split(relay_step(v, a[0]).0, a.drop_first(), b);
    }
}

/// A relay in which a frame's first byte would be recognised as such.
pub open spec fn at_sync(v: RelayView) -> bool {
    v.parser is Sync
}

/// The XOR of `seed` and all of `s`.
pub open spec fn xor_all(seed: u8, s: Seq<u8>) -> u8
    decreases s.len(),
{
    if s.len() == 0 {
        seed
    } else {
        xor_all(seed, s.drop_last()) ^ s.last()
    }
}

/// The checksum of a frame.
pub open spec fn frame_sum(kind: u8, payload: Seq<u8>) -> u8 {
    xor_all(kind ^ (payload.len() as u8), payload)
}

/// A frame with `sum` as its last byte.
pub open spec fn frame_with(kind: u8, payload: Seq<u8>, sum: u8) -> Seq<u8> {
    seq![0xAAu8, 0x55u8, kind, payload.len() as u8] + payload + seq![sum]
}

/// The frame that carries `payload`.
pub open spec fn frame(kind: u8, payload: Seq<u8>) -> Seq<u8> {
    frame_with(kind, payload, frame_sum(kind, payload))
}

/// The payload bytes lead from the length byte to the checksum.
proof fn lemma_payload_run(d: Decoded, kind: u8, payload: Seq<u8>, n: int)
    requires
        payload.len() <= PBUF,
        0 <= n <= payload.len(),
    ensures
        relay_run(
            RelayView {
                parser: collect(
                    kind,
                    payload.len(),
                    Seq::empty(),
                    kind ^ (payload.len() as u8),
                ),
                decoded: d,
            },
            payload.take(n),
        ) == (
            RelayView {
                parser: collect(
                    kind,
                    payload.len(),
                    payload.take(n),
                    xor_all(kind ^ (payload.len() as u8), payload.take(n)),
                ),
                decoded: d,
            },
            false,
        ),
    decreases n,
{
    let seed = kind ^ (payload.len() as u8);
    let start = RelayView {
        parser: collect(kind, payload.len(), Seq::empty(), seed),
        decoded: d,
    };
    if n == 0 {
        assert(payload.take(0) =~= Seq::<u8>::empty());
    } else {
        lemma_payload_run(d, kind, payload, n - 1);
        let last = seq![payload[n - 1]];
        assert(payload.take(n) =~= payload.take(n - 1) + last);
        assert(payload.take(n).drop_last() =~= payload.take(n - 1));
        assert(payload.take(n) =~= payload.take(n - 1).push(payload[n - 1]));
        lemma_run_split(start, payload.take(n - 1), last);
        let mid = relay_run(start, payload.take(n - 1)).0;
        assert(last.drop_first() =~= Seq::<u8>::empty());
        assert(relay_run(relay_step(mid, last[0]).0, last.drop_first()) == (
            relay_step(mid, last[0]).0,
            false,
        ));
    }
}

/// The first four bytes of a frame lead to what its length asks for.
proof fn lemma_frame_head(v: RelayView, kind: u8, len: u8)
    requires
        at_sync(v),
    ensures
        relay_run(v, seq![0xAAu8, 0x55u8, kind, len]) == (
            RelayView {
                parser: parse_step(Parser::Length { kind }, len),
                decoded: v.decoded,
            },
            false,
        ),
{
    let head = seq![0xAAu8, 0x55u8, kind, len];
    let s0 = seq![0x55u8, kind, len];
    let s1 = seq![kind, len];
    let s2 = seq![len];
    assert(head.drop_first() =~= s0);
    assert(s0.drop_first() =~= s1);
    assert(s1.drop_first() =~= s2);
    assert(s2.drop_first() =~= Seq::<u8>::empty());
    let v1 = relay_step(v, 0xAA).0;
    let v2 = relay_step(v1, 0x55).0;
    let v3 = relay_step(v2, kind).0;
    let v4 = relay_step(v3, len).0;
    assert(relay_run(v4, Seq::<u8>::empty()) == (v4, false));
    assert(relay_run(v3, s2) == (v4, false));
    assert(relay_run(v2, s1) == (v4, false));
    assert(relay_run(v1, s0) == (v4, false));
    assert(relay_run(v, head) == (v4, false));
}

/// A frame up to its checksum leads to the checksum.
proof fn lemma_frame_body(v: RelayView, kind: u8, payload: Seq<u8>)
    requires
        at_sync(v),
        payload.len() <= PBUF,
    ensures
        relay_run(v, seq![0xAAu8, 0x55u8, kind, payload.len() as u8] + payload) == (
            RelayView {
                parser: Parser::Check { kind, payload, sum: frame_sum(kind, payload) },
                decoded: v.decoded,
            },
            false,
        ),
{
    let len = payload.len() as u8;
    lemma_frame_head(v, kind, len);
    lemma_run_split(v, seq![0xAAu8, 0x55u8, kind, len], payload);
    lemma_payload_run(v.decoded, kind, payload, payload.len() as int);
    assert(payload.take(payload.len() as int) =~= payload);
}

/// A whole frame is accepted: what it says is taken over, the parser is ready for the next one,
/// and a reboot is asked for exactly by a frame of the bootloader type.
pub proof fn law_frame_is_accepted(v: RelayView, kind: u8, payload: Seq<u8>)
    requires
        at_sync(v),
        payload.len() <= PBUF,
    ensures
        relay_run(v, frame(kind, payload)) == (
            RelayView { parser: Parser::Sync, decoded: accept(v.decoded, kind, payload) },
            kind == T_BOOTSEL,
        ),
{
    lemma_frame_end(v, kind, payload, frame_sum(kind, payload));
}

/// A frame whose checksum is wrong is ignored: it changes nothing and asks for nothing.
pub proof fn law_corrupt_frame_is_ignored(v: RelayView, kind: u8, payload: Seq<u8>, sum: u8)
    requires
        at_sync(v),
        payload.len() <= PBUF,
        sum != frame_sum(kind, payload),
    ensures
        relay_run(v, frame_with(kind, payload, sum)) == (v, false),
{
    lemma_frame_end(v, kind, payload, sum);
}

proof fn lemma_frame_end(v: RelayView, kind: u8, payload: Seq<u8>, sum: u8)
    requires
        at_sync(v),
        payload.len() <= PBUF,
    ensures
        relay_run(v, frame_with(kind, payload, sum)) == (if sum == frame_sum(kind, payload) {
            (
                RelayView { parser: Parser::Sync, decoded: accept(v.decoded, kind, payload) },
                kind == T_BOOTSEL,
            )
        } else {
            (RelayView { parser: Parser::Sync, decoded: v.decoded }, false)
        }),
{
    let body = seq![0xAAu8, 0x55u8, kind, payload.len() as u8] + payload;
    lemma_frame_body(v, kind, payload);
    lemma_run_split(v, body, seq![sum]);
    let mid = relay_run(v, body).0;
    assert(seq![sum].drop_first() =~= Seq::<u8>::empty());
    assert(relay_run(relay_step(mid, sum).0, Seq::<u8>::empty()) == (relay_step(mid, sum).0, false));
}

/// A frame that is longer than the payload buffer is passed over whole, whatever its type and its
/// bytes: it changes nothing, asks for nothing, and nothing inside it is taken for a frame.
pub proof fn law_overlong_frame_is_ignored(v: RelayView, kind: u8, payload: Seq<u8>, sum: u8)
    requires
        at_sync(v),
        60 < payload.len() <= 255,
    ensures
        relay_run(v, frame_with(kind, payload, sum)) == (v, false),
{
    let len = payload.len() as u8;
    let head = seq![0xAAu8, 0x55u8, kind, len];
    let rest = payload + seq![sum];
    lemma_frame_head(v, kind, len);
    lemma_run_split(v, head, rest);
    assert(frame_with(kind, payload, sum) =~= head + rest);
    lemma_skip_run(RelayView { parser: Parser::Skip { left: rest.len() }, decoded: v.decoded }, rest);
}

/// As many bytes as are left of a frame that is too long are passed over.
proof fn lemma_skip_run(v: RelayView, bytes: Seq<u8>)
    requires
        v.parser == (Parser::Skip { left: bytes.len() }),
        bytes.len() > 0,
    ensures
        relay_run(v, bytes) == (RelayView { parser: Parser::Sync, decoded: v.decoded }, false),
    decreases bytes.len(),
{
    let next = relay_step(v, bytes[0]).0;
    if bytes.len() > 1 {
        lemma_skip_run(next, bytes.drop_first());
    } else {
        assert(bytes.drop_first() =~= Seq::<u8>::empty());
        assert(relay_run(next, bytes.drop_first()) == (next, false));
    }
}

/// What was decoded changes only on a byte that completes a frame with a right checksum.
pub proof fn law_only_whole_frames_count(v: RelayView, b: u8)
    requires
        !(v.parser matches Parser::Check { sum, .. } && sum == b),
    ensures
        relay_step(v, b).0.decoded == v.decoded,
        !relay_step(v, b).1,
{
}

/// Bytes between frames are ignored as long as none is the first byte of a frame.
pub proof fn law_noise_is_ignored(v: RelayView, noise: Seq<u8>)
    requires
        at_sync(v),
        forall|i: int| 0 <= i < noise.len() ==> noise[i] != 0xAA,
    ensures
        relay_run(v, noise) == (v, false),
    decreases noise.len(),
{
    if noise.len() > 0 {
        assert(relay_step(v, noise[0]) == (v, false));
        law_noise_is_ignored(v, noise.drop_first());
    }
}

/// A stray first byte in front of a frame does not hide the frame.
pub proof fn law_stray_first_byte_is_ignored(v: RelayView, kind: u8, payload: Seq<u8>)
    requires
        at_sync(v),
        payload.len() <= PBUF,
    ensures
        relay_run(v, seq![0xAAu8] + frame(kind, payload)) == relay_run(v, frame(kind, payload)),
{
    let f = frame(kind, payload);
    let once = relay_step(v, 0xAA).0;
    assert((seq![0xAAu8] + f).drop_first() =~= f);
    assert(f[0] == 0xAA);
    assert(relay_step(once, 0xAA).0 == once);
    assert(relay_run(once, f) == relay_run(once, f.drop_first()));
}

/// How the stream is cut into pieces does not matter: running two pieces one after the other is
/// running them as one, unless the first one asked for a reboot.
pub proof fn law_pieces_add_up(v: RelayView, a: Seq<u8>, b: Seq<u8>)
    requires
        !relay_run(v, a).1,
    ensures
        relay_run(v, a + b) == relay_run(relay_run(v, a).0, b),
{
    lemma_run_split(v, a, b);
}

/// A partner that is announced is the partner that is listed: the seven words of the frame come
/// back as they were sent. The slot stays as it is.
pub proof fn law_announced_peer_is_listed(v: RelayView, id: u32, beacon: Seq<u32>)
    requires
        at_sync(v),
        beacon.len() == 6,
    ensures
        ({
            let after = relay_run(
                v,
                frame(T_PEER, crate::words::words_bytes(seq![id] + beacon)),
            ).0;
            &&& at_sync(after)
            &&& after.decoded.peer == Some(Peer { id, beacon })
            &&& peer_words(after.decoded) == seq![id] + beacon
            &&& after.decoded.slot == v.decoded.slot
        }),
{
    let ws = seq![id] + beacon;
    let payload = crate::words::words_bytes(ws);
    law_frame_is_accepted(v, T_PEER, payload);
    crate::words::law_words_round_trip(ws);
    assert(ws.subrange(1, 7) =~= beacon);
}

/// After a frame that says so, nobody is listed. The slot stays as it is.
pub proof fn law_no_peer_clears_the_list(v: RelayView)
    requires
        at_sync(v),
    ensures
        ({
            let after = relay_run(v, frame(T_NO_PEER, Seq::empty())).0;
            &&& at_sync(after)
            &&& after.decoded.peer is None
            &&& peer_words(after.decoded) == Seq::<u32>::empty()
            &&& after.decoded.slot == v.decoded.slot
        }),
{
    law_frame_is_accepted(v, T_NO_PEER, Seq::empty());
}

/// A slot that is sent is the slot that is taken, as far as the reader has room: its words come
/// back as they were sent, whatever slot was waiting before. The partner stays as it is.
pub proof fn law_sent_slot_is_taken(v: RelayView, ws: Seq<u32>, room: int)
    requires
        at_sync(v),
        ws.len() <= 14,
        room >= 0,
    ensures
        ({
            let after = relay_run(v, frame(T_RECV_SLOT, crate::words::words_bytes(ws))).0;
            &&& at_sync(after)
            &&& after.decoded.slot == Some(ws)
            &&& slot_words(after.decoded, room) == ws.take(
                vstd::math::min(ws.len() as int, room),
            )
            &&& after.decoded.peer == v.decoded.peer
        }),
{
    law_frame_is_accepted(v, T_RECV_SLOT, crate::words::words_bytes(ws));
    crate::words::law_words_round_trip(ws);
    assert(ws.take(ws.len() as int) =~= ws);
}

/// In a relay's own state a listed partner has six beacon words and a waiting slot at most
/// fourteen words.
pub proof fn law_decoded_sizes(relay: &Relay)
    requires
        relay.wf(),
    ensures
        relay@.decoded.peer matches Some(p) ==> p.beacon.len() == 6,
        relay@.decoded.slot matches Some(ws) ==> ws.len() <= 14,
{
}

/// What holds of every parser: a payload under way is no longer than the buffer and not yet
/// complete, and of a frame that is too long at least one byte is left, and no more than a payload
/// and a checksum.
pub open spec fn parser_inv(p: Parser) -> bool {
    &&& p matches Parser::Payload { len, got, .. } ==> got.len() < len <= PBUF
    &&& p matches Parser::Skip { left } ==> 1 <= left <= 256
}

/// A relay's own parser has the invariant, and every byte keeps it.
pub proof fn law_parser_inv_is_kept(relay: &Relay, p: Parser, b: u8)
    requires
        relay.wf(),
        parser_inv(p),
    ensures
        parser_inv(relay@.parser),
        parser_inv(parse_step(p, b)),
{
}

/// How many bytes without a first byte of a frame a parser needs at most to be ready for a frame.
spec fn quiet_needed(p: Parser) -> int {
    match p {
        Parser::Sync => 0,
        Parser::Mark => 259,
        Parser::Kind => 258,
        Parser::Length { .. } => 257,
        Parser::Payload { len, got, .. } => len - got.len() + 1,
        Parser::Check { .. } => 1,
        Parser::Skip { left } => left as int,
    }
}

proof fn lemma_quiet(v: RelayView, quiet: Seq<u8>)
    requires
        parser_inv(v.parser),
        quiet.len() >= quiet_needed(v.parser),
        forall|i: int| 0 <= i < quiet.len() ==> quiet[i] != 0xAA,
    ensures
        !relay_run(v, quiet).1 ==> at_sync(relay_run(v, quiet).0),
    decreases quiet.len(),
{
    if quiet.len() > 0 {
        lemma_quiet(relay_step(v, quiet[0]).0, quiet.drop_first());
    }
}

/// Lost or garbled bytes never hold the parser up for long: wherever it stands, after 259
/// bytes none of which is a frame's first byte, the longest that a frame can go on, it is ready for
/// the next frame.
pub proof fn law_parser_recovers(v: RelayView, quiet: Seq<u8>)
    requires
        parser_inv(v.parser),
        quiet.len() >= 259,
        forall|i: int| 0 <= i < quiet.len() ==> quiet[i] != 0xAA,
    ensures
        !relay_run(v, quiet).1 ==> at_sync(relay_run(v, quiet).0),
{
    lemma_quiet(v, quiet);
}

/// What a whole frame of each type says, by the bytes on the wire. Type 0 takes the partner away.
/// Type 1 announces the partner whose id and six beacon words are its 28 bytes, and says nothing
/// with any other length. Type 2 brings a slot, the whole words of its payload, at most fourteen.
/// Type 7F asks for the reboot, and no other type does. No type says anything else.
pub proof fn law_frames_say_what_they_carry(v: RelayView, kind: u8, payload: Seq<u8>)
    requires
        at_sync(v),
        payload.len() <= 60,
    ensures
        ({
            let (after, reboot) = relay_run(v, frame(kind, payload));
            let (before, now) = (v.decoded, after.decoded);
            &&& at_sync(after)
            &&& reboot <==> kind == 0x7f
            &&& kind == 0x00 ==> now.peer is None && now.slot == before.slot
            &&& kind == 0x01 && payload.len() == 28 ==> {
                &&& now.peer matches Some(p)
                &&& p.beacon.len() == 6
                &&& crate::words::words_bytes(seq![p.id] + p.beacon) == payload
                &&& now.slot == before.slot
            }
            &&& kind == 0x01 && payload.len() != 28 ==> now == before
            &&& kind == 0x02 ==> {
                &&& now.slot matches Some(ws)
                &&& ws.len() == vstd::math::min((payload.len() / 4) as int, 14)
                &&& crate::words::words_bytes(ws) == payload.take((4 * ws.len()) as int)
                &&& now.peer == before.peer
            }
            &&& kind > 0x02 ==> now == before
        }),
{
    law_frame_is_accepted(v, kind, payload);
    crate::words::law_whole_words_are_read(payload);
    let ws = crate::words::bytes_words(payload);
    let now = accept(v.decoded, kind, payload);
    if kind == 0x01 && payload.len() == 28 {
        let p = now.peer->0;
        assert(seq![p.id] + p.beacon =~= ws);
        assert(payload.take(28) =~= payload);
    }
    if kind == 0x02 {
        let n = vstd::math::min(ws.len() as int, 14);
        let kept = ws.take(n);
        let all = crate::words::words_bytes(ws);
        crate::words::law_word_bytes_add_up(kept, ws.skip(n), 0);
        assert(kept + ws.skip(n) =~= ws);
        assert(all.take(4 * n) =~= crate::words::words_bytes(kept));
        assert(all.take(4 * n) =~= payload.take(4 * n));
    }
}

/// A frame on the wire: the two marks, the type, the length, the payload and the checksum.
pub proof fn law_frame_layout(kind: u8, payload: Seq<u8>, sum: u8)
    requires
        payload.len() <= 255,
    ensures
        ({
            let f = frame_with(kind, payload, sum);
            &&& f.len() == payload.len() + 5
            &&& f[0] == 0xAA && f[1] == 0x55 && f[2] == kind && f[3] == payload.len()
            &&& f.subrange(4, 4 + payload.len() as int) == payload
            &&& f.last() == sum
        }),
        frame(kind, payload) == frame_with(kind, payload, frame_sum(kind, payload)),
{
    let f = frame_with(kind, payload, sum);
    assert(f.subrange(4, 4 + payload.len() as int) =~= payload);
}

/// The checksum is the XOR of all bytes between the marks and it: piece by piece, byte by byte.
pub proof fn law_checksum_adds_up(seed: u8, a: Seq<u8>, b: Seq<u8>, byte: u8)
    ensures
        xor_all(seed, Seq::empty()) == seed,
        xor_all(seed, seq![byte]) == seed ^ byte,
        xor_all(seed, a + b) == xor_all(xor_all(seed, a), b),
        frame_sum(byte, a) == xor_all(0, seq![byte, a.len() as u8] + a),
{
    lemma_xor_parts(seed, a, b);
    let none = Seq::<u8>::empty();
    assert(seq![byte].drop_last() =~= none);
    assert(xor_all(seed, none) == seed);
    let len = a.len() as u8;
    let head = seq![byte, len];
    lemma_xor_parts(0, head, a);
    assert(head.drop_last() =~= seq![byte]);
    assert(xor_all(0, none) == 0);
    assert(xor_all(0, seq![byte]) == 0u8 ^ byte);
    assert(0u8 ^ byte == byte) by (bit_vector);
}

proof fn lemma_xor_parts(seed: u8, a: Seq<u8>, b: Seq<u8>)
    ensures
        xor_all(seed, a + b) == xor_all(xor_all(seed, a), b),
    decreases b.len(),
{
    if b.len() == 0 {
        assert(a + b =~= a);
    } else {
        assert((a + b).drop_last() =~= a + b.drop_last());
        lemma_xor_parts(seed, a, b.drop_last());
    }
}

/// Other seeds give other sums.
proof fn lemma_xor_tells_seeds_apart(x: u8, y: u8, s: Seq<u8>)
    requires
        x != y,
    ensures
        xor_all(x, s) != xor_all(y, s),
    decreases s.len(),
{
    if s.len() > 0 {
        lemma_xor_tells_seeds_apart(x, y, s.drop_last());
        let p = xor_all(x, s.drop_last());
        let q = xor_all(y, s.drop_last());
        let b = s.last();
        assert(p ^ b != q ^ b) by (bit_vector)
            requires
                p != q,
        ;
    }
}

/// A frame in which one payload byte, or the type, was garbled on the way is ignored.
pub proof fn law_garbled_byte_is_noticed(
    v: RelayView,
    kind: u8,
    payload: Seq<u8>,
    at: int,
    garbled: u8,
)
    requires
        at_sync(v),
        payload.len() <= 60,
    ensures
        0 <= at < payload.len() && garbled != payload[at] ==> relay_run(
            v,
            frame_with(kind, payload.update(at, garbled), frame_sum(kind, payload)),
        ) == (v, false),
        garbled != kind ==> relay_run(
            v,
            frame_with(garbled, payload, frame_sum(kind, payload)),
        ) == (v, false),
{
    let len = payload.len() as u8;
    if 0 <= at < payload.len() && garbled != payload[at] {
        let other = payload.update(at, garbled);
        let seed = xor_all(kind ^ len, payload.take(at));
        let (x, y) = (payload[at], garbled);
        let rest = payload.skip(at + 1);
        assert(payload =~= payload.take(at) + (seq![x] + rest));
        assert(other =~= payload.take(at) + (seq![y] + rest));
        law_checksum_adds_up(kind ^ len, payload.take(at), seq![x] + rest, x);
        law_checksum_adds_up(kind ^ len, payload.take(at), seq![y] + rest, y);
        law_checksum_adds_up(seed, seq![x], rest, x);
        law_checksum_adds_up(seed, seq![y], rest, y);
        assert(seed ^ x != seed ^ y) by (bit_vector)
            requires
                x != y,
        ;
        lemma_xor_tells_seeds_apart(seed ^ x, seed ^ y, rest);
        law_corrupt_frame_is_ignored(v, kind, other, frame_sum(kind, payload));
    }
    if garbled != kind {
        assert(garbled ^ len != kind ^ len) by (bit_vector)
            requires
                garbled != kind,
        ;
        lemma_xor_tells_seeds_apart(garbled ^ len, kind ^ len, payload);
        law_corrupt_frame_is_ignored(v, garbled, payload, frame_sum(kind, payload));
    }
}

/// A frame that has not come in whole says nothing yet: up to its last byte nothing that was decoded
/// changes, and no reboot is asked for.
pub proof fn law_part_of_a_frame_says_nothing(
    v: RelayView,
    kind: u8,
    payload: Seq<u8>,
    sum: u8,
    n: int,
)
    requires
        at_sync(v),
        payload.len() <= 255,
        0 <= n < payload.len() + 5,
    ensures
        relay_run(v, frame_with(kind, payload, sum).take(n)).0.decoded == v.decoded,
        !relay_run(v, frame_with(kind, payload, sum).take(n)).1,
{
    let f = frame_with(kind, payload, sum);
    let len = payload.len() as u8;
    let head = seq![0xAAu8, 0x55u8, kind, len];
    if n <= 4 {
        assert(f.take(n) =~= head.take(n));
        lemma_head_says_nothing(v, kind, len, n);
    } else {
        let part = payload.take(n - 4);
        assert(f.take(n) =~= head + part);
        lemma_frame_head(v, kind, len);
        lemma_run_split(v, head, part);
        if payload.len() <= PBUF {
            lemma_payload_run(v.decoded, kind, payload, n - 4);
        } else {
            let mid = RelayView {
                parser: Parser::Skip { left: payload.len() + 1 },
                decoded: v.decoded,
            };
            lemma_skipping_says_nothing(mid, part);
        }
    }
}

proof fn lemma_head_says_nothing(v: RelayView, kind: u8, len: u8, n: int)
    requires
        at_sync(v),
        0 <= n <= 4,
    ensures
        ({
            let (after, reboot) = relay_run(v, seq![0xAAu8, 0x55u8, kind, len].take(n));
            &&& after.decoded == v.decoded
            &&& !reboot
            &&& n == 0 ==> after.parser is Sync
            &&& n == 1 ==> after.parser is Mark
            &&& n == 2 ==> after.parser is Kind
            &&& n == 3 ==> after.parser is Length
        }),
    decreases n,
{
    let head = seq![0xAAu8, 0x55u8, kind, len];
    if n == 0 {
        assert(head.take(0) =~= Seq::<u8>::empty());
    } else {
        lemma_head_says_nothing(v, kind, len, n - 1);
        let last = seq![head[n - 1]];
        assert(head.take(n) =~= head.take(n - 1) + last);
        lemma_run_split(v, head.take(n - 1), last);
        law_one_byte_at_a_time(relay_run(v, head.take(n - 1)).0, head[n - 1]);
    }
}

proof fn lemma_skipping_says_nothing(v: RelayView, bytes: Seq<u8>)
    requires
        v.parser matches Parser::Skip { left } && bytes.len() < left,
    ensures
        relay_run(v, bytes).0.decoded == v.decoded,
        !relay_run(v, bytes).1,
    decreases bytes.len(),
{
    if bytes.len() > 0 {
        lemma_skipping_says_nothing(relay_step(v, bytes[0]).0, bytes.drop_first());
    }
}

/// Running a single byte is taking it in.
pub proof fn law_one_byte_at_a_time(v: RelayView, b: u8)
    ensures
        relay_run(v, seq![b]) == relay_step(v, b),
{
    let next = relay_step(v, b).0;
    assert(seq![b].drop_first() =~= Seq::<u8>::empty());
    assert(relay_run(next, Seq::<u8>::empty()) == (next, false));
}

/// A first mark that is followed by anything but the second one is no frame, and leaves no trace.
pub proof fn law_false_start_is_ignored(v: RelayView, b: u8)
    requires
        at_sync(v),
        b != 0x55,
        b != 0xAA,
    ensures
        relay_run(v, seq![0xAAu8, b]) == (v, false),
{
    let both = seq![0xAAu8, b];
    let once = relay_step(v, 0xAA).0;
    assert(both.drop_first() =~= seq![b]);
    law_one_byte_at_a_time(once, b);
    assert(relay_run(v, both) == relay_run(once, seq![b]));
}

/// Of first marks in a row only the last one counts, whatever follows.
pub proof fn law_repeated_first_mark_counts_once(v: RelayView, bytes: Seq<u8>)
    requires
        at_sync(v),
        bytes.len() > 0,
        bytes[0] == 0xAA,
    ensures
        relay_run(v, seq![0xAAu8] + bytes) == relay_run(v, bytes),
{
    let once = relay_step(v, 0xAA).0;
    assert((seq![0xAAu8] + bytes).drop_first() =~= bytes);
    assert(relay_step(once, 0xAA).0 == once);
    assert(relay_run(once, bytes) == relay_run(once, bytes.drop_first()));
}

/// A request to reboot ends the run: what follows it is left alone.
pub proof fn law_reboot_ends_the_run(v: RelayView, a: Seq<u8>, b: Seq<u8>)
    requires
        relay_run(v, a).1,
    ensures
        relay_run(v, a + b) == relay_run(v, a),
{
    lemma_run_split(v, a, b);
}

/// One `poll` takes everything out of the ring, up to 128 bytes.
pub proof fn law_poll_takes_what_is_there(queued: Seq<u8>)
    ensures
        queued.len() <= 128 ==> poll_take(queued) == queued.len(),
        queued.len() > 128 ==> poll_take(queued) == 128,
{
}

/// The words that list a partner and those that a slot hands over, read off what was decoded.
pub proof fn law_lists_and_slots_are_read_off(d: Decoded, room: int)
    requires
        room >= 0,
    ensures
        d.peer is None ==> peer_words(d).len() == 0,
        d.peer matches Some(p) ==> peer_words(d).len() == p.beacon.len() + 1 && peer_words(
            d,
        ).first() == p.id && peer_words(d).skip(1) == p.beacon,
        d.slot is None ==> slot_words(d, room).len() == 0,
        d.slot matches Some(ws) ==> slot_words(d, room).is_prefix_of(ws) && slot_words(
            d,
            room,
        ).len() == vstd::math::min(ws.len() as int, room),
{
}

} // verus!
