//! USB serial: the queue of bytes towards the host, and the watch over the bytes that come from
//! it.
use crate::relay::RING_SZ;
use crate::ring::Ring;
use crate::words::words_to_bytes;
use vstd::prelude::*;

verus! {

/// Slots of the ring towards the host.
pub const TXR: usize = 2048;

/// The most that is handed to the USB port at once.
pub const CHUNK: usize = 64;

/// Queues a byte for the host, or drops it when the ring is full.
pub fn tx_push(ring: &mut Ring<TXR>, b: u8)
    requires
        old(ring).wf(),
    ensures
        final(ring).wf(),
        final(ring)@ == crate::ring::offer(old(ring)@, seq![b], TXR - 1),
{
    ring.push(b);
}

/// Takes the oldest byte for the host, if there is one.
pub fn tx_pop(ring: &mut Ring<TXR>) -> (b: Option<u8>)
    requires
        old(ring).wf(),
    ensures
        final(ring).wf(),
        old(ring)@.len() == 0 ==> b is None && final(ring)@ == old(ring)@,
        old(ring)@.len() > 0 ==> b == Some(old(ring)@[0]) && final(ring)@
            == old(ring)@.drop_first(),
{
    ring.pop()
}

/// Queues the little-endian bytes of `data` for the host. It never waits: bytes that find no room
/// are dropped.
pub fn send_only32(ring: &mut Ring<TXR>, data: &[u32])
    requires
        old(ring).wf(),
    ensures
        final(ring).wf(),
        final(ring)@ == crate::ring::offer(
            old(ring)@,
            crate::words::words_bytes(data@),
            TXR - 1,
        ),
{
    let bytes = words_to_bytes(data);
    ring.extend(bytes.as_slice());
}

/// Takes the next chunk for the USB port out of the ring and returns its length; 0 means that
/// the ring is empty.
pub fn poll(ring: &mut Ring<TXR>, chunk: &mut [u8; 64]) -> (m: usize)
    requires
        old(ring).wf(),
    ensures
        final(ring).wf(),
        m == vstd::math::min(old(ring)@.len() as int, CHUNK as int),
        final(chunk)@ == old(ring)@.take(m as int) + old(chunk)@.skip(m as int),
        final(ring)@ == old(ring)@.skip(m as int),
{
    ring.drain(chunk)
}

/// The bytes by which a host asks for a reboot into the USB bootloader.
pub open spec fn bootsel_magic() -> Seq<u8> {
    seq![0xAAu8, 0x55u8, 0x7Fu8, 0x00u8, 0x7Fu8]
}

/// How many bytes of the magic are matched after `b`, with `matched` of them before. A complete
/// match stays one.
pub open spec fn magic_step(matched: nat, b: u8) -> nat {
    if matched >= 5 {
        5
    } else if b == bootsel_magic()[matched as int] {
        matched + 1
    } else if b == bootsel_magic()[0] {
        1
    } else {
        0
    }
}

/// How many bytes of the magic are matched after `bytes`.
pub open spec fn magic_run(matched: nat, bytes: Seq<u8>) -> nat
    decreases bytes.len(),
{
    if bytes.len() == 0 {
        matched
    } else {
        magic_step(magic_run(matched, bytes.drop_last()), bytes.last())
    }
}

/// The leading bytes of `bytes` that come before the one that completes the magic, or all of them
/// if none does.
pub open spec fn before_magic(matched: nat, bytes: Seq<u8>) -> Seq<u8>
    decreases bytes.len(),
{
    if magic_run(matched, bytes) < 5 || bytes.len() == 0 {
        bytes
    } else {
        before_magic(matched, bytes.drop_last())
    }
}

/// Watches for the magic in the bytes from the host.
pub struct Bootsel {
    matched: usize,
}

impl View for Bootsel {
    type V = nat;

    /// How many bytes of the magic are matched.
    closed spec fn view(&self) -> nat {
        self.matched as nat
    }
}

impl Bootsel {
    pub fn new() -> (r: Self)
        ensures
            r@ == 0,
    {
        Bootsel { matched: 0 }
    }

    fn magic_byte(at: usize) -> (b: u8)
        requires
            at < 5,
        ensures
            b == bootsel_magic()[at as int],
    {
        match at {
            0 => 0xAA,
            1 => 0x55,
            2 => 0x7F,
            3 => 0x00,
            _ => 0x7F,
        }
    }

    /// Takes in one byte; the result says whether it completed the magic.
    pub fn byte(&mut self, b: u8) -> (reboot: bool)
        requires
            old(self)@ < 5,
        ensures
            final(self)@ == magic_step(old(self)@, b),
            reboot == (final(self)@ == 5),
            !reboot ==> final(self)@ < 5,
    {
        if b == Self::magic_byte(self.matched) {
            self.matched = self.matched + 1;
        } else {
            self.matched = if b == Self::magic_byte(0) {
                1
            } else {
                0
            };
        }
        self.matched == 5
    }

    /// Takes in `read` and returns how many of its bytes go to the relay, and whether the magic is
    /// complete: all of them, or those before the byte that completes it.
    pub fn scan(&mut self, read: &[u8]) -> (r: (usize, bool))
        requires
            old(self)@ < 5,
        ensures
            final(self)@ == magic_run(old(self)@, read@),
            r.1 == (final(self)@ == 5),
            !r.1 ==> final(self)@ < 5,
            r.0 <= read@.len(),
            read@.take(r.0 as int) == before_magic(old(self)@, read@),
            !r.1 ==> r.0 == read@.len(),
            r.1 ==> r.0 < read@.len() && magic_run(old(self)@, read@.take(r.0 as int)) < 5
                && magic_run(old(self)@, read@.take(r.0 + 1)) == 5,
    {
        for i in 0..read.len()
            invariant
                old(self)@ < 5,
                self@ < 5,
                self@ == magic_run(old(self)@, read@.take(i as int)),
        {
            assert(read@.take(i + 1).drop_last() =~= read@.take(i as int));
            if self.byte(read[i]) {
                proof {
                    lemma_magic_stays(old(self)@, read@, i + 1);
                }
                return (i, true);
            }
        }
        assert(read@.take(read@.len() as int) =~= read@);
        (read.len(), false)
    }
}

/// Takes in the bytes read from the host: queues them for the relay parser and watches for the
/// magic on the way. The result says whether the magic is complete; from its last byte on nothing
/// is queued.
pub fn check_bootsel(watch: &mut Bootsel, ring: &mut Ring<RING_SZ>, read: &[u8]) -> (reboot: bool)
    requires
        old(watch)@ < 5,
        old(ring).wf(),
    ensures
        final(ring).wf(),
        final(watch)@ == magic_run(old(watch)@, read@),
        reboot == (final(watch)@ == 5),
        !reboot ==> final(watch)@ < 5,
        final(ring)@ == crate::ring::offer(
            old(ring)@,
            before_magic(old(watch)@, read@),
            RING_SZ - 1,
        ),
{
    let (n, reboot) = watch.scan(read);
    ring.extend(vstd::slice::slice_subrange(read, 0, n));
    reboot
}

/// Once the magic is complete after `n` bytes, the bytes behind change nothing.
proof fn lemma_magic_stays(matched: nat, bytes: Seq<u8>, n: int)
    requires
        matched < 5,
        0 < n <= bytes.len(),
        magic_run(matched, bytes.take(n)) == 5,
        magic_run(matched, bytes.take(n - 1)) < 5,
    ensures
        magic_run(matched, bytes) == 5,
        before_magic(matched, bytes) == bytes.take(n - 1),
    decreases bytes.len(),
{
    if n == bytes.len() {
        assert(bytes.take(n) =~= bytes);
        assert(bytes.drop_last() =~= bytes.take(n - 1));
        assert(before_magic(matched, bytes.drop_last()) == bytes.drop_last());
    } else {
        let shorter = bytes.drop_last();
        assert(shorter.take(n) =~= bytes.take(n));
        assert(shorter.take(n - 1) =~= bytes.take(n - 1));
        lemma_magic_stays(matched, shorter, n);
    }
}

/// Whether the last `k` bytes of `h` are the first `k` of the magic.
pub open spec fn ends_in_magic(h: Seq<u8>, k: int) -> bool {
    &&& h.len() >= k
    &&& h.skip(h.len() - k) == bootsel_magic().take(k)
}

/// Whether the magic stands in `h` without a gap, ending at `end`.
pub open spec fn magic_at(h: Seq<u8>, end: int) -> bool {
    &&& 5 <= end <= h.len()
    &&& h.subrange(end - 5, end) == bootsel_magic()
}

proof fn lemma_ends_in_magic_step(h: Seq<u8>, b: u8, k: int)
    requires
        1 <= k <= 5,
    ensures
        ends_in_magic(h.push(b), k) <==> ends_in_magic(h, k - 1) && b == bootsel_magic()[k - 1],
{
    let g = h.push(b);
    let m = bootsel_magic();
    if ends_in_magic(g, k) {
        assert(g.skip(g.len() - k)[k - 1] == b);
        assert(m.take(k)[k - 1] == m[k - 1]);
        let tail = h.skip(h.len() - (k - 1));
        assert forall|i: int| 0 <= i < k - 1 implies tail[i] == m.take(k - 1)[i] by {
            assert(g.skip(g.len() - k)[i] == m.take(k)[i]);
        }
        assert(tail =~= m.take(k - 1));
    }
    if ends_in_magic(h, k - 1) && b == m[k - 1] {
        let tail = g.skip(g.len() - k);
        assert forall|i: int| 0 <= i < k implies tail[i] == m.take(k)[i] by {
            if i < k - 1 {
                assert(h.skip(h.len() - (k - 1))[i] == m.take(k - 1)[i]);
            }
        }
        assert(tail =~= m.take(k));
    }
}

/// While the magic is incomplete, the watch has matched as much of it as the stream ends in, and
/// the magic has not occurred.
proof fn lemma_watch_is_exact(h: Seq<u8>)
    ensures
        magic_run(0, h) <= 5,
        magic_run(0, h) < 5 ==> ends_in_magic(h, magic_run(0, h) as int),
        magic_run(0, h) < 5 ==> forall|k: int|
            magic_run(0, h) < k <= 5 ==> !#[trigger] ends_in_magic(h, k),
        magic_run(0, h) == 5 <==> exists|end: int| #[trigger] magic_at(h, end),
    decreases h.len(),
{
    let magic = bootsel_magic();
    if h.len() == 0 {
        assert(h.skip(0) =~= magic.take(0));
    } else {
        let g = h.drop_last();
        let b = h.last();
        assert(h =~= g.push(b));
        lemma_watch_is_exact(g);
        let m = magic_run(0, g) as int;
        let n = magic_run(0, h) as int;
        assert(h.skip(h.len() as int) =~= magic.take(0));
        if m == 5 {
            let end = choose|end: int| magic_at(g, end);
            assert(h.subrange(end - 5, end) =~= g.subrange(end - 5, end));
            assert(magic_at(h, end));
        } else {
            assert forall|k: int| 1 <= k <= 5 implies (ends_in_magic(h, k) <==> ends_in_magic(
                g,
                k - 1,
            ) && b == magic[k - 1]) by {
                lemma_ends_in_magic_step(g, b, k);
            }
            assert forall|k: int| n < k <= 5 implies !#[trigger] ends_in_magic(h, k) by {
                if ends_in_magic(h, k) {
                    assert(ends_in_magic(g, k - 1));
                    if 1 <= k - 1 < m {
                        lemma_ends_in_magic_step(g.drop_last(), g.last(), k - 1);
                        lemma_ends_in_magic_step(g.drop_last(), g.last(), m);
                        assert(g =~= g.drop_last().push(g.last()));
                        assert(magic[k - 2] == magic[m - 1]);
                    }
                }
            }
            if n > 0 {
                assert(ends_in_magic(g, n - 1)) by {
                    if n == 1 {
                        assert(g.skip(g.len() as int) =~= magic.take(0));
                    }
                }
                assert(ends_in_magic(h, n));
            }
            if n == 5 {
                assert(h.subrange(h.len() - 5, h.len() as int) =~= h.skip(h.len() - 5));
                assert(magic.take(5) =~= magic);
                assert(magic_at(h, h.len() as int));
            } else if exists|end: int| magic_at(h, end) {
                let end = choose|end: int| magic_at(h, end);
                if end == h.len() {
                    assert(h.subrange(h.len() - 5, h.len() as int) =~= h.skip(h.len() - 5));
                    assert(magic.take(5) =~= magic);
                    assert(ends_in_magic(h, 5));
                } else {
                    assert(h.subrange(end - 5, end) =~= g.subrange(end - 5, end));
                    assert(magic_at(g, end));
                }
            }
        }
    }
}

/// A fresh watch asks for the reboot exactly if the magic has occurred in the stream, wherever it
/// began and whatever came before it.
pub proof fn law_magic_is_found(stream: Seq<u8>)
    ensures
        magic_run(0, stream) == 5 <==> exists|end: int| #[trigger] magic_at(stream, end),
{
    lemma_watch_is_exact(stream);
}

/// Cutting the stream into pieces does not hide the magic.
pub proof fn law_watch_pieces_add_up(matched: nat, a: Seq<u8>, b: Seq<u8>)
    ensures
        magic_run(matched, a + b) == magic_run(magic_run(matched, a), b),
    decreases b.len(),
{
    if b.len() == 0 {
        assert(a + b =~= a);
    } else {
        assert((a + b).drop_last() =~= a + b.drop_last());
        law_watch_pieces_add_up(matched, a, b.drop_last());
    }
}

/// As long as the magic is not complete, every byte that is read goes to the relay.
pub proof fn law_all_bytes_go_to_the_relay(matched: nat, bytes: Seq<u8>)
    requires
        magic_run(matched, bytes) < 5,
    ensures
        before_magic(matched, bytes) == bytes,
{
}

/// When the magic is first completed by byte `n`, counted from one, exactly the bytes before that
/// byte go to the relay, whatever follows it.
pub proof fn law_bytes_before_the_last_magic_byte_go_to_the_relay(
    matched: nat,
    bytes: Seq<u8>,
    n: int,
)
    requires
        matched < 5,
        0 < n <= bytes.len(),
        magic_run(matched, bytes.take(n)) == 5,
        magic_run(matched, bytes.take(n - 1)) < 5,
    ensures
        magic_run(matched, bytes) == 5,
        before_magic(matched, bytes) == bytes.take(n - 1),
{
    lemma_magic_stays(matched, bytes, n);
}

/// The same in terms of the stream alone, `earlier` being what was read before: without the magic
/// in the stream every byte of `bytes` goes to the relay, and otherwise those before the last byte
/// of its first occurrence.
pub proof fn law_relay_gets_the_stream_up_to_the_magic(earlier: Seq<u8>, bytes: Seq<u8>)
    requires
        forall|end: int| !#[trigger] magic_at(earlier, end),
    ensures
        (forall|end: int| !#[trigger] magic_at(earlier + bytes, end)) ==> before_magic(
            magic_run(0, earlier),
            bytes,
        ) == bytes,
        forall|end: int|
            #[trigger] magic_at(earlier + bytes, end) && (forall|e: int|
                e < end ==> !#[trigger] magic_at(earlier + bytes, e)) ==> before_magic(
                magic_run(0, earlier),
                bytes,
            ) == bytes.take(end - earlier.len() - 1),
{
    let stream = earlier + bytes;
    let matched = magic_run(0, earlier);
    lemma_watch_is_exact(earlier);
    lemma_watch_is_exact(stream);
    law_watch_pieces_add_up(0, earlier, bytes);
    assert forall|end: int|
        #[trigger] magic_at(stream, end) && (forall|e: int|
            e < end ==> !#[trigger] magic_at(stream, e)) implies before_magic(matched, bytes)
        == bytes.take(end - earlier.len() - 1) by {
        let n = end - earlier.len();
        if n <= 0 {
            assert(stream.subrange(end - 5, end) =~= earlier.subrange(end - 5, end));
            assert(magic_at(earlier, end));
        }
        let whole = earlier + bytes.take(n);
        let short = earlier + bytes.take(n - 1);
        assert(whole.subrange(end - 5, end) =~= stream.subrange(end - 5, end));
        assert(magic_at(whole, end));
        lemma_watch_is_exact(whole);
        lemma_watch_is_exact(short);
        assert forall|e: int| !#[trigger] magic_at(short, e) by {
            if magic_at(short, e) {
                assert(stream.subrange(e - 5, e) =~= short.subrange(e - 5, e));
                assert(magic_at(stream, e));
            }
        }
        law_watch_pieces_add_up(0, earlier, bytes.take(n));
        law_watch_pieces_add_up(0, earlier, bytes.take(n - 1));
        lemma_magic_stays(matched, bytes, n);
    }
}

/// The magic is the relay frame that asks for the same reboot.
pub proof fn law_magic_is_a_relay_frame()
    ensures
        bootsel_magic() == crate::relay::frame(crate::relay::T_BOOTSEL, Seq::empty()),
{
    assert(0x7Fu8 ^ 0u8 == 0x7Fu8) by (bit_vector);
    assert(bootsel_magic() =~= crate::relay::frame(crate::relay::T_BOOTSEL, Seq::empty()));
}

} // verus!
