//! A byte queue on a fixed buffer: one slot is always left free, so equal indices mean empty.
//!
//! `push_slot`, `pop_slot` and their counterparts for runs decide on the two indices alone. A producer and a consumer that
//! run on different cores can therefore share the buffer without a lock: each moves only its
//! own index and may act on an outdated copy of the other's.
use vstd::prelude::*;

verus! {

/// Index `i` brought back into `0..size`, for `i` below twice `size`.
pub open spec fn wrap(i: int, size: int) -> int {
    if i < size {
        i
    } else {
        i - size
    }
}

/// How many bytes stand between the two indices.
pub open spec fn count(head: int, tail: int, size: int) -> int {
    if head >= tail {
        head - tail
    } else {
        head - tail + size
    }
}

/// The bytes that a buffer holds between the two indices, oldest first.
pub open spec fn stored(buf: Seq<u8>, head: int, tail: int) -> Seq<u8> {
    Seq::new(
        count(head, tail, buf.len() as int) as nat,
        |i: int| buf[wrap(tail + i, buf.len() as int)],
    )
}

/// What a queue that held `held` and takes at most `cap` bytes holds after `bytes` were offered
/// to it: the bytes that find room, in order; the others are dropped.
pub open spec fn offer(held: Seq<u8>, bytes: Seq<u8>, cap: int) -> Seq<u8> {
    held + bytes.take(room_for(held, bytes, cap))
}

/// How many of `bytes` find room behind `held`.
pub open spec fn room_for(held: Seq<u8>, bytes: Seq<u8>, cap: int) -> int {
    if held.len() >= cap {
        0
    } else if bytes.len() <= cap - held.len() {
        bytes.len() as int
    } else {
        cap - held.len()
    }
}

fn next_index(i: usize, size: usize) -> (next: usize)
    requires
        i < size,
    ensures
        next == wrap(i + 1, size as int),
{
    proof {
        if i + 1 < size {
            vstd::arithmetic::div_mod::lemma_small_mod((i + 1) as nat, size as nat);
        } else {
            vstd::arithmetic::div_mod::lemma_mod_self_0(size as int);
        }
    }
    (i + 1) % size
}

/// The producer's decision. With room left, its byte belongs into slot `head`, and the index to
/// publish afterwards is returned; on a full buffer there is none.
pub fn push_slot(head: usize, tail: usize, size: usize) -> (next: Option<usize>)
    requires
        head < size,
        tail < size,
    ensures
        next is Some <==> count(head as int, tail as int, size as int) < size - 1,
        next matches Some(n) ==> n == wrap(head + 1, size as int),
{
    let n: usize = next_index(head, size);
    if n == tail {
        None
    } else {
        Some(n)
    }
}

/// The consumer's decision. With a byte stored, the oldest one stands in slot `tail`, and the
/// index to publish afterwards is returned; on an empty buffer there is none.
pub fn pop_slot(head: usize, tail: usize, size: usize) -> (next: Option<usize>)
    requires
        head < size,
        tail < size,
    ensures
        next is Some <==> count(head as int, tail as int, size as int) > 0,
        next matches Some(n) ==> n == wrap(tail + 1, size as int),
{
    if tail == head {
        None
    } else {
        Some(next_index(tail, size))
    }
}

/// The slot `offset` places behind slot `index`.
pub fn slot_at(index: usize, offset: usize, size: usize) -> (slot: usize)
    requires
        index < size,
        offset < size,
    ensures
        slot == wrap(index + offset, size as int),
        slot < size,
{
    if offset < size - index {
        index + offset
    } else {
        offset - (size - index)
    }
}

/// How many bytes to move, and the index to publish afterwards.
#[derive(Clone, Copy, Debug, PartialEq, Eq, Structural)]
pub struct Run {
    pub len: usize,
    pub next: usize,
}

/// How many bytes stand between the two indices.
fn stored_count(head: usize, tail: usize, size: usize) -> (n: usize)
    requires
        head < size,
        tail < size,
    ensures
        n == count(head as int, tail as int, size as int),
{
    if head >= tail {
        head - tail
    } else {
        size - tail + head
    }
}

/// The producer's decision on `offered` bytes: as many of them as find room belong into the slots
/// from `head` on.
pub fn push_run(head: usize, tail: usize, size: usize, offered: usize) -> (run: Run)
    requires
        head < size,
        tail < size,
    ensures
        run.len == vstd::math::min(
            offered as int,
            size - 1 - count(head as int, tail as int, size as int),
        ),
        run.next == wrap(head + run.len, size as int),
        run.next < size,
{
    let room: usize = size - 1 - stored_count(head, tail, size);
    let len: usize = if offered < room {
        offered
    } else {
        room
    };
    Run { len, next: slot_at(head, len, size) }
}

/// The consumer's decision with room for `room` bytes: as many bytes as are stored and find room
/// stand in the slots from `tail` on, oldest first.
pub fn pop_run(head: usize, tail: usize, size: usize, room: usize) -> (run: Run)
    requires
        head < size,
        tail < size,
    ensures
        run.len == vstd::math::min(
            room as int,
            count(head as int, tail as int, size as int),
        ),
        run.next == wrap(tail + run.len, size as int),
        run.next < size,
{
    let held: usize = stored_count(head, tail, size);
    let len: usize = if room < held {
        room
    } else {
        held
    };
    Run { len, next: slot_at(tail, len, size) }
}

/// A queue of at most `N - 1` bytes.
pub struct Ring<const N: usize> {
    buf: [u8; N],
    head: usize,
    tail: usize,
}

impl<const N: usize> View for Ring<N> {
    type V = Seq<u8>;

    /// The bytes in the queue, oldest first.
    closed spec fn view(&self) -> Seq<u8> {
        stored(self.buf@, self.head as int, self.tail as int)
    }
}

impl<const N: usize> Ring<N> {
    pub closed spec fn wf(&self) -> bool {
        &&& self.head < N
        &&& self.tail < N
    }

    /// An empty queue.
    pub fn new() -> (r: Self)
        requires
            N > 0,
        ensures
            r.wf(),
            r@ == Seq::<u8>::empty(),
    {
        let r = Ring { buf: vstd::array::array_fill_for_copy_types::<u8, N>(0), head: 0, tail: 0 };
        assert(r@ =~= Seq::<u8>::empty());
        r
    }

    /// A queue holds at most `N - 1` bytes.
    pub proof fn law_len(&self)
        requires
            self.wf(),
        ensures
            self@.len() < N,
    {
    }

    /// Appends `b`, or drops it when the queue is full.
    pub fn push(&mut self, b: u8)
        requires
            old(self).wf(),
        ensures
            final(self).wf(),
            final(self)@ == (if old(self)@.len() < N - 1 {
                old(self)@.push(b)
            } else {
                old(self)@
            }),
            final(self)@ == offer(old(self)@, seq![b], N - 1),
    {
        let ghost before = self@;
        if let Some(next) = push_slot(self.head, self.tail, N) {
            let head: usize = self.head;
            self.buf[head] = b;
            self.head = next;
            assert(self@ =~= before.push(b));
        }
        assert(seq![b].take(1) =~= seq![b]);
        assert(before + seq![b] =~= before.push(b));
        assert(before + seq![b].take(0) =~= before);
    }

    /// Takes the oldest byte, if there is one.
    pub fn pop(&mut self) -> (b: Option<u8>)
        requires
            old(self).wf(),
        ensures
            final(self).wf(),
            old(self)@.len() == 0 ==> b is None && final(self)@ == old(self)@,
            old(self)@.len() > 0 ==> b == Some(old(self)@[0]) && final(self)@
                == old(self)@.drop_first(),
    {
        let ghost before = self@;
        match pop_slot(self.head, self.tail, N) {
            Some(next) => {
                let b: u8 = self.buf[self.tail];
                self.tail = next;
                assert(self@ =~= before.drop_first());
                Some(b)
            },
            None => None,
        }
    }

    /// Appends `bytes` as far as they find room, and drops the others.
    pub fn extend(&mut self, bytes: &[u8])
        requires
            old(self).wf(),
        ensures
            final(self).wf(),
            final(self)@ == offer(old(self)@, bytes@, N - 1),
    {
        let run = push_run(self.head, self.tail, N, bytes.len());
        for i in 0..run.len
            invariant
                run.len <= bytes@.len(),
                run.len < N,
                self.wf(),
                self.head == old(self).head,
                self.tail == old(self).tail,
                filled(old(self).buf@, self.buf@, self.head as int, bytes@.take(i as int)),
        {
            let slot: usize = slot_at(self.head, i, N);
            self.buf[slot] = bytes[i];
        }
        proof {
            law_producer_may_lag(
                old(self).buf@,
                self.buf@,
                self.head as int,
                self.tail as int,
                self.tail as int,
                bytes@.take(run.len as int),
            );
        }
        self.head = run.next;
    }

    /// Takes bytes into `out` until the queue is empty or `out` is full, and returns how many.
    pub fn drain(&mut self, out: &mut [u8]) -> (n: usize)
        requires
            old(self).wf(),
        ensures
            final(self).wf(),
            n == vstd::math::min(old(self)@.len() as int, old(out)@.len() as int),
            final(out)@ == old(self)@.take(n as int) + old(out)@.skip(n as int),
            final(self)@ == old(self)@.skip(n as int),
    {
        let run = pop_run(self.head, self.tail, N, out.len());
        for i in 0..run.len
            invariant
                self.wf(),
                out@.len() == old(out)@.len(),
                run.len <= out@.len(),
                run.len <= self@.len(),
                self@.len() < N,
                forall|j: int| 0 <= j < i ==> out@[j] == self@[j],
                forall|j: int| i <= j < out@.len() ==> out@[j] == old(out)@[j],
        {
            let slot: usize = slot_at(self.tail, i, N);
            out[i] = self.buf[slot];
        }
        assert(out@ =~= self@.take(run.len as int) + old(out)@.skip(run.len as int));
        proof {
            law_consumer_may_lag(
                self.buf@,
                self.head as int,
                self.tail as int,
                self.head as int,
                run.len as int,
            );
        }
        self.tail = run.next;
        run.len
    }
}

/// Offering `a` and `b` after it is offering both at once.
pub proof fn law_offers_add_up(held: Seq<u8>, a: Seq<u8>, b: Seq<u8>, cap: int)
    requires
        held.len() <= cap,
    ensures
        offer(offer(held, a, cap), b, cap) == offer(held, a + b, cap),
{
    assert(offer(offer(held, a, cap), b, cap) =~= offer(held, a + b, cap));
}

/// Bytes that fit are all kept, in the order in which they were offered.
pub proof fn law_fitting_bytes_are_kept(held: Seq<u8>, bytes: Seq<u8>, cap: int)
    requires
        held.len() + bytes.len() <= cap,
    ensures
        offer(held, bytes, cap) == held + bytes,
{
    assert(bytes.take(bytes.len() as int) =~= bytes);
    if bytes.len() == 0 {
        assert(bytes.take(0) =~= bytes);
    }
}

/// Whether `after` is `before` with `bytes` written into the slots from `head` on.
pub open spec fn filled(before: Seq<u8>, after: Seq<u8>, head: int, bytes: Seq<u8>) -> bool {
    &&& after.len() == before.len()
    &&& forall|i: int|
        0 <= i < after.len() ==> #[trigger] after[i] == (if count(i, head, before.len() as int)
            < bytes.len() {
            bytes[count(i, head, before.len() as int)]
        } else {
            before[i]
        })
}

/// A producer that decides by an outdated `seen` copy of the consumer's index never touches a
/// byte that is still to be read: filling the slots from `head` on leaves the stored bytes as they
/// are, and publishing the index behind them appends exactly the new bytes. Every outdated copy,
/// the producer's as well as any the consumer holds, is then still merely outdated.
pub proof fn law_producer_may_lag(
    before: Seq<u8>,
    after: Seq<u8>,
    head: int,
    tail: int,
    seen: int,
    bytes: Seq<u8>,
)
    requires
        0 <= head < before.len(),
        0 <= tail < before.len(),
        0 <= seen < before.len(),
        count(head, tail, before.len() as int) <= count(head, seen, before.len() as int),
        count(head, seen, before.len() as int) + bytes.len() <= before.len() - 1,
        filled(before, after, head, bytes),
    ensures
        ({
            let size = before.len() as int;
            let next = wrap(head + bytes.len(), size);
            &&& stored(after, head, tail) == stored(before, head, tail)
            &&& stored(after, next, tail) == stored(before, head, tail) + bytes
            &&& count(next, tail, size) <= count(next, seen, size)
            &&& forall|copy: int|
                0 <= copy < size && #[trigger] count(copy, tail, size) <= count(head, tail, size)
                    ==> count(copy, tail, size) <= count(next, tail, size)
        }),
{
    let next = wrap(head + bytes.len(), before.len() as int);
    assert(stored(after, head, tail) =~= stored(before, head, tail));
    assert(stored(after, next, tail) =~= stored(before, head, tail) + bytes);
}

/// A consumer that decides by an outdated `seen` copy of the producer's index reads the oldest
/// stored bytes, and publishing the index behind `n` of them removes exactly these. Every outdated
/// copy, the consumer's as well as any the producer holds, is then still merely outdated.
pub proof fn law_consumer_may_lag(buf: Seq<u8>, head: int, tail: int, seen: int, n: int)
    requires
        0 <= head < buf.len(),
        0 <= tail < buf.len(),
        0 <= seen < buf.len(),
        0 <= n <= count(seen, tail, buf.len() as int) <= count(head, tail, buf.len() as int),
    ensures
        ({
            let size = buf.len() as int;
            let next = wrap(tail + n, size);
            &&& forall|i: int|
                0 <= i < n ==> #[trigger] stored(buf, head, tail)[i] == buf[wrap(tail + i, size)]
            &&& stored(buf, head, next) == stored(buf, head, tail).skip(n)
            &&& count(seen, next, size) <= count(head, next, size)
            &&& forall|copy: int|
                0 <= copy < size && count(head, tail, size) <= #[trigger] count(head, copy, size)
                    ==> count(head, next, size) <= count(head, copy, size)
        }),
{
    let next = wrap(tail + n, buf.len() as int);
    assert(stored(buf, head, next) =~= stored(buf, head, tail).skip(n));
}

/// Offering bytes to a queue keeps what it holds, and appends the leading bytes of what is offered:
/// all of them if they fit, and otherwise just as many as fill the queue.
pub proof fn law_offers_fill_the_queue(held: Seq<u8>, bytes: Seq<u8>, cap: int)
    requires
        held.len() <= cap,
    ensures
        held.is_prefix_of(offer(held, bytes, cap)),
        offer(held, bytes, cap).is_prefix_of(held + bytes),
        offer(held, bytes, cap).len() == vstd::math::min((held.len() + bytes.len()) as int, cap),
{
}

/// The indices go round the buffer: an index is brought back modulo the size, and the count is the
/// difference of the two indices modulo the size.
pub proof fn law_indices_go_round(head: int, tail: int, i: int, size: int)
    requires
        0 <= head < size,
        0 <= tail < size,
        0 <= i < 2 * size,
    ensures
        wrap(i, size) == i % size,
        count(head, tail, size) == (head - tail) % size,
        wrap(tail + count(head, tail, size), size) == head,
{
    if i < size {
        vstd::arithmetic::div_mod::lemma_small_mod(i as nat, size as nat);
    } else {
        vstd::arithmetic::div_mod::lemma_small_mod((i - size) as nat, size as nat);
        vstd::arithmetic::div_mod::lemma_mod_add_multiples_vanish(i - size, size);
    }
    if head >= tail {
        vstd::arithmetic::div_mod::lemma_small_mod((head - tail) as nat, size as nat);
    } else {
        vstd::arithmetic::div_mod::lemma_small_mod((head - tail + size) as nat, size as nat);
        vstd::arithmetic::div_mod::lemma_mod_add_multiples_vanish(head - tail, size);
    }
}

/// What is stored starts in slot `tail` and goes up slot by slot, round the end of the buffer, to
/// the slot before `head`.
pub proof fn law_stored_bytes_stand_in_order(buf: Seq<u8>, head: int, tail: int, i: int)
    requires
        0 <= head < buf.len(),
        0 <= tail < buf.len(),
        0 <= i < stored(buf, head, tail).len(),
    ensures
        stored(buf, head, tail).len() == (head - tail) % buf.len() as int,
        stored(buf, head, tail)[i] == buf[(tail + i) % buf.len() as int],
{
    law_indices_go_round(head, tail, tail + i, buf.len() as int);
}

} // verus!
