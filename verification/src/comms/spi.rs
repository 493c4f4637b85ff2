//! The link engine: exchanges 32-bit words with the console, which drives the clock.
//!
//! The engine never touches a pin. It names the one operation that has to be done next, and is
//! resumed with the level that the operation read.
use vstd::prelude::*;

verus! {

/// One operation on the link's pins.
#[derive(Clone, Copy, Debug, PartialEq, Eq, Structural)]
pub enum LinkAction {
    /// Read whether the clock is high.
    ClkIsHigh,
    /// Read whether the clock is low.
    ClkIsLow,
    /// Read whether the reset line is high.
    ResetIsHigh,
    /// Read whether the incoming data line is high.
    RxIsHigh,
    /// Read whether the incoming data line is low.
    RxIsLow,
    /// Drive the outgoing data line high or low. Nothing is read.
    DriveTx(bool),
    /// Wait for so many cycles. Nothing is read.
    Delay(u32),
}

/// How an exchange goes on: with one more operation, or not at all.
#[derive(Debug, PartialEq, Eq)]
pub enum Step<T> {
    Next(LinkAction),
    Done(T),
}

/// Where the exchange of one bit stands: the operation whose outcome is awaited.
#[derive(Clone, Copy, Debug, PartialEq, Eq, Structural)]
pub enum BitPhase {
    /// Waiting for the clock to fall.
    AwaitLow,
    /// The clock is still high: reading the reset line.
    CheckReset,
    /// The clock has fallen: driving the outgoing bit.
    Drive,
    /// Waiting for the clock to rise.
    AwaitHigh,
    /// The clock has risen: reading the incoming bit.
    Sample,
}

/// Bit `k` of `w`, counted from the least significant.
pub open spec fn bit_of(w: u32, k: u32) -> bool {
    (w >> k) & 1u32 == 1u32
}

/// The bits of `w`, most significant first.
pub open spec fn bits_of(w: u32) -> Seq<bool> {
    Seq::new(32, |i: int| bit_of(w, (31 - i) as u32))
}

/// The number that `bits` spell, most significant first.
pub open spec fn word_of(bits: Seq<bool>) -> nat
    decreases bits.len(),
{
    if bits.len() == 0 {
        0
    } else {
        2 * word_of(bits.drop_last()) + if bits.last() {
            1nat
        } else {
            0nat
        }
    }
}

/// A word exchange that is under way.
#[verifier::ext_equal]
pub struct Exchange {
    /// The word that goes out.
    pub data: u32,
    /// The bits that have come in so far.
    pub sampled: Seq<bool>,
    pub phase: BitPhase,
}

/// The engine.
#[verifier::ext_equal]
pub struct SpiView {
    pub reset_requested: bool,
    /// Completed word exchanges, modulo 2^32.
    pub tx_count: u32,
    pub exchange: Option<Exchange>,
}

/// The engine after its last operation read `level`, and how the exchange goes on.
pub open spec fn bit_step(v: SpiView, level: bool) -> (SpiView, Step<u32>) {
    let e = v.exchange->0;
    match e.phase {
        // While the clock is high the reset line is watched.
        BitPhase::AwaitLow => if level {
            (at_phase(v, BitPhase::CheckReset), Step::Next(LinkAction::ResetIsHigh))
        } else {
            (
                at_phase(v, BitPhase::Drive),
                Step::Next(LinkAction::DriveTx(bits_of(e.data)[e.sampled.len() as int])),
            )
        },
        BitPhase::CheckReset => (
            at_phase(
                SpiView { reset_requested: v.reset_requested || level, ..v },
                BitPhase::AwaitLow,
            ),
            Step::Next(LinkAction::ClkIsHigh),
        ),
        BitPhase::Drive => (at_phase(v, BitPhase::AwaitHigh), Step::Next(LinkAction::ClkIsLow)),
        BitPhase::AwaitHigh => if level {
            (v, Step::Next(LinkAction::ClkIsLow))
        } else {
            (at_phase(v, BitPhase::Sample), Step::Next(LinkAction::RxIsHigh))
        },
        BitPhase::Sample => {
            let sampled = e.sampled.push(level);
            if sampled.len() < 32 {
                (
                    SpiView {
                        exchange: Some(
                            Exchange { data: e.data, sampled, phase: BitPhase::AwaitLow },
                        ),
                        ..v
                    },
                    Step::Next(LinkAction::ClkIsHigh),
                )
            } else {
                (
                    SpiView {
                        tx_count: v.tx_count.wrapping_add(1),
                        exchange: None,
                        ..v
                    },
                    Step::Done(word_of(sampled) as u32),
                )
            }
        },
    }
}

/// `n` bits spell a number below 2^n.
proof fn lemma_word_bound(bits: Seq<bool>)
    ensures
        word_of(bits) < vstd::arithmetic::power2::pow2(bits.len()),
    decreases bits.len(),
{
    vstd::arithmetic::power2::lemma2_to64();
    if bits.len() > 0 {
        lemma_word_bound(bits.drop_last());
        vstd::arithmetic::power2::lemma_pow2_unfold(bits.len());
    }
}

/// The engine with its exchange at another phase.
pub open spec fn at_phase(v: SpiView, phase: BitPhase) -> SpiView {
    SpiView { exchange: Some(Exchange { phase, ..v.exchange->0 }), ..v }
}

/// The bits that have come in and the word they spell so far.
struct Incoming {
    rx: u32,
    count: u32,
    bits: Ghost<Seq<bool>>,
}

impl Incoming {
    spec fn wf(&self) -> bool {
        &&& self.count == self.bits@.len()
        &&& self.count <= 32
        &&& self.rx == word_of(self.bits@)
    }

    fn new() -> (r: Self)
        ensures
            r.wf(),
            r.bits@ == Seq::<bool>::empty(),
    {
        Incoming { rx: 0, count: 0, bits: Ghost(Seq::empty()) }
    }

    fn push(&mut self, level: bool)
        requires
            old(self).wf(),
            old(self).count < 32,
        ensures
            final(self).wf(),
            final(self).bits@ == old(self).bits@.push(level),
    {
        let bit: u32 = if level {
            1
        } else {
            0
        };
        let rx: u32 = self.rx;
        proof {
            lemma_word_bound(self.bits@);
            vstd::arithmetic::power2::lemma2_to64();
            if self.bits@.len() < 31 {
                vstd::arithmetic::power2::lemma_pow2_strictly_increases(self.bits@.len(), 31);
            }
            assert((rx << 1) | bit == 2 * rx + bit) by (bit_vector)
                requires
                    rx < 0x8000_0000,
                    bit <= 1,
            ;
            assert(self.bits@.push(level).drop_last() =~= self.bits@);
        }
        self.rx = (rx << 1) | bit;
        self.count = self.count + 1;
        self.bits = Ghost(self.bits@.push(level));
    }
}

pub struct Spi {
    reset_requested: bool,
    tx_count: u32,
    busy: bool,
    data: u32,
    incoming: Incoming,
    phase: BitPhase,
}

impl View for Spi {
    type V = SpiView;

    closed spec fn view(&self) -> SpiView {
        SpiView {
            reset_requested: self.reset_requested,
            tx_count: self.tx_count,
            exchange: if self.busy {
                Some(
                    Exchange {
                        data: self.data,
                        sampled: self.incoming.bits@,
                        phase: self.phase,
                    },
                )
            } else {
                None
            },
        }
    }
}

impl Spi {
    pub closed spec fn wf(&self) -> bool {
        &&& self.incoming.wf()
        &&& self.busy ==> self.incoming.count < 32
    }

    /// An idle engine.
    pub fn new() -> (r: Self)
        ensures
            r.wf(),
            r@ == (SpiView { reset_requested: false, tx_count: 0, exchange: None }),
    {
        Spi {
            reset_requested: false,
            tx_count: 0,
            busy: false,
            data: 0,
            incoming: Incoming::new(),
            phase: BitPhase::AwaitLow,
        }
    }

    /// Forgets a reset request.
    pub fn reset(&mut self)
        requires
            old(self).wf(),
        ensures
            final(self).wf(),
            final(self)@ == (SpiView { reset_requested: false, ..old(self)@ }),
    {
        self.reset_requested = false;
    }

    /// Notes a reset request.
    pub fn request_reset(&mut self)
        requires
            old(self).wf(),
        ensures
            final(self).wf(),
            final(self)@ == (SpiView { reset_requested: true, ..old(self)@ }),
    {
        self.reset_requested = true;
    }

    /// Whether a reset was requested since the last `reset`.
    pub fn reset_requested(&self) -> (r: bool)
        ensures
            r == self@.reset_requested,
    {
        self.reset_requested
    }

    /// The number of completed word exchanges, modulo 2^32: it stands still while the console's
    /// clock does.
    pub fn tx_count(&self) -> (n: u32)
        ensures
            n == self@.tx_count,
    {
        self.tx_count
    }

    /// Begins to exchange `data` for a word of the console's, and names the first operation. An
    /// exchange that was under way is given up.
    pub fn transfer_u32(&mut self, data: u32) -> (first: LinkAction)
        requires
            old(self).wf(),
        ensures
            final(self).wf(),
            final(self)@ == (SpiView {
                exchange: Some(
                    Exchange { data, sampled: Seq::empty(), phase: BitPhase::AwaitLow },
                ),
                ..old(self)@
            }),
            first == LinkAction::ClkIsHigh,
    {
        self.busy = true;
        self.data = data;
        self.incoming = Incoming::new();
        self.phase = BitPhase::AwaitLow;
        LinkAction::ClkIsHigh
    }

    /// Goes on with the exchange, after its last operation read `level`; where that operation
    /// reads nothing, `level` is ignored.
    pub fn transfer_bit(&mut self, level: bool) -> (step: Step<u32>)
        requires
            old(self).wf(),
            old(self)@.exchange is Some,
        ensures
            final(self).wf(),
            (final(self)@, step) == bit_step(old(self)@, level),
            step is Done <==> final(self)@.exchange is None,
    {
        match self.phase {
            BitPhase::AwaitLow => {
                if level {
                    self.phase = BitPhase::CheckReset;
                    Step::Next(LinkAction::ResetIsHigh)
                } else {
                    self.phase = BitPhase::Drive;
                    let at: u32 = 31 - self.incoming.count;
                    let data: u32 = self.data;
                    Step::Next(LinkAction::DriveTx((data >> at) & 1 == 1))
                }
            },
            BitPhase::CheckReset => {
                if level {
                    self.reset_requested = true;
                }
                self.phase = BitPhase::AwaitLow;
                Step::Next(LinkAction::ClkIsHigh)
            },
            BitPhase::Drive => {
                self.phase = BitPhase::AwaitHigh;
                Step::Next(LinkAction::ClkIsLow)
            },
            BitPhase::AwaitHigh => {
                if level {
                    Step::Next(LinkAction::ClkIsLow)
                } else {
                    self.phase = BitPhase::Sample;
                    Step::Next(LinkAction::RxIsHigh)
                }
            },
            BitPhase::Sample => {
                self.incoming.push(level);
                if self.incoming.count < 32 {
                    self.phase = BitPhase::AwaitLow;
                    Step::Next(LinkAction::ClkIsHigh)
                } else {
                    self.busy = false;
                    self.tx_count = self.tx_count.wrapping_add(1);
                    Step::Done(self.incoming.rx)
                }
            },
        }
    }
}

/// The engine after its operations read `levels`, one after the other, and the word that came in
/// if the exchange ended with the last of them. Levels behind the end of the exchange are left
/// alone.
pub open spec fn exchange_run(v: SpiView, levels: Seq<bool>) -> (SpiView, Option<u32>)
    decreases levels.len(),
{
    if levels.len() == 0 {
        (v, None)
    } else {
        let (next, step) = bit_step(v, levels[0]);
        match step {
            Step::Done(rx) => (next, Some(rx)),
            Step::Next(_) => exchange_run(next, levels.drop_first()),
        }
    }
}

/// The levels of an exchange in which no operation has to be repeated: for each bit the clock has
/// fallen, the bit is driven, the clock has risen, and the incoming bit is read.
pub open spec fn prompt_levels(bits: Seq<bool>) -> Seq<bool>
    decreases bits.len(),
{
    if bits.len() == 0 {
        Seq::empty()
    } else {
        seq![false, false, false, bits[0]] + prompt_levels(bits.drop_first())
    }
}

/// An exchange under way has read fewer than 32 bits.
pub proof fn law_exchange_is_unfinished(spi: &Spi)
    requires
        spi.wf(),
        spi@.exchange is Some,
    ensures
        spi@.exchange->0.sampled.len() < 32,
{
}

/// A word is the number that its bits spell, so a word that comes back bit for bit comes back
/// whole.
pub proof fn law_word_of_its_bits(w: u32)
    ensures
        word_of(bits_of(w)) == w,
{
    lemma_word_prefix(w, 32);
    assert(bits_of(w).take(32) =~= bits_of(w));
    assert(w >> 0u32 == w) by (bit_vector);
}

/// The first `n` bits of `w` spell what is left of it without its other bits.
proof fn lemma_word_prefix(w: u32, n: int)
    requires
        1 <= n <= 32,
    ensures
        word_of(bits_of(w).take(n)) == w >> ((32 - n) as u32),
    decreases n,
{
    let head = bits_of(w).take(n);
    let k = (32 - n) as u32;
    assert(head.drop_last() =~= bits_of(w).take(n - 1));
    assert(head.last() == bit_of(w, k));
    assert((w >> k) & 1u32 <= 1u32) by (bit_vector);
    if n == 1 {
        assert(head.drop_last() =~= Seq::<bool>::empty());
        assert(word_of(head.drop_last()) == 0);
        assert(w >> 31u32 == (w >> 31u32) & 1u32) by (bit_vector);
    } else {
        lemma_word_prefix(w, n - 1);
        let j = (k + 1) as u32;
        assert(w >> k == 2 * (w >> j) + ((w >> k) & 1u32)) by (bit_vector)
            requires
                k < 31,
                j == k + 1,
        ;
    }
}

/// The bits that were read from the console on the way through `levels`.
pub open spec fn bits_read(v: SpiView, levels: Seq<bool>) -> Seq<bool>
    decreases levels.len(),
{
    if levels.len() == 0 {
        Seq::empty()
    } else {
        let (next, step) = bit_step(v, levels[0]);
        let here = if v.exchange->0.phase is Sample {
            seq![levels[0]]
        } else {
            Seq::empty()
        };
        match step {
            Step::Done(_) => here,
            Step::Next(_) => here + bits_read(next, levels.drop_first()),
        }
    }
}

/// The bits that were driven towards the console on the way through `levels`.
pub open spec fn bits_driven(v: SpiView, levels: Seq<bool>) -> Seq<bool>
    decreases levels.len(),
{
    if levels.len() == 0 {
        Seq::empty()
    } else {
        let (next, step) = bit_step(v, levels[0]);
        match step {
            Step::Done(_) => Seq::empty(),
            Step::Next(LinkAction::DriveTx(bit)) => seq![bit] + bits_driven(
                next,
                levels.drop_first(),
            ),
            Step::Next(_) => bits_driven(next, levels.drop_first()),
        }
    }
}

/// Whether the reset line was found high on the way through `levels`.
pub open spec fn reset_read(v: SpiView, levels: Seq<bool>) -> bool
    decreases levels.len(),
{
    if levels.len() == 0 {
        false
    } else {
        let (next, step) = bit_step(v, levels[0]);
        let here = v.exchange->0.phase is CheckReset && levels[0];
        match step {
            Step::Done(_) => here,
            Step::Next(_) => here || reset_read(next, levels.drop_first()),
        }
    }
}

/// How many bits an exchange has driven so far.
spec fn driven_so_far(e: Exchange) -> int {
    match e.phase {
        BitPhase::AwaitLow | BitPhase::CheckReset => e.sampled.len() as int,
        _ => e.sampled.len() as int + 1,
    }
}

proof fn lemma_exchange_run(v: SpiView, levels: Seq<bool>)
    requires
        v.exchange is Some,
        v.exchange->0.sampled.len() < 32,
    ensures
        ({
            let e = v.exchange->0;
            let (after, rx) = exchange_run(v, levels);
            let bits = e.sampled + bits_read(v, levels);
            let driven = bits_of(e.data).take(driven_so_far(e)) + bits_driven(v, levels);
            &&& after.reset_requested == (v.reset_requested || reset_read(v, levels))
            &&& rx matches Some(w) ==> {
                &&& bits.len() == 32
                &&& w == word_of(bits)
                &&& driven == bits_of(e.data)
                &&& after.exchange is None
                &&& after.tx_count == v.tx_count.wrapping_add(1)
            }
            &&& rx is None ==> {
                &&& bits.len() < 32
                &&& driven == bits_of(e.data).take(driven.len() as int)
                &&& after.exchange matches Some(f) && f.sampled == bits && f.data == e.data
                &&& after.tx_count == v.tx_count
            }
        }),
    decreases levels.len(),
{
    let e = v.exchange->0;
    let all = bits_of(e.data);
    if levels.len() == 0 {
        assert(e.sampled + bits_read(v, levels) =~= e.sampled);
        assert(all.take(driven_so_far(e)) + bits_driven(v, levels) =~= all.take(driven_so_far(e)));
    } else {
        let (next, step) = bit_step(v, levels[0]);
        let rest = levels.drop_first();
        lemma_word_bound(e.sampled.push(levels[0]));
        vstd::arithmetic::power2::lemma2_to64();
        match step {
            Step::Done(_) => {
                assert(e.sampled + bits_read(v, levels) =~= e.sampled.push(levels[0]));
                assert(all.take(driven_so_far(e)) + bits_driven(v, levels) =~= all);
            },
            Step::Next(_) => {
                lemma_exchange_run(next, rest);
                let f = next.exchange->0;
                assert(e.sampled + bits_read(v, levels) =~= f.sampled + bits_read(next, rest));
                assert(all.take(driven_so_far(e)) + bits_driven(v, levels) =~= all.take(
                    driven_so_far(f),
                ) + bits_driven(next, rest));
            },
        }
    }
}

/// Whatever the clock does, an exchange that ends has driven the bits of the outgoing word, most
/// significant first, has read 32 bits, gives the word that they spell, and counts as one.
pub proof fn law_exchange_is_exact(v: SpiView, data: u32, levels: Seq<bool>)
    requires
        v.exchange == Some(
            Exchange { data, sampled: Seq::empty(), phase: BitPhase::AwaitLow },
        ),
    ensures
        exchange_run(v, levels).1 matches Some(rx) ==> {
            &&& bits_driven(v, levels) == bits_of(data)
            &&& bits_read(v, levels).len() == 32
            &&& rx == word_of(bits_read(v, levels))
            &&& exchange_run(v, levels).0.tx_count == v.tx_count.wrapping_add(1)
        },
        exchange_run(v, levels).1 is None ==> exchange_run(v, levels).0.tx_count == v.tx_count,
{
    lemma_exchange_run(v, levels);
    assert(v.exchange->0.sampled + bits_read(v, levels) =~= bits_read(v, levels));
    assert(bits_of(data).take(0) + bits_driven(v, levels) =~= bits_driven(v, levels));
}

/// With the outgoing line fed back into the incoming one, a word comes back unchanged.
pub proof fn law_loopback(v: SpiView, data: u32, levels: Seq<bool>)
    requires
        v.exchange == Some(
            Exchange { data, sampled: Seq::empty(), phase: BitPhase::AwaitLow },
        ),
        bits_read(v, levels) == bits_driven(v, levels),
    ensures
        exchange_run(v, levels).1 matches Some(rx) ==> rx == data,
{
    law_exchange_is_exact(v, data, levels);
    law_word_of_its_bits(data);
}

/// After an exchange a reset is requested exactly if one was before or the reset line was found
/// high on the way: no exchange takes a request back.
pub proof fn law_reset_requests_add_up(v: SpiView, levels: Seq<bool>)
    requires
        v.exchange is Some,
        v.exchange->0.sampled.len() < 32,
    ensures
        exchange_run(v, levels).0.reset_requested == (v.reset_requested || reset_read(v, levels)),
{
    lemma_exchange_run(v, levels);
}

/// An exchange in which the clock never has to be waited for ends with its last bit, and gives
/// the word that the incoming bits spell. No reset is requested on the way.
pub proof fn law_prompt_exchange_ends(v: SpiView, data: u32, bits: Seq<bool>)
    requires
        v.exchange == Some(
            Exchange { data, sampled: Seq::empty(), phase: BitPhase::AwaitLow },
        ),
        bits.len() == 32,
    ensures
        exchange_run(v, prompt_levels(bits)) == (
            SpiView { tx_count: v.tx_count.wrapping_add(1), exchange: None, ..v },
            Some(word_of(bits) as u32),
        ),
{
    lemma_prompt_run(v, bits);
    assert(Seq::<bool>::empty() + bits =~= bits);
}

proof fn lemma_prompt_run(v: SpiView, bits: Seq<bool>)
    requires
        v.exchange matches Some(e) && e.phase is AwaitLow && e.sampled.len() + bits.len() == 32,
        bits.len() > 0,
    ensures
        exchange_run(v, prompt_levels(bits)) == (
            SpiView { tx_count: v.tx_count.wrapping_add(1), exchange: None, ..v },
            Some(word_of(v.exchange->0.sampled + bits) as u32),
        ),
    decreases bits.len(),
{
    let e = v.exchange->0;
    let l0 = prompt_levels(bits);
    let rest = prompt_levels(bits.drop_first());
    let l1 = seq![false, false, bits[0]] + rest;
    let l2 = seq![false, bits[0]] + rest;
    let l3 = seq![bits[0]] + rest;
    assert(l0.drop_first() =~= l1);
    assert(l1.drop_first() =~= l2);
    assert(l2.drop_first() =~= l3);
    assert(l3.drop_first() =~= rest);
    let v1 = bit_step(v, false).0;
    let v2 = bit_step(v1, false).0;
    let v3 = bit_step(v2, false).0;
    let (v4, step) = bit_step(v3, bits[0]);
    assert(exchange_run(v, l0) == exchange_run(v1, l1));
    assert(exchange_run(v1, l1) == exchange_run(v2, l2));
    assert(exchange_run(v2, l2) == exchange_run(v3, l3));
    if bits.len() == 1 {
        assert(e.sampled.push(bits[0]) =~= e.sampled + bits);
    } else {
        assert(exchange_run(v3, l3) == exchange_run(v4, rest));
        lemma_prompt_run(v4, bits.drop_first());
        assert(e.sampled.push(bits[0]) + bits.drop_first() =~= e.sampled + bits);
    }
}

/// An operation that was done, and the level that it read.
pub struct Op {
    pub action: LinkAction,
    pub level: bool,
}

/// The operations of an exchange that are done on the way through `levels`, `pending` being the one
/// that was named last.
pub open spec fn exchange_ops(v: SpiView, pending: LinkAction, levels: Seq<bool>) -> Seq<Op>
    decreases levels.len(),
{
    if levels.len() == 0 {
        Seq::empty()
    } else {
        let (next, step) = bit_step(v, levels[0]);
        let here = seq![Op { action: pending, level: levels[0] }];
        match step {
            Step::Done(_) => here,
            Step::Next(action) => here + exchange_ops(next, action, levels.drop_first()),
        }
    }
}

/// The operation that is named after `levels`, or none if the exchange is over by then.
pub open spec fn exchange_next(
    v: SpiView,
    pending: LinkAction,
    levels: Seq<bool>,
) -> Option<LinkAction>
    decreases levels.len(),
{
    if levels.len() == 0 {
        Some(pending)
    } else {
        let (next, step) = bit_step(v, levels[0]);
        match step {
            Step::Done(_) => None,
            Step::Next(action) => exchange_next(next, action, levels.drop_first()),
        }
    }
}

/// Whether `next` is the operation to do after `op`, if the exchange goes on. For each bit the
/// clock is watched until it is found not high, with a look at the reset line each time it is; then
/// the outgoing bit is driven, the clock watched until it is found not low, and the incoming bit
/// read.
pub open spec fn follows(op: Op, next: LinkAction) -> bool {
    match op.action {
        LinkAction::ClkIsHigh => if op.level {
            next is ResetIsHigh
        } else {
            next is DriveTx
        },
        LinkAction::ResetIsHigh => next is ClkIsHigh,
        LinkAction::DriveTx(_) => next is ClkIsLow,
        LinkAction::ClkIsLow => if op.level {
            next is ClkIsLow
        } else {
            next is RxIsHigh
        },
        LinkAction::RxIsHigh => next is ClkIsHigh,
        _ => false,
    }
}

/// Whether each operation is the one to do after the one before it.
pub open spec fn in_order(ops: Seq<Op>) -> bool {
    forall|i: int, j: int|
        0 <= i && j == i + 1 && j < ops.len() ==> follows(#[trigger] ops[i], (#[trigger] ops[j]).action)
}

/// The levels that were read from the incoming data line.
pub open spec fn levels_read(ops: Seq<Op>) -> Seq<bool>
    decreases ops.len(),
{
    if ops.len() == 0 {
        Seq::empty()
    } else {
        let rest = levels_read(ops.drop_first());
        if ops[0].action is RxIsHigh {
            seq![ops[0].level] + rest
        } else {
            rest
        }
    }
}

/// The levels that were put on the outgoing data line.
pub open spec fn levels_driven(ops: Seq<Op>) -> Seq<bool>
    decreases ops.len(),
{
    if ops.len() == 0 {
        Seq::empty()
    } else {
        let rest = levels_driven(ops.drop_first());
        match ops[0].action {
            LinkAction::DriveTx(bit) => seq![bit] + rest,
            _ => rest,
        }
    }
}

/// Whether the reset line was found high.
pub open spec fn reset_found(ops: Seq<Op>) -> bool {
    exists|i: int|
        0 <= i < ops.len() && (#[trigger] ops[i]).action is ResetIsHigh && ops[i].level
}

/// Whether `pending` is the operation whose outcome an exchange awaits.
spec fn awaits(e: Exchange, pending: LinkAction) -> bool {
    match e.phase {
        BitPhase::AwaitLow => pending is ClkIsHigh,
        BitPhase::CheckReset => pending is ResetIsHigh,
        BitPhase::Drive => pending == LinkAction::DriveTx(bits_of(e.data)[e.sampled.len() as int]),
        BitPhase::AwaitHigh => pending is ClkIsLow,
        BitPhase::Sample => pending is RxIsHigh,
    }
}

/// How many bits an exchange has put on the line.
spec fn on_the_line(e: Exchange) -> int {
    match e.phase {
        BitPhase::AwaitHigh | BitPhase::Sample => e.sampled.len() as int + 1,
        _ => e.sampled.len() as int,
    }
}

proof fn lemma_reset_found(op: Op, rest: Seq<Op>)
    ensures
        reset_found(seq![op] + rest) <==> (op.action is ResetIsHigh && op.level) || reset_found(
            rest,
        ),
{
    let all = seq![op] + rest;
    assert(all[0] == op);
    if reset_found(rest) {
        let i = choose|i: int|
            0 <= i < rest.len() && (#[trigger] rest[i]).action is ResetIsHigh && rest[i].level;
        assert(all[i + 1] == rest[i]);
    }
    if reset_found(all) {
        let i = choose|i: int|
            0 <= i < all.len() && (#[trigger] all[i]).action is ResetIsHigh && all[i].level;
        if i > 0 {
            assert(all[i] == rest[i - 1]);
        }
    }
}

proof fn lemma_in_order(op: Op, rest: Seq<Op>)
    requires
        in_order(rest),
        rest.len() > 0 ==> follows(op, rest[0].action),
    ensures
        in_order(seq![op] + rest),
{
    let all = seq![op] + rest;
    assert forall|i: int, j: int| 0 <= i && j == i + 1 && j < all.len() implies follows(
        #[trigger] all[i],
        (#[trigger] all[j]).action,
    ) by {
        assert(all[j] == rest[j - 1]);
        if i > 0 {
            assert(all[i] == rest[i - 1]);
        }
    }
}

#[verifier::rlimit(40)]
proof fn lemma_exchange_ops(v: SpiView, pending: LinkAction, levels: Seq<bool>)
    requires
        v.exchange is Some,
        v.exchange->0.sampled.len() < 32,
        awaits(v.exchange->0, pending),
    ensures
        ({
            let e = v.exchange->0;
            let all = bits_of(e.data);
            let (after, rx) = exchange_run(v, levels);
            let ops = exchange_ops(v, pending, levels);
            let next = exchange_next(v, pending, levels);
            let bits = e.sampled + levels_read(ops);
            let driven = all.take(on_the_line(e)) + levels_driven(ops);
            &&& ops.len() <= levels.len()
            &&& levels.len() > 0 ==> ops.len() > 0 && ops[0].action == pending
            &&& in_order(ops)
            &&& next matches Some(action) ==> ops.len() > 0 ==> follows(ops.last(), action)
            &&& after.reset_requested == (v.reset_requested || reset_found(ops))
            &&& rx is Some <==> next is None
            &&& rx matches Some(w) ==> {
                &&& bits.len() == 32
                &&& w == word_of(bits)
                &&& driven == all
                &&& ops.last().action is RxIsHigh
            }
            &&& rx is None ==> {
                &&& ops.len() == levels.len()
                &&& bits.len() < 32
                &&& driven.len() == bits.len() || driven.len() == bits.len() + 1
                &&& driven == all.take(driven.len() as int)
                &&& next matches Some(LinkAction::DriveTx(bit)) ==> bit == all[bits.len() as int]
                    && driven.len() == bits.len()
            }
        }),
    decreases levels.len(),
{
    let e = v.exchange->0;
    let all = bits_of(e.data);
    let ops = exchange_ops(v, pending, levels);
    if levels.len() == 0 {
        assert(e.sampled + levels_read(ops) =~= e.sampled);
        assert(all.take(on_the_line(e)) + levels_driven(ops) =~= all.take(on_the_line(e)));
    } else {
        let (next, step) = bit_step(v, levels[0]);
        let rest = levels.drop_first();
        let op = Op { action: pending, level: levels[0] };
        lemma_word_bound(e.sampled.push(levels[0]));
        vstd::arithmetic::power2::lemma2_to64();
        match step {
            Step::Done(_) => {
                let none = Seq::<Op>::empty();
                assert(ops =~= seq![op] + none);
                assert(ops.drop_first() =~= none);
                lemma_reset_found(op, none);
                assert(levels_read(none) =~= Seq::<bool>::empty());
                assert(levels_driven(none) =~= Seq::<bool>::empty());
                assert(e.sampled + levels_read(ops) =~= e.sampled.push(levels[0]));
                assert(all.take(on_the_line(e)) + levels_driven(ops) =~= all);
            },
            Step::Next(action) => {
                let f = next.exchange->0;
                let later = exchange_ops(next, action, rest);
                lemma_exchange_ops(next, action, rest);
                assert(ops =~= seq![op] + later);
                assert(ops.drop_first() =~= later);
                lemma_reset_found(op, later);
                lemma_in_order(op, later);
                assert(e.sampled + levels_read(ops) =~= f.sampled + levels_read(later));
                assert(all.take(on_the_line(e)) + levels_driven(ops) =~= all.take(on_the_line(f))
                    + levels_driven(later));
                if later.len() > 0 {
                    assert(ops.last() == later.last());
                }
            },
        }
    }
}

/// Every exchange, whatever the clock does: its operations come in order from the first look at the
/// clock on, and so does the one that is named next; it is over exactly when the 32nd level is read.
/// The levels driven up to any point are the leading bits of the outgoing word, one for each level
/// read or one more, and all of them in the end; the word that comes in is the one that the levels
/// read spell. A reset is requested exactly if one was before or the reset line was found high.
pub proof fn law_exchange_goes_by_the_clock(v: SpiView, data: u32, levels: Seq<bool>)
    requires
        v.exchange == Some(
            Exchange { data, sampled: Seq::empty(), phase: BitPhase::AwaitLow },
        ),
    ensures
        ({
            let ops = exchange_ops(v, LinkAction::ClkIsHigh, levels);
            let next = exchange_next(v, LinkAction::ClkIsHigh, levels);
            let (after, rx) = exchange_run(v, levels);
            let read = levels_read(ops);
            let driven = levels_driven(ops);
            &&& ops.len() > 0 ==> ops[0].action is ClkIsHigh
            &&& in_order(ops)
            &&& next matches Some(action) ==> ops.len() > 0 ==> follows(ops.last(), action)
            &&& next is None <==> read.len() == 32
            &&& rx is Some <==> read.len() == 32
            &&& read.len() <= 32
            &&& read.len() < 32 ==> ops.len() == levels.len()
            &&& read.len() == driven.len() || read.len() + 1 == driven.len()
            &&& driven.is_prefix_of(bits_of(data))
            &&& next matches Some(LinkAction::DriveTx(bit)) ==> bit == bits_of(
                data,
            )[driven.len() as int]
            &&& rx matches Some(w) ==> driven == bits_of(data) && w == word_of(read)
                && ops.last().action is RxIsHigh
            &&& after.reset_requested == (v.reset_requested || reset_found(ops))
        }),
{
    let ops = exchange_ops(v, LinkAction::ClkIsHigh, levels);
    lemma_exchange_ops(v, LinkAction::ClkIsHigh, levels);
    assert(v.exchange->0.sampled + levels_read(ops) =~= levels_read(ops));
    assert(bits_of(data).take(0) + levels_driven(ops) =~= levels_driven(ops));
}

/// In operations that come in order, a bit is driven only right after the clock was found not high,
/// and read only right after it was found not low; a clock found low is looked at again. Between
/// two bits read the clock is found not high again, so each bit takes a falling and a rising edge.
pub proof fn law_each_bit_takes_two_edges(ops: Seq<Op>, i: int, j: int)
    requires
        in_order(ops),
        0 <= i < j < ops.len(),
    ensures
        ops[j].action is RxIsHigh ==> ops[j - 1].action is ClkIsLow && !ops[j - 1].level,
        ops[j].action is DriveTx ==> ops[j - 1].action is ClkIsHigh && !ops[j - 1].level,
        ops[j - 1].action is ClkIsLow && ops[j - 1].level ==> ops[j].action is ClkIsLow,
        ops[i].action is RxIsHigh && ops[j].action is RxIsHigh ==> exists|k: int|
            i < k < j && (#[trigger] ops[k]).action is ClkIsHigh && !ops[k].level,
{
    assert(follows(ops[j - 1], ops[j].action));
    if ops[i].action is RxIsHigh && ops[j].action is RxIsHigh {
        if forall|k: int| i < k < j ==> !((#[trigger] ops[k]).action is ClkIsHigh && !ops[k].level) {
            lemma_clock_stays_high(ops, i, j);
        }
    }
}

proof fn lemma_clock_stays_high(ops: Seq<Op>, i: int, j: int)
    requires
        in_order(ops),
        0 <= i < j < ops.len(),
        ops[i].action is RxIsHigh,
        forall|k: int| i < k < j ==> !((#[trigger] ops[k]).action is ClkIsHigh && !ops[k].level),
    ensures
        ops[j].action is ClkIsHigh || ops[j].action is ResetIsHigh,
    decreases j - i,
{
    assert(follows(ops[j - 1], ops[j].action));
    if i + 1 < j {
        lemma_clock_stays_high(ops, i, j - 1);
    }
}

/// The bits of a word are its binary digits, the most significant first.
pub proof fn law_bits_are_binary_digits(w: u32, i: int)
    requires
        0 <= i < 32,
    ensures
        bits_of(w).len() == 32,
        bits_of(w)[i] <==> (w as nat / vstd::arithmetic::power2::pow2((31 - i) as nat)) % 2 == 1,
{
    let k = (31 - i) as u32;
    vstd::bits::lemma_u32_shr_is_div(w, k);
    let q = w >> k;
    assert(q & 1u32 == q % 2u32) by (bit_vector);
}

/// A bit in front counts for the power of two that the bits behind it leave.
pub proof fn law_leading_bit_weighs_most(bit: bool, bits: Seq<bool>)
    ensures
        word_of(seq![bit] + bits) == (if bit {
            vstd::arithmetic::power2::pow2(bits.len())
        } else {
            0
        }) + word_of(bits),
    decreases bits.len(),
{
    vstd::arithmetic::power2::lemma2_to64();
    let all = seq![bit] + bits;
    if bits.len() == 0 {
        assert(all.drop_last() =~= Seq::<bool>::empty());
        assert(word_of(all.drop_last()) == 0);
    } else {
        assert(all.drop_last() =~= seq![bit] + bits.drop_last());
        law_leading_bit_weighs_most(bit, bits.drop_last());
        vstd::arithmetic::power2::lemma_pow2_unfold(bits.len());
    }
}

/// Exchanging a word changes nothing of the engine but the count of exchanges, by one, and the
/// reset request; an exchange that is not over has not counted.
pub proof fn law_exchange_counts_once(v: SpiView, data: u32, levels: Seq<bool>)
    requires
        v.exchange == Some(
            Exchange { data, sampled: Seq::empty(), phase: BitPhase::AwaitLow },
        ),
    ensures
        ({
            let (after, rx) = exchange_run(v, levels);
            &&& after.tx_count == (v.tx_count + (if rx is Some {
                1int
            } else {
                0
            })) % 0x1_0000_0000
            &&& rx is Some <==> after.exchange is None
        }),
{
    lemma_exchange_run(v, levels);
}

} // verus!
