//! Acknowledged words: after each exchange the two sides tell each other, on the data lines, that
//! they are ready for the next one.
use crate::comms::login::{login, Login, LoginLog};
#[allow(unused_imports)]
use crate::comms::login::{LogView, LoginView};
use crate::comms::result::SendResult;
use crate::comms::spi::{LinkAction, Spi, Step};
#[allow(unused_imports)]
use crate::comms::spi::{BitPhase, Exchange, Op, SpiView};
use vstd::prelude::*;

verus! {

/// How often the console's ready line may be found not ready: a console that is switched off must
/// not hold the adapter up for ever.
pub const ACK_TIMEOUT: u32 = 20_000_000;

/// The pause, in cycles, before the adapter signals that it is ready.
pub const ACK_DELAY: u32 = 100;

/// Where the link stands: the operation whose outcome is awaited.
#[derive(Clone, Copy, Debug, PartialEq, Eq, Structural)]
pub enum GpiPhase {
    /// Nothing is under way.
    Idle,
    /// Pulling the data line low before `data` goes out.
    ReadyToSend { data: u32 },
    /// Exchanging a word.
    Exchanging,
    /// `rx` has come in: pulling the data line low.
    AckLow { rx: u32 },
    /// Pausing.
    AckPause { rx: u32 },
    /// Raising the data line, `left` more times.
    AckHigh { rx: u32, left: u8 },
    /// Waiting for the console to be ready; it was found not to be `lows` times.
    AckWait { rx: u32, lows: u32 },
    /// Logging in, with `tx` out.
    LoggingIn { tx: u32 },
}

/// The link: engine, phase and log.
#[verifier::ext_equal]
pub struct GpiView {
    pub spi: SpiView,
    pub phase: GpiPhase,
    pub log: LogView,
}

impl GpiView {
    /// Whether the sending of a word is under way.
    pub open spec fn sending(self) -> bool {
        !(self.phase is Idle) && !(self.phase is LoggingIn)
    }
}

/// The link after its last operation read `level`, and how the sending of a word goes on.
pub open spec fn send_step(v: GpiView, level: bool) -> (GpiView, Step<SendResult<u32>>) {
    match v.phase {
        GpiPhase::ReadyToSend { data } => (
            GpiView {
                spi: SpiView {
                    exchange: Some(
                        Exchange { data, sampled: Seq::empty(), phase: BitPhase::AwaitLow },
                    ),
                    ..v.spi
                },
                phase: GpiPhase::Exchanging,
                ..v
            },
            Step::Next(LinkAction::ClkIsHigh),
        ),
        GpiPhase::Exchanging => {
            let (spi, step) = crate::comms::spi::bit_step(v.spi, level);
            match step {
                Step::Next(action) => (GpiView { spi, ..v }, Step::Next(action)),
                Step::Done(rx) => if spi.reset_requested {
                    (
                        GpiView { spi, phase: GpiPhase::Idle, ..v },
                        Step::Done(SendResult::Reset),
                    )
                } else {
                    (
                        GpiView { spi, phase: GpiPhase::AckLow { rx }, ..v },
                        Step::Next(LinkAction::DriveTx(false)),
                    )
                },
            }
        },
        GpiPhase::AckLow { rx } => (
            GpiView { phase: GpiPhase::AckPause { rx }, ..v },
            Step::Next(LinkAction::Delay(ACK_DELAY)),
        ),
        GpiPhase::AckPause { rx } => (
            GpiView { phase: GpiPhase::AckHigh { rx, left: 2 }, ..v },
            Step::Next(LinkAction::DriveTx(true)),
        ),
        GpiPhase::AckHigh { rx, left } => if left > 0 {
            (
                GpiView { phase: GpiPhase::AckHigh { rx, left: (left - 1) as u8 }, ..v },
                Step::Next(LinkAction::DriveTx(true)),
            )
        } else {
            (
                GpiView { phase: GpiPhase::AckWait { rx, lows: 0 }, ..v },
                Step::Next(LinkAction::RxIsLow),
            )
        },
        GpiPhase::AckWait { rx, lows } => if !level {
            (GpiView { phase: GpiPhase::Idle, ..v }, Step::Done(SendResult::Data(rx)))
        } else if lows < ACK_TIMEOUT {
            (
                GpiView { phase: GpiPhase::AckWait { rx, lows: (lows + 1) as u32 }, ..v },
                Step::Next(LinkAction::RxIsLow),
            )
        } else {
            (
                GpiView {
                    spi: SpiView { reset_requested: true, ..v.spi },
                    phase: GpiPhase::Idle,
                    ..v
                },
                Step::Done(SendResult::Data(rx)),
            )
        },
        // No word is being sent.
        _ => (v, Step::Done(SendResult::Reset)),
    }
}

pub struct Gpi {
    spi: Spi,
    phase: GpiPhase,
    log: LoginLog,
}

impl View for Gpi {
    type V = GpiView;

    closed spec fn view(&self) -> GpiView {
        GpiView { spi: self.spi@, phase: self.phase, log: self.log@ }
    }
}

impl Gpi {
    pub closed spec fn wf(&self) -> bool {
        &&& self.spi.wf()
        &&& self.phase is Exchanging ==> self.spi@.exchange is Some
        &&& self.phase is LoggingIn ==> self.spi@.exchange is Some
    }

    /// The link on top of `spi`.
    pub fn new(spi: Spi) -> (r: Self)
        requires
            spi.wf(),
        ensures
            r.wf(),
            r@ == (GpiView {
                spi: spi@,
                phase: GpiPhase::Idle,
                log: crate::comms::login::empty_log(),
            }),
    {
        Gpi { spi, phase: GpiPhase::Idle, log: LoginLog::new() }
    }

    /// Forgets a reset request.
    pub fn reset(&mut self)
        requires
            old(self).wf(),
        ensures
            final(self).wf(),
            final(self)@ == (GpiView {
                spi: SpiView { reset_requested: false, ..old(self)@.spi },
                ..old(self)@
            }),
    {
        self.spi.reset();
    }

    /// The number of completed word exchanges, modulo 2^32.
    pub fn tx_count(&self) -> (n: u32)
        ensures
            n == self@.spi.tx_count,
    {
        self.spi.tx_count()
    }

    /// The words to report on the handshakes so far.
    pub fn login_report(&self) -> (words: [u32; 10])
        ensures
            words@ == crate::comms::login::log_report(self@.log),
    {
        self.log.report()
    }

    /// Begins to exchange `data` for a word of the console's, with acknowledgement, and names the
    /// first operation.
    pub fn send(&mut self, data: u32) -> (first: LinkAction)
        requires
            old(self).wf(),
        ensures
            final(self).wf(),
            final(self)@ == (GpiView { phase: GpiPhase::ReadyToSend { data }, ..old(self)@ }),
            first == LinkAction::DriveTx(false),
    {
        self.phase = GpiPhase::ReadyToSend { data };
        LinkAction::DriveTx(false)
    }

    /// Goes on with the sending of a word, after the last operation read `level`; where that
    /// operation reads nothing, `level` is ignored.
    pub fn resume_send(&mut self, level: bool) -> (step: Step<SendResult<u32>>)
        requires
            old(self).wf(),
            old(self)@.sending(),
        ensures
            final(self).wf(),
            (final(self)@, step) == send_step(old(self)@, level),
            step is Next <==> final(self)@.sending(),
    {
        match self.phase {
            GpiPhase::ReadyToSend { data } => {
                let first = self.spi.transfer_u32(data);
                self.phase = GpiPhase::Exchanging;
                Step::Next(first)
            },
            GpiPhase::Exchanging => {
                match self.spi.transfer_bit(level) {
                    Step::Next(action) => Step::Next(action),
                    Step::Done(rx) => {
                        if self.spi.reset_requested() {
                            self.phase = GpiPhase::Idle;
                            Step::Done(SendResult::Reset)
                        } else {
                            self.phase = GpiPhase::AckLow { rx };
                            Step::Next(LinkAction::DriveTx(false))
                        }
                    },
                }
            },
            GpiPhase::AckLow { rx } => {
                self.phase = GpiPhase::AckPause { rx };
                Step::Next(LinkAction::Delay(ACK_DELAY))
            },
            GpiPhase::AckPause { rx } => {
                self.phase = GpiPhase::AckHigh { rx, left: 2 };
                Step::Next(LinkAction::DriveTx(true))
            },
            GpiPhase::AckHigh { rx, left } => {
                if left > 0 {
                    self.phase = GpiPhase::AckHigh { rx, left: left - 1 };
                    Step::Next(LinkAction::DriveTx(true))
                } else {
                    self.phase = GpiPhase::AckWait { rx, lows: 0 };
                    Step::Next(LinkAction::RxIsLow)
                }
            },
            GpiPhase::AckWait { rx, lows } => {
                if !level {
                    self.phase = GpiPhase::Idle;
                    Step::Done(SendResult::Data(rx))
                } else if lows < ACK_TIMEOUT {
                    self.phase = GpiPhase::AckWait { rx, lows: lows + 1 };
                    Step::Next(LinkAction::RxIsLow)
                } else {
                    self.spi.request_reset();
                    self.phase = GpiPhase::Idle;
                    Step::Done(SendResult::Data(rx))
                }
            },
            _ => Step::Done(SendResult::Reset),
        }
    }

    /// Begins the login handshake, and names the first operation.
    pub fn login(&mut self) -> (first: LinkAction)
        requires
            old(self).wf(),
        ensures
            final(self).wf(),
            final(self)@ == (GpiView {
                spi: crate::comms::login::attempt(
                    old(self)@.spi,
                    crate::comms::login::INITIAL_LOGIN_TX,
                ),
                phase: GpiPhase::LoggingIn { tx: crate::comms::login::INITIAL_LOGIN_TX },
                ..old(self)@
            }),
            first == LinkAction::ClkIsHigh,
    {
        let (begun, first) = login(&mut self.spi);
        self.phase = GpiPhase::LoggingIn { tx: begun.tx };
        first
    }

    /// Goes on with the login handshake, after the last operation read `level`.
    pub fn resume_login(&mut self, level: bool) -> (step: Step<()>)
        requires
            old(self).wf(),
            old(self)@.phase is LoggingIn,
        ensures
            final(self).wf(),
            ({
                let (after, expected) = crate::comms::login::login_step(
                    LoginView {
                        tx: old(self)@.phase->LoggingIn_tx,
                        spi: old(self)@.spi,
                        log: old(self)@.log,
                    },
                    level,
                );
                &&& step == expected
                &&& final(self)@ == (GpiView {
                    spi: after.spi,
                    phase: if step is Done {
                        GpiPhase::Idle
                    } else {
                        GpiPhase::LoggingIn { tx: after.tx }
                    },
                    log: after.log,
                })
            }),
    {
        if let GpiPhase::LoggingIn { tx } = self.phase {
            let mut under_way = Login { tx };
            let step = under_way.resume(&mut self.spi, &mut self.log, level);
            self.phase = match step {
                Step::Done(_) => GpiPhase::Idle,
                Step::Next(_) => GpiPhase::LoggingIn { tx: under_way.tx },
            };
            step
        } else {
            Step::Done(())
        }
    }
}

/// What holds of every link: its log has sixteen slots, an exchange under way has read fewer than
/// 32 bits, and one is under way while a word is exchanged and while the link logs in.
pub proof fn law_link_shape(gpi: &Gpi)
    requires
        gpi.wf(),
    ensures
        gpi@.log.rx.len() == 16,
        gpi@.spi.exchange matches Some(e) ==> e.sampled.len() < 32,
        gpi@.phase is Exchanging || gpi@.phase is LoggingIn ==> gpi@.spi.exchange is Some,
{
    crate::comms::login::law_log_size(&gpi.log);
    if gpi@.spi.exchange is Some {
        crate::comms::spi::law_exchange_is_unfinished(&gpi.spi);
    }
}

/// The link after its operations read `levels`, one after the other, and the outcome if the
/// sending of the word ended with one of them. Levels behind the end are left alone.
pub open spec fn send_run(v: GpiView, levels: Seq<bool>) -> (GpiView, Option<SendResult<u32>>)
    decreases levels.len(),
{
    if levels.len() == 0 {
        (v, None)
    } else {
        let (next, step) = send_step(v, levels[0]);
        match step {
            Step::Done(outcome) => (next, Some(outcome)),
            Step::Next(_) => send_run(next, levels.drop_first()),
        }
    }
}

/// The link after it has begun to exchange `data`.
pub open spec fn exchanging(v: GpiView, data: u32) -> GpiView {
    GpiView {
        spi: SpiView {
            exchange: Some(Exchange { data, sampled: Seq::empty(), phase: BitPhase::AwaitLow }),
            ..v.spi
        },
        phase: GpiPhase::Exchanging,
        ..v
    }
}

/// A reset request that is pending when a word is sent is caught by that word: if its sending
/// ends, it ends in a reset.
pub proof fn law_pending_reset_is_caught(v: GpiView, levels: Seq<bool>)
    requires
        v.spi.reset_requested,
        v.phase is ReadyToSend || (v.phase is Exchanging && v.spi.exchange is Some),
    ensures
        send_run(v, levels).1 matches Some(outcome) ==> outcome == SendResult::<u32>::Reset,
    decreases levels.len(),
{
    if levels.len() > 0 {
        let (next, step) = send_step(v, levels[0]);
        if step is Next {
            law_pending_reset_is_caught(next, levels.drop_first());
        }
    }
}

/// Sending a word is exchanging it: the sending is under way as long as the exchange is, and an
/// exchange on which a reset was requested ends it in a reset.
pub proof fn law_send_exchanges_the_word(v: GpiView, data: u32, first: bool, levels: Seq<bool>)
    requires
        v.phase == (GpiPhase::ReadyToSend { data }),
    ensures
        ({
            let (spi, rx) = crate::comms::spi::exchange_run(exchanging(v, data).spi, levels);
            let (after, outcome) = send_run(v, seq![first] + levels);
            &&& rx is None ==> outcome is None && after == (GpiView {
                spi,
                phase: GpiPhase::Exchanging,
                ..v
            })
            &&& rx is Some && spi.reset_requested ==> after == (GpiView {
                spi,
                phase: GpiPhase::Idle,
                ..v
            }) && outcome == Some(SendResult::<u32>::Reset)
        }),
{
    assert((seq![first] + levels).drop_first() =~= levels);
    lemma_exchange_in_send(exchanging(v, data), levels);
}

/// An exchange that ends with the last of `levels`, and no reset requested, is followed by the
/// acknowledgement of the word that it gave.
pub proof fn law_exchanged_word_is_acknowledged(
    v: GpiView,
    data: u32,
    first: bool,
    levels: Seq<bool>,
    later: Seq<bool>,
)
    requires
        v.phase == (GpiPhase::ReadyToSend { data }),
        levels.len() > 0,
        crate::comms::spi::exchange_run(exchanging(v, data).spi, levels).1 is Some,
        crate::comms::spi::exchange_run(exchanging(v, data).spi, levels.drop_last()).1 is None,
        !crate::comms::spi::exchange_run(exchanging(v, data).spi, levels).0.reset_requested,
    ensures
        ({
            let (spi, rx) = crate::comms::spi::exchange_run(exchanging(v, data).spi, levels);
            send_run(v, seq![first] + levels + later) == send_run(
                GpiView { spi, phase: GpiPhase::AckLow { rx: rx->0 }, ..v },
                later,
            )
        }),
{
    let all = levels + later;
    let n = levels.len() as int;
    assert((seq![first] + levels + later).drop_first() =~= all);
    assert(all.take(n) =~= levels);
    assert(all.take(n - 1) =~= levels.drop_last());
    assert(all.skip(n) =~= later);
    lemma_exchange_then_ack(exchanging(v, data), all, n);
}

proof fn lemma_exchange_in_send(v: GpiView, levels: Seq<bool>)
    requires
        v.phase is Exchanging,
        v.spi.exchange is Some,
    ensures
        ({
            let (spi, rx) = crate::comms::spi::exchange_run(v.spi, levels);
            let (after, outcome) = send_run(v, levels);
            &&& rx is None ==> outcome is None && after == (GpiView { spi, ..v })
            &&& rx is Some && spi.reset_requested ==> after == (GpiView {
                spi,
                phase: GpiPhase::Idle,
                ..v
            }) && outcome == Some(SendResult::<u32>::Reset)
        }),
    decreases levels.len(),
{
    if levels.len() > 0 {
        let (spi, step) = crate::comms::spi::bit_step(v.spi, levels[0]);
        if step is Next {
            lemma_exchange_in_send(GpiView { spi, ..v }, levels.drop_first());
        }
    }
}

proof fn lemma_exchange_then_ack(v: GpiView, levels: Seq<bool>, n: int)
    requires
        v.phase is Exchanging,
        v.spi.exchange is Some,
        0 < n <= levels.len(),
        crate::comms::spi::exchange_run(v.spi, levels.take(n)).1 is Some,
        crate::comms::spi::exchange_run(v.spi, levels.take(n - 1)).1 is None,
        !crate::comms::spi::exchange_run(v.spi, levels.take(n)).0.reset_requested,
    ensures
        ({
            let (spi, rx) = crate::comms::spi::exchange_run(v.spi, levels.take(n));
            send_run(v, levels) == send_run(
                GpiView { spi, phase: GpiPhase::AckLow { rx: rx->0 }, ..v },
                levels.skip(n),
            )
        }),
    decreases levels.len(),
{
    let (spi, step) = crate::comms::spi::bit_step(v.spi, levels[0]);
    let rest = levels.drop_first();
    assert(levels.take(n).drop_first() =~= rest.take(n - 1));
    assert(levels.take(n)[0] == levels[0]);
    if step is Next {
        if n == 1 {
            assert(levels.take(1).drop_first() =~= Seq::<bool>::empty());
            assert(crate::comms::spi::exchange_run(spi, Seq::<bool>::empty()).1 is None);
        } else {
            assert(levels.take(n - 1).drop_first() =~= rest.take(n - 2));
            assert(levels.take(n - 1)[0] == levels[0]);
            lemma_exchange_then_ack(GpiView { spi, ..v }, rest, n - 1);
            assert(rest.skip(n - 1) =~= levels.skip(n));
        }
    } else {
        if n > 1 {
            assert(levels.take(n - 1)[0] == levels[0]);
        }
        assert(levels.skip(1) =~= rest);
    }
}

/// Once a word has come in, the data line is pulled low, held for the pause and raised three
/// times; as soon as the console is then found ready, the word is handed over.
pub proof fn law_ready_console_ends_the_word(v: GpiView, rx: u32, ignored: Seq<bool>, lows: nat)
    requires
        v.phase == (GpiPhase::AckLow { rx }),
        ignored.len() == 5,
        lows <= 20_000_000,
    ensures
        send_run(v, ignored + Seq::new(lows, |i: int| true) + seq![false]) == (
            GpiView { phase: GpiPhase::Idle, ..v },
            Some(SendResult::Data(rx)),
        ),
{
    let waits = Seq::new(lows, |i: int| true) + seq![false];
    assert(ignored + Seq::new(lows, |i: int| true) + seq![false] =~= ignored + waits);
    lemma_ack_prelude(v, rx, ignored, waits);
    lemma_waits(GpiView { phase: GpiPhase::AckWait { rx, lows: 0 }, ..v }, rx, 0, lows);
    assert(wait_levels(lows) =~= waits);
}

/// A console that is never found ready does not hold the adapter up: the word is handed over, and
/// a reset request is left for the next one.
pub proof fn law_silent_console_leaves_a_reset(v: GpiView, rx: u32, ignored: Seq<bool>)
    requires
        v.phase == (GpiPhase::AckLow { rx }),
        ignored.len() == 5,
    ensures
        send_run(v, ignored + Seq::new(20_000_001, |i: int| true)) == (
            GpiView {
                spi: SpiView { reset_requested: true, ..v.spi },
                phase: GpiPhase::Idle,
                ..v
            },
            Some(SendResult::Data(rx)),
        ),
{
    let waits = Seq::new(20_000_001, |i: int| true);
    assert(waits =~= Seq::new((ACK_TIMEOUT + 1) as nat, |i: int| true));
    lemma_ack_prelude(v, rx, ignored, waits);
    lemma_timeout(GpiView { phase: GpiPhase::AckWait { rx, lows: 0 }, ..v }, rx, 0);
}

/// `lows` readings that find the console not ready, and one that finds it ready.
spec fn wait_levels(lows: nat) -> Seq<bool> {
    Seq::new(lows + 1, |i: int| i < lows)
}

proof fn lemma_ack_prelude(v: GpiView, rx: u32, ignored: Seq<bool>, waits: Seq<bool>)
    requires
        v.phase == (GpiPhase::AckLow { rx }),
        ignored.len() == 5,
    ensures
        send_run(v, ignored + waits) == send_run(
            GpiView { phase: GpiPhase::AckWait { rx, lows: 0 }, ..v },
            waits,
        ),
{
    let l0 = ignored + waits;
    let l1 = ignored.skip(1) + waits;
    let l2 = ignored.skip(2) + waits;
    let l3 = ignored.skip(3) + waits;
    let l4 = ignored.skip(4) + waits;
    assert(l0.drop_first() =~= l1);
    assert(l1.drop_first() =~= l2);
    assert(l2.drop_first() =~= l3);
    assert(l3.drop_first() =~= l4);
    assert(l4.drop_first() =~= waits);
    let v1 = GpiView { phase: GpiPhase::AckPause { rx }, ..v };
    let v2 = GpiView { phase: GpiPhase::AckHigh { rx, left: 2 }, ..v };
    let v3 = GpiView { phase: GpiPhase::AckHigh { rx, left: 1 }, ..v };
    let v4 = GpiView { phase: GpiPhase::AckHigh { rx, left: 0 }, ..v };
    assert(send_run(v, l0) == send_run(v1, l1));
    assert(send_run(v1, l1) == send_run(v2, l2));
    assert(send_run(v2, l2) == send_run(v3, l3));
    assert(send_run(v3, l3) == send_run(v4, l4));
}

proof fn lemma_waits(v: GpiView, rx: u32, so_far: u32, lows: nat)
    requires
        v.phase == (GpiPhase::AckWait { rx, lows: so_far }),
        so_far + lows <= ACK_TIMEOUT,
    ensures
        send_run(v, wait_levels(lows)) == (
            GpiView { phase: GpiPhase::Idle, ..v },
            Some(SendResult::Data(rx)),
        ),
    decreases lows,
{
    if lows > 0 {
        let next = GpiView { phase: GpiPhase::AckWait { rx, lows: (so_far + 1) as u32 }, ..v };
        lemma_waits(next, rx, (so_far + 1) as u32, (lows - 1) as nat);
        assert(wait_levels(lows).drop_first() =~= wait_levels((lows - 1) as nat));
    }
}

proof fn lemma_timeout(v: GpiView, rx: u32, so_far: u32)
    requires
        v.phase == (GpiPhase::AckWait { rx, lows: so_far }),
        so_far <= ACK_TIMEOUT,
    ensures
        send_run(v, Seq::new((ACK_TIMEOUT + 1 - so_far) as nat, |i: int| true)) == (
            GpiView {
                spi: SpiView { reset_requested: true, ..v.spi },
                phase: GpiPhase::Idle,
                ..v
            },
            Some(SendResult::Data(rx)),
        ),
    decreases ACK_TIMEOUT - so_far,
{
    let levels = Seq::new((ACK_TIMEOUT + 1 - so_far) as nat, |i: int| true);
    if so_far < ACK_TIMEOUT {
        let next = GpiView { phase: GpiPhase::AckWait { rx, lows: (so_far + 1) as u32 }, ..v };
        lemma_timeout(next, rx, (so_far + 1) as u32);
        assert(levels.drop_first() =~= Seq::new((ACK_TIMEOUT - so_far) as nat, |i: int| true));
    }
}

/// The operations that are done on the way through `levels` while a word is sent, `pending` being
/// the one that was named last.
pub open spec fn send_ops(v: GpiView, pending: LinkAction, levels: Seq<bool>) -> Seq<Op>
    decreases levels.len(),
{
    if levels.len() == 0 {
        Seq::empty()
    } else {
        let (next, step) = send_step(v, levels[0]);
        let here = seq![Op { action: pending, level: levels[0] }];
        match step {
            Step::Done(_) => here,
            Step::Next(action) => here + send_ops(next, action, levels.drop_first()),
        }
    }
}

/// The operation that is named after `levels`, or none if the sending of the word is over by then.
pub open spec fn send_next(v: GpiView, pending: LinkAction, levels: Seq<bool>) -> Option<LinkAction>
    decreases levels.len(),
{
    if levels.len() == 0 {
        Some(pending)
    } else {
        let (next, step) = send_step(v, levels[0]);
        match step {
            Step::Done(_) => None,
            Step::Next(action) => send_next(next, action, levels.drop_first()),
        }
    }
}

/// Operation `i` of an acknowledgement: the data line is pulled low, held for the pause and raised
/// three times, and then the console is asked whether it is ready, as often as it takes.
pub open spec fn ack_action(i: int) -> LinkAction {
    if i == 0 {
        LinkAction::DriveTx(false)
    } else if i == 1 {
        LinkAction::Delay(100)
    } else if i < 5 {
        LinkAction::DriveTx(true)
    } else {
        LinkAction::RxIsLow
    }
}

/// How far an acknowledgement has come.
spec fn ack_position(phase: GpiPhase) -> int {
    match phase {
        GpiPhase::AckLow { .. } => 0,
        GpiPhase::AckPause { .. } => 1,
        GpiPhase::AckHigh { left, .. } => 4 - left,
        _ => 5,
    }
}

/// Whether a word that has come in is being acknowledged.
spec fn acknowledging(phase: GpiPhase, rx: u32) -> bool {
    match phase {
        GpiPhase::AckLow { rx: w } => w == rx,
        GpiPhase::AckPause { rx: w } => w == rx,
        GpiPhase::AckHigh { rx: w, left } => w == rx && left <= 2,
        GpiPhase::AckWait { rx: w, .. } => w == rx,
        _ => false,
    }
}

proof fn lemma_ack_ops(v: GpiView, rx: u32, pending: LinkAction, levels: Seq<bool>)
    requires
        acknowledging(v.phase, rx),
        pending == ack_action(ack_position(v.phase)),
    ensures
        ({
            let ops = send_ops(v, pending, levels);
            let next = send_next(v, pending, levels);
            let (after, outcome) = send_run(v, levels);
            let at = ack_position(v.phase);
            &&& forall|i: int|
                0 <= i < ops.len() ==> (#[trigger] ops[i]).action == ack_action(at + i)
            &&& next matches Some(action) ==> action == ack_action(at + ops.len())
            &&& next is None <==> outcome is Some
            &&& next is Some ==> ops.len() == levels.len()
            &&& outcome matches Some(o) ==> o == SendResult::Data(rx) && at + ops.len() >= 6
        }),
    decreases levels.len(),
{
    if levels.len() > 0 {
        let (next, step) = send_step(v, levels[0]);
        let ops = send_ops(v, pending, levels);
        let op = Op { action: pending, level: levels[0] };
        if let Step::Next(action) = step {
            let rest = levels.drop_first();
            let later = send_ops(next, action, rest);
            lemma_ack_ops(next, rx, action, rest);
            assert(ops =~= seq![op] + later);
            let at = ack_position(v.phase);
            assert forall|i: int| 0 <= i < ops.len() implies (#[trigger] ops[i]).action
                == ack_action(at + i) by {
                if i > 0 {
                    assert(ops[i] == later[i - 1]);
                }
            }
        }
    }
}

/// The acknowledgement of a word, whatever is read on the way, does these operations, one after the
/// other: drive low, pause for 100 cycles, drive high three times, and then only look whether the
/// incoming line is low. It cannot end in anything but the word that came in.
pub proof fn law_acknowledgement_order(v: GpiView, rx: u32, levels: Seq<bool>)
    requires
        v.phase == (GpiPhase::AckLow { rx }),
    ensures
        ({
            let ops = send_ops(v, LinkAction::DriveTx(false), levels);
            let next = send_next(v, LinkAction::DriveTx(false), levels);
            let outcome = send_run(v, levels).1;
            let steps = seq![
                LinkAction::DriveTx(false),
                LinkAction::Delay(100),
                LinkAction::DriveTx(true),
                LinkAction::DriveTx(true),
                LinkAction::DriveTx(true),
            ];
            &&& forall|i: int|
                0 <= i < ops.len() ==> (#[trigger] ops[i]).action == if i < 5 {
                    steps[i]
                } else {
                    LinkAction::RxIsLow
                }
            &&& next matches Some(action) ==> action == if ops.len() < 5 {
                steps[ops.len() as int]
            } else {
                LinkAction::RxIsLow
            }
            &&& next is None <==> outcome is Some
            &&& outcome matches Some(o) ==> o == SendResult::Data(rx)
        }),
{
    lemma_ack_ops(v, rx, LinkAction::DriveTx(false), levels);
}

#[verifier::rlimit(40)]
proof fn lemma_send_ops(v: GpiView, pending: LinkAction, levels: Seq<bool>)
    requires
        v.phase is Exchanging,
        v.spi.exchange is Some,
    ensures
        ({
            let ops = crate::comms::spi::exchange_ops(v.spi, pending, levels);
            let next = crate::comms::spi::exchange_next(v.spi, pending, levels);
            let (spi, rx) = crate::comms::spi::exchange_run(v.spi, levels);
            let acked = GpiView { spi, phase: GpiPhase::AckLow { rx: rx->0 }, ..v };
            let n = ops.len() as int;
            let low = LinkAction::DriveTx(false);
            &&& n <= levels.len()
            &&& rx is Some <==> next is None
            &&& rx is None ==> {
                &&& send_ops(v, pending, levels) == ops
                &&& send_next(v, pending, levels) == next
                &&& send_run(v, levels).1 is None
            }
            &&& rx is Some && spi.reset_requested ==> {
                &&& send_ops(v, pending, levels) == ops
                &&& send_next(v, pending, levels) is None
                &&& send_run(v, levels) == (
                    GpiView { spi, phase: GpiPhase::Idle, ..v },
                    Some(SendResult::<u32>::Reset),
                )
            }
            &&& rx is Some && !spi.reset_requested ==> {
                &&& send_ops(v, pending, levels) == ops + send_ops(acked, low, levels.skip(n))
                &&& send_next(v, pending, levels) == send_next(acked, low, levels.skip(n))
                &&& send_run(v, levels) == send_run(acked, levels.skip(n))
            }
        }),
    decreases levels.len(),
{
    if levels.len() > 0 {
        let (spi, step) = crate::comms::spi::bit_step(v.spi, levels[0]);
        let rest = levels.drop_first();
        let ops = crate::comms::spi::exchange_ops(v.spi, pending, levels);
        let op = Op { action: pending, level: levels[0] };
        assert(levels.skip(1) =~= rest);
        match step {
            Step::Next(action) => {
                let next = GpiView { spi, ..v };
                lemma_send_ops(next, action, rest);
                let later = crate::comms::spi::exchange_ops(spi, action, rest);
                assert(ops =~= seq![op] + later);
                assert(rest.skip(later.len() as int) =~= levels.skip(ops.len() as int));
                assert(send_ops(v, pending, levels) =~= seq![op] + send_ops(next, action, rest));
                let (done, rx) = crate::comms::spi::exchange_run(v.spi, levels);
                if rx is Some && !done.reset_requested {
                    let acked = GpiView { spi: done, phase: GpiPhase::AckLow { rx: rx->0 }, ..v };
                    let tail = send_ops(
                        acked,
                        LinkAction::DriveTx(false),
                        levels.skip(ops.len() as int),
                    );
                    assert(seq![op] + (later + tail) =~= ops + tail);
                }
            },
            Step::Done(_) => {
                assert(ops =~= seq![op]);
            },
        }
    }
}

/// Sending a word does exactly these operations: it drives the line low, then does those of the
/// exchange, as the engine names them, and then, unless a reset was requested by the end of the
/// exchange, those of the acknowledgement.
pub proof fn law_send_does_what_the_engine_names(
    v: GpiView,
    data: u32,
    first: bool,
    levels: Seq<bool>,
)
    requires
        v.phase == (GpiPhase::ReadyToSend { data }),
    ensures
        ({
            let low = LinkAction::DriveTx(false);
            let clk = LinkAction::ClkIsHigh;
            let begun = SpiView {
                exchange: Some(Exchange { data, sampled: Seq::empty(), phase: BitPhase::AwaitLow }),
                ..v.spi
            };
            let ops = crate::comms::spi::exchange_ops(begun, clk, levels);
            let (spi, rx) = crate::comms::spi::exchange_run(begun, levels);
            let acked = GpiView { spi, phase: GpiPhase::AckLow { rx: rx->0 }, ..v };
            let all = send_ops(v, low, seq![first] + levels);
            let next = send_next(v, low, seq![first] + levels);
            let head = seq![Op { action: low, level: first }];
            let later = levels.skip(ops.len() as int);
            &&& rx is None ==> all == head + ops && next == crate::comms::spi::exchange_next(
                begun,
                clk,
                levels,
            )
            &&& rx is Some && spi.reset_requested ==> all == head + ops && next is None
            &&& rx is Some && !spi.reset_requested ==> all == head + ops + send_ops(
                acked,
                low,
                later,
            ) && next == send_next(acked, low, later)
        }),
{
    let low = LinkAction::DriveTx(false);
    let clk = LinkAction::ClkIsHigh;
    let begun = exchanging(v, data);
    let levels1 = seq![first] + levels;
    assert(levels1.drop_first() =~= levels);
    lemma_send_ops(begun, clk, levels);
    let head = seq![Op { action: low, level: first }];
    assert(send_ops(v, low, levels1) == head + send_ops(begun, clk, levels));
    let ops = crate::comms::spi::exchange_ops(begun.spi, clk, levels);
    let (spi, rx) = crate::comms::spi::exchange_run(begun.spi, levels);
    if rx is Some && !spi.reset_requested {
        let acked = GpiView { spi, phase: GpiPhase::AckLow { rx: rx->0 }, ..v };
        let tail = send_ops(acked, low, levels.skip(ops.len() as int));
        assert(head + (ops + tail) =~= head + ops + tail);
    }
}

/// Every sending of a word, seen from the pins alone. After the line is driven low, the next `n`
/// operations are an exchange: they come in order from the first look at the clock, the levels that
/// they drive are leading bits of `data`, and they end when 32 levels were read; then all bits of
/// `data` have been driven, most significant first. If a reset was pending or the reset line was
/// found high on the way, that ends the sending in a reset. Otherwise the acknowledgement follows,
/// and the outcome, if there is one yet, is the word that the levels read spell.
pub proof fn law_sent_bits_are_the_word(v: GpiView, data: u32, levels: Seq<bool>)
    requires
        v.phase == (GpiPhase::ReadyToSend { data }),
        levels.len() > 0,
    ensures
        ({
            let ops = send_ops(v, LinkAction::DriveTx(false), levels);
            let next = send_next(v, LinkAction::DriveTx(false), levels);
            let (after, outcome) = send_run(v, levels);
            exists|n: int| #[trigger]
                sends_in_order(v.spi.reset_requested, data, ops, next, outcome, n)
        }),
{
    let low = LinkAction::DriveTx(false);
    let clk = LinkAction::ClkIsHigh;
    let first = levels[0];
    let rest = levels.drop_first();
    let begun = exchanging(v, data);
    let exchange = crate::comms::spi::exchange_ops(begun.spi, clk, rest);
    let ops = send_ops(v, low, levels);
    let next = send_next(v, low, levels);
    let (after, outcome) = send_run(v, levels);
    let n = exchange.len() as int;
    assert(levels =~= seq![first] + rest);
    law_send_does_what_the_engine_names(v, data, first, rest);
    crate::comms::spi::law_exchange_goes_by_the_clock(begun.spi, data, rest);
    lemma_send_ops(begun, clk, rest);
    let (spi, rx) = crate::comms::spi::exchange_run(begun.spi, rest);
    let head = seq![Op { action: low, level: first }];
    assert(ops.subrange(1, n + 1) =~= exchange);
    if rx is Some && !spi.reset_requested {
        let acked = GpiView { spi, phase: GpiPhase::AckLow { rx: rx->0 }, ..v };
        let later = rest.skip(n);
        let tail = send_ops(acked, low, later);
        lemma_ack_ops(acked, rx->0, low, later);
        assert(ops =~= head + exchange + tail);
        assert forall|i: int| n + 1 <= i < ops.len() implies (#[trigger] ops[i]).action
            == ack_action(i - n - 1) by {
            assert(ops[i] == tail[i - n - 1]);
        }
    }
    assert(sends_in_order(v.spi.reset_requested, data, ops, next, outcome, n));
}

/// What `law_sent_bits_are_the_word` says of the operations `ops`, the operation `next` that is
/// named after them and the outcome, with `n` operations in the exchange.
pub open spec fn sends_in_order(
    pending_reset: bool,
    data: u32,
    ops: Seq<Op>,
    next: Option<LinkAction>,
    outcome: Option<SendResult<u32>>,
    n: int,
) -> bool {
    let exchange = ops.subrange(1, n + 1);
    let read = crate::comms::spi::levels_read(exchange);
    let driven = crate::comms::spi::levels_driven(exchange);
    let reset = pending_reset || crate::comms::spi::reset_found(exchange);
    &&& 0 <= n < ops.len()
    &&& ops[0].action == LinkAction::DriveTx(false)
    &&& n > 0 ==> exchange[0].action is ClkIsHigh
    &&& crate::comms::spi::in_order(exchange)
    &&& driven.is_prefix_of(crate::comms::spi::bits_of(data))
    &&& read.len() < 32 ==> {
        &&& ops.len() == n + 1
        &&& outcome is None
        &&& n == 0 ==> next == Some(LinkAction::ClkIsHigh)
        &&& n > 0 ==> next is Some && crate::comms::spi::follows(exchange.last(), next->0)
        &&& next matches Some(LinkAction::DriveTx(bit)) ==> bit == crate::comms::spi::bits_of(
            data,
        )[driven.len() as int]
    }
    &&& read.len() >= 32 ==> {
        &&& read.len() == 32
        &&& exchange.last().action is RxIsHigh
        &&& driven == crate::comms::spi::bits_of(data)
        &&& reset ==> ops.len() == n + 1 && next is None && outcome == Some(
            SendResult::<u32>::Reset,
        )
        &&& !reset ==> {
            &&& forall|i: int|
                n + 1 <= i < ops.len() ==> (#[trigger] ops[i]).action == ack_action(i - n - 1)
            &&& next matches Some(action) ==> action == ack_action(ops.len() - n - 1)
            &&& next is None <==> outcome is Some
            &&& outcome matches Some(o) ==> o == SendResult::Data(
                crate::comms::spi::word_of(read) as u32,
            )
        }
    }
}

/// Sending a word leaves the login log alone.
pub proof fn law_send_leaves_the_log_alone(v: GpiView, levels: Seq<bool>)
    requires
        v.sending(),
    ensures
        send_run(v, levels).0.log == v.log,
    decreases levels.len(),
{
    if levels.len() > 0 {
        let (next, step) = send_step(v, levels[0]);
        if step is Next {
            law_send_leaves_the_log_alone(next, levels.drop_first());
        }
    }
}

} // verus!
