//! The login handshake, by which the console finds an adapter on its link.
use crate::comms::spi::{LinkAction, Spi, Step};
#[allow(unused_imports)]
use crate::comms::spi::{BitPhase, Exchange, Op, SpiView};
use vstd::prelude::*;

verus! {

/// The first word that the adapter sends.
pub const INITIAL_LOGIN_TX: u32 = 0x00;

/// The word with which the console ends the handshake.
pub const LOGIN_END: u32 = 0xB0BB8001;

/// The answer to `rx`, or none where `rx` ends the handshake. The answer to a word outside the
/// handshake is the complement of its upper half, in a field of ones.
pub open spec fn login_answer(rx: u32) -> Option<u32> {
    if rx == 0x0000494E || rx == 0xFFFF494E || rx == 0x7FFF494E {
        Some(0x494EB6B1)
    } else if rx == 0xB6B1494E {
        Some(0x544EB6B1)
    } else if rx == 0xB6B1544E {
        Some(0x544EABB1)
    } else if rx == 0xABB1544E {
        Some(0x4E45ABB1)
    } else if rx == 0xABB14E45 {
        Some(0x4E45B1BA)
    } else if rx == 0xB1BA4E45 {
        Some(0x4F44B1BA)
    } else if rx == 0xB1BA4F44 {
        Some(0x4F44B0BB)
    } else if rx == 0xB0BB4F44 {
        Some(0x8001B0BB)
    } else if rx == LOGIN_END {
        None
    } else {
        Some((0xFFFF_FFFF - rx / 0x1_0000) as u32)
    }
}

/// The answer to `rx`, or none where `rx` ends the handshake.
pub fn login_reply(rx: u32) -> (tx: Option<u32>)
    ensures
        tx == login_answer(rx),
        tx is None <==> rx == LOGIN_END,
{
    match rx {
        0x0000494E => Some(0x494EB6B1),
        0xFFFF494E => Some(0x494EB6B1),
        0x7FFF494E => Some(0x494EB6B1),
        0xB6B1494E => Some(0x544EB6B1),
        0xB6B1544E => Some(0x544EABB1),
        0xABB1544E => Some(0x4E45ABB1),
        0xABB14E45 => Some(0x4E45B1BA),
        0xB1BA4E45 => Some(0x4F44B1BA),
        0xB1BA4F44 => Some(0x4F44B0BB),
        0xB0BB4F44 => Some(0x8001B0BB),
        0xB0BB8001 => None,
        _ => {
            assert(0x494e0000u32 | !(rx >> 16u32) == 0xFFFF_FFFFu32 - rx / 0x1_0000u32)
                by (bit_vector);
            Some(0x494e0000 | !(rx >> 16))
        },
    }
}

/// How many words the log keeps.
pub const LOG_SLOTS: usize = 16;

/// The first word of a log report.
pub const LOG_MAGIC: u32 = 0x1061_1061;

/// The log: its slots, and how many words were ever noted, modulo 2^32.
#[verifier::ext_equal]
pub struct LogView {
    pub rx: Seq<u32>,
    pub n: u32,
}

/// The log after `rx` was noted in the slot that is due.
pub open spec fn log_step(v: LogView, rx: u32) -> LogView {
    LogView { rx: v.rx.update(v.n as int % 16, rx), n: v.n.wrapping_add(1) }
}

/// The report on a log: magic, count, and the first eight slots.
pub open spec fn log_report(v: LogView) -> Seq<u32> {
    seq![LOG_MAGIC, v.n] + v.rx.take(8)
}

/// Notes the words that the console sends during the handshake.
pub struct LoginLog {
    rx: [u32; 16],
    n: u32,
}

impl View for LoginLog {
    type V = LogView;

    closed spec fn view(&self) -> LogView {
        LogView { rx: self.rx@, n: self.n }
    }
}

impl LoginLog {
    /// An empty log.
    pub fn new() -> (r: Self)
        ensures
            r@ == empty_log(),
    {
        let r = LoginLog { rx: [0;16], n: 0 };
        assert(r@ =~= empty_log());
        r
    }

    /// Notes `rx`.
    pub fn record(&mut self, rx: u32)
        ensures
            final(self)@ == log_step(old(self)@, rx),
    {
        let i: usize = self.n as usize % 16;
        self.rx[i] = rx;
        self.n = self.n.wrapping_add(1);
    }

    /// The words to report.
    pub fn report(&self) -> (words: [u32; 10])
        ensures
            words@ == log_report(self@),
            words@[0] == 0x1061_1061,
            words@[1] == self@.n,
            forall|k: int| 0 <= k < 8 ==> #[trigger] words@[2 + k] == self@.rx[k],
    {
        let mut words: [u32; 10] = [0;10];
        words[0] = LOG_MAGIC;
        words[1] = self.n;
        for k in 0..8usize
            invariant
                words@[0] == LOG_MAGIC,
                words@[1] == self.n,
                forall|j: int| 0 <= j < k ==> words@[2 + j] == self.rx@[j],
        {
            words[2 + k] = self.rx[k];
        }
        assert(words@ =~= log_report(self@));
        words
    }
}

/// Every log has sixteen slots.
pub proof fn law_log_size(log: &LoginLog)
    ensures
        log@.rx.len() == 16,
{
}

/// The log that has noted nothing.
pub open spec fn empty_log() -> LogView {
    LogView { rx: Seq::new(16, |i: int| 0u32), n: 0 }
}

/// The log after all of `words` were noted.
pub open spec fn log_run(v: LogView, words: Seq<u32>) -> LogView
    decreases words.len(),
{
    if words.len() == 0 {
        v
    } else {
        log_step(log_run(v, words.drop_last()), words.last())
    }
}

/// The slot in which the word is noted that comes `k` words after the next one.
#[verifier::opaque]
pub open spec fn slot_of(v: LogView, k: int) -> int {
    (v.n + k) % 16
}

/// Words fewer than sixteen apart are noted in different slots.
proof fn lemma_slots_differ(v: LogView, j: int, k: int)
    requires
        0 <= j < k < j + 16,
    ensures
        slot_of(v, j) != slot_of(v, k),
{
    reveal(slot_of);
}

/// The slot that is due after `n` words.
proof fn lemma_slot_due(v: LogView, n: int)
    requires
        0 <= n,
    ensures
        ((v.n + n) % 0x1_0000_0000) % 16 == slot_of(v, n),
        0 <= slot_of(v, n) < 16,
{
    reveal(slot_of);
}

/// From any log on, noting words counts them, modulo 2^32, and keeps the last sixteen of them,
/// each in the slot that its number gives modulo sixteen. Fewer words leave the slots that are not
/// yet due as they were.
pub proof fn law_log_keeps_the_latest(v: LogView, words: Seq<u32>)
    requires
        v.rx.len() == 16,
    ensures
        log_run(v, words).n == (v.n + words.len()) % 0x1_0000_0000,
        log_run(v, words).rx.len() == 16,
        forall|j: int|
            0 <= j < words.len() && words.len() - 16 <= j ==> log_run(v, words).rx[slot_of(v, j)]
                == #[trigger] words[j],
        forall|k: int|
            words.len() <= k < 16 ==> log_run(v, words).rx[#[trigger] slot_of(v, k)] == v.rx[slot_of(
                v,
                k,
            )],
    decreases words.len(),
{
    if words.len() > 0 {
        let before = words.drop_last();
        law_log_keeps_the_latest(v, before);
        let n = before.len() as int;
        let mid = log_run(v, before);
        let after = log_run(v, words);
        lemma_slot_due(v, n);
        assert(after.rx == mid.rx.update(slot_of(v, n), words.last()));
        assert forall|j: int| 0 <= j < words.len() && words.len() - 16 <= j implies after.rx[slot_of(
            v,
            j,
        )] == #[trigger] words[j] by {
            lemma_slot_due(v, j);
            if j < n {
                assert(before[j] == words[j]);
                lemma_slots_differ(v, j, n);
            }
        }
        assert forall|k: int| words.len() <= k < 16 implies after.rx[#[trigger] slot_of(v, k)]
            == v.rx[slot_of(v, k)] by {
            lemma_slot_due(v, k);
            lemma_slots_differ(v, n, k);
        }
    }
}

/// The engine that begins an attempt to exchange `tx`, with no reset requested.
pub open spec fn attempt(v: SpiView, tx: u32) -> SpiView {
    SpiView {
        reset_requested: false,
        exchange: Some(Exchange { data: tx, sampled: Seq::empty(), phase: BitPhase::AwaitLow }),
        ..v
    }
}

/// A handshake that is under way: the word that goes out, the engine and the log.
#[verifier::ext_equal]
pub struct LoginView {
    pub tx: u32,
    pub spi: SpiView,
    pub log: LogView,
}

/// The handshake after the engine's last operation read `level`, and how it goes on. An exchange
/// on which a reset was requested counts for nothing and is tried again with the same word.
pub open spec fn login_step(v: LoginView, level: bool) -> (LoginView, Step<()>) {
    let (spi, step) = crate::comms::spi::bit_step(v.spi, level);
    match step {
        Step::Next(action) => (LoginView { spi, ..v }, Step::Next(action)),
        Step::Done(rx) => if spi.reset_requested {
            (LoginView { spi: attempt(spi, v.tx), ..v }, Step::Next(LinkAction::ClkIsHigh))
        } else {
            let log = log_step(v.log, rx);
            match login_answer(rx) {
                Some(tx) => (
                    LoginView { tx, spi: attempt(spi, tx), log },
                    Step::Next(LinkAction::ClkIsHigh),
                ),
                None => (LoginView { tx: v.tx, spi, log }, Step::Done(())),
            }
        },
    }
}

/// The word that a handshake has out.
pub struct Login {
    pub tx: u32,
}

fn begin(spi: &mut Spi, tx: u32) -> (first: LinkAction)
    requires
        old(spi).wf(),
    ensures
        final(spi).wf(),
        final(spi)@ == attempt(old(spi)@, tx),
        first == LinkAction::ClkIsHigh,
{
    spi.reset();
    spi.transfer_u32(tx)
}

/// Begins the handshake, and names the first operation.
pub fn login(spi: &mut Spi) -> (begun: (Login, LinkAction))
    requires
        old(spi).wf(),
    ensures
        final(spi).wf(),
        final(spi)@ == attempt(old(spi)@, INITIAL_LOGIN_TX),
        begun.0.tx == INITIAL_LOGIN_TX,
        begun.1 == LinkAction::ClkIsHigh,
{
    let first = begin(spi, INITIAL_LOGIN_TX);
    (Login { tx: INITIAL_LOGIN_TX }, first)
}

impl Login {
    /// Goes on with the handshake, after the last operation read `level`.
    pub fn resume(&mut self, spi: &mut Spi, log: &mut LoginLog, level: bool) -> (step: Step<()>)
        requires
            old(spi).wf(),
            old(spi)@.exchange is Some,
        ensures
            final(spi).wf(),
            (LoginView { tx: final(self).tx, spi: final(spi)@, log: final(log)@ }, step)
                == login_step(
                LoginView { tx: old(self).tx, spi: old(spi)@, log: old(log)@ },
                level,
            ),
            step is Done <==> final(spi)@.exchange is None,
    {
        match spi.transfer_bit(level) {
            Step::Next(action) => Step::Next(action),
            Step::Done(rx) => {
                if spi.reset_requested() {
                    return Step::Next(begin(spi, self.tx));
                }
                log.record(rx);
                match login_reply(rx) {
                    Some(tx) => {
                        self.tx = tx;
                        Step::Next(begin(spi, tx))
                    },
                    None => Step::Done(()),
                }
            },
        }
    }
}

/// The handshake after the engine's operations read `levels`, one after the other, and whether it
/// ended with one of them. Levels behind the end are left alone.
pub open spec fn login_run(v: LoginView, levels: Seq<bool>) -> (LoginView, bool)
    decreases levels.len(),
{
    if levels.len() == 0 {
        (v, false)
    } else {
        let (next, step) = login_step(v, levels[0]);
        match step {
            Step::Done(_) => (next, true),
            Step::Next(_) => login_run(next, levels.drop_first()),
        }
    }
}

/// The words that came in on the way through `levels`, without those that a reset request spoilt.
pub open spec fn login_words(v: LoginView, levels: Seq<bool>) -> Seq<u32>
    decreases levels.len(),
{
    if levels.len() == 0 {
        Seq::empty()
    } else {
        let (next, step) = login_step(v, levels[0]);
        let (spi, exchanged) = crate::comms::spi::bit_step(v.spi, levels[0]);
        let here = match exchanged {
            Step::Done(rx) => if spi.reset_requested {
                Seq::empty()
            } else {
                seq![rx]
            },
            Step::Next(_) => Seq::empty(),
        };
        match step {
            Step::Done(_) => here,
            Step::Next(_) => here + login_words(next, levels.drop_first()),
        }
    }
}

/// Whatever comes in, the handshake goes by its table: the word that is out is the answer to the
/// last word that came in, the log has noted every word, and the handshake is over exactly when
/// the word that ends it has come in.
pub proof fn law_login_goes_by_the_table(v: LoginView, levels: Seq<bool>)
    requires
        v.spi.exchange is Some,
    ensures
        ({
            let (after, ended) = login_run(v, levels);
            let words = login_words(v, levels);
            &&& after.log == log_run(v.log, words)
            &&& words.len() == 0 ==> after.tx == v.tx
            &&& words.len() > 0 && !ended ==> login_answer(words.last()) == Some(after.tx)
            &&& ended <==> words.len() > 0 && words.last() == 0xB0BB8001
            &&& forall|i: int| 0 <= i < words.len() - 1 ==> #[trigger] words[i] != 0xB0BB8001
        }),
    decreases levels.len(),
{
    if levels.len() > 0 {
        let (next, step) = login_step(v, levels[0]);
        let rest = levels.drop_first();
        let words = login_words(v, levels);
        if step is Next {
            law_login_goes_by_the_table(next, rest);
            let later = login_words(next, rest);
            if next.log == v.log && words.len() == later.len() {
                assert(words =~= later);
            } else {
                assert(words =~= seq![words[0]] + later);
                lemma_log_front(v.log, words[0], later);
            }
        } else {
            assert(words.drop_last() =~= Seq::<u32>::empty());
            assert(log_run(v.log, words.drop_last()) == v.log);
        }
    }
}

/// Noting a word and then others is noting them all.
proof fn lemma_log_front(v: LogView, first: u32, later: Seq<u32>)
    ensures
        log_run(v, seq![first] + later) == log_run(log_step(v, first), later),
    decreases later.len(),
{
    let all = seq![first] + later;
    if later.len() == 0 {
        assert(all.drop_last() =~= Seq::<u32>::empty());
        assert(log_run(v, all.drop_last()) == v);
    } else {
        assert(all.drop_last() =~= seq![first] + later.drop_last());
        lemma_log_front(v, first, later.drop_last());
    }
}

/// A handshake leaves no reset request and no exchange behind.
pub proof fn law_login_ends_clean(v: LoginView, levels: Seq<bool>)
    requires
        v.spi.exchange is Some,
        login_run(v, levels).1,
    ensures
        !login_run(v, levels).0.spi.reset_requested,
        login_run(v, levels).0.spi.exchange is None,
    decreases levels.len(),
{
    if levels.len() > 0 {
        let (next, step) = login_step(v, levels[0]);
        if step is Next {
            law_login_ends_clean(next, levels.drop_first());
        }
    }
}

/// An exchange that a reset request spoils leaves no trace in the log, and the same word goes out
/// again with the request forgotten.
pub proof fn law_spoilt_exchange_is_retried(v: LoginView, level: bool)
    requires
        v.spi.exchange is Some,
        crate::comms::spi::bit_step(v.spi, level).1 is Done,
        v.spi.reset_requested,
    ensures
        login_step(v, level).0.log == v.log,
        login_step(v, level).0.tx == v.tx,
        login_step(v, level).0.spi.exchange == Some(
            Exchange { data: v.tx, sampled: Seq::empty(), phase: BitPhase::AwaitLow },
        ),
        !login_step(v, level).0.spi.reset_requested,
        login_step(v, level).1 == Step::<()>::Next(LinkAction::ClkIsHigh),
{
}

/// The words of the handshake, and the one that ends it.
pub open spec fn in_the_table(rx: u32) -> bool {
    ||| rx == 0x0000494E
    ||| rx == 0xFFFF494E
    ||| rx == 0x7FFF494E
    ||| rx == 0xB6B1494E
    ||| rx == 0xB6B1544E
    ||| rx == 0xABB1544E
    ||| rx == 0xABB14E45
    ||| rx == 0xB1BA4E45
    ||| rx == 0xB1BA4F44
    ||| rx == 0xB0BB4F44
    ||| rx == 0xB0BB8001
}

/// Every word has an answer but the one that ends the handshake. Outside the table the upper half
/// of the answer is ones, and the lower half is the complement of the upper half that came in. In
/// it, the lower half of the answer is the complement of the lower half that came in; the upper
/// half is that lower half itself, until the console has sent its complement back.
pub proof fn law_answers_complement_what_came_in(rx: u32)
    ensures
        login_answer(rx) is None <==> rx == 0xB0BB8001,
        login_answer(rx) matches Some(tx) ==> {
            let (high, low) = (rx / 0x1_0000, rx % 0x1_0000);
            &&& !in_the_table(rx) ==> tx / 0x1_0000 == 0xFFFF && tx % 0x1_0000 + high == 0xFFFF
            &&& in_the_table(rx) ==> tx % 0x1_0000 + low == 0xFFFF
            &&& in_the_table(rx) && high + low != 0xFFFF ==> tx / 0x1_0000 == low
            &&& in_the_table(rx) && high + low == 0xFFFF ==> tx / 0x1_0000 == (if low == 0x494E {
                0x544Eu32
            } else if low == 0x544E {
                0x4E45u32
            } else if low == 0x4E45 {
                0x4F44u32
            } else {
                0x8001u32
            })
        },
{
}

/// A word is noted in the slot that the count gives modulo sixteen, the other slots stay as they
/// are, and the count goes up by one, modulo 2^32.
pub proof fn law_words_go_round_the_slots(v: LogView, rx: u32, slot: int)
    requires
        v.rx.len() == 16,
        0 <= slot < 16,
    ensures
        log_step(v, rx).rx.len() == 16,
        log_step(v, rx).rx[slot] == (if v.n % 16 == slot {
            rx
        } else {
            v.rx[slot]
        }),
        log_step(v, rx).n == (v.n + 1) % 0x1_0000_0000,
        empty_log().rx[slot] == 0,
        empty_log().n == 0,
{
}

/// The report on a log is its magic word, the count of words noted, and the first eight slots.
pub proof fn law_report_shows_the_first_slots(v: LogView)
    requires
        v.rx.len() == 16,
    ensures
        log_report(v).len() == 10,
        log_report(v)[0] == 0x1061_1061,
        log_report(v)[1] == v.n,
        log_report(v).skip(2) == v.rx.take(8),
{
    assert(log_report(v).skip(2) =~= v.rx.take(8));
}

/// The operations that are done on the way through `levels` during the handshake, `pending` being
/// the one that was named last.
pub open spec fn login_ops(v: LoginView, pending: LinkAction, levels: Seq<bool>) -> Seq<Op>
    decreases levels.len(),
{
    if levels.len() == 0 {
        Seq::empty()
    } else {
        let (next, step) = login_step(v, levels[0]);
        let here = seq![Op { action: pending, level: levels[0] }];
        match step {
            Step::Done(_) => here,
            Step::Next(action) => here + login_ops(next, action, levels.drop_first()),
        }
    }
}

/// The operation that is named after `levels`, or none if the handshake is over by then.
pub open spec fn login_next(
    v: LoginView,
    pending: LinkAction,
    levels: Seq<bool>,
) -> Option<LinkAction>
    decreases levels.len(),
{
    if levels.len() == 0 {
        Some(pending)
    } else {
        let (next, step) = login_step(v, levels[0]);
        match step {
            Step::Done(_) => None,
            Step::Next(action) => login_next(next, action, levels.drop_first()),
        }
    }
}

#[verifier::rlimit(40)]
proof fn lemma_login_ops(v: LoginView, pending: LinkAction, levels: Seq<bool>)
    requires
        v.spi.exchange is Some,
    ensures
        ({
            let ops = crate::comms::spi::exchange_ops(v.spi, pending, levels);
            let (spi, exchanged) = crate::comms::spi::exchange_run(v.spi, levels);
            let n = ops.len() as int;
            let later = levels.skip(n);
            let clk = LinkAction::ClkIsHigh;
            let again = LoginView { spi: attempt(spi, v.tx), ..v };
            &&& n <= levels.len()
            &&& exchanged is None ==> {
                &&& login_ops(v, pending, levels) == ops
                &&& login_next(v, pending, levels) == crate::comms::spi::exchange_next(
                    v.spi,
                    pending,
                    levels,
                )
                &&& login_run(v, levels) == (LoginView { spi, ..v }, false)
            }
            &&& exchanged is Some && spi.reset_requested ==> {
                &&& login_ops(v, pending, levels) == ops + login_ops(again, clk, later)
                &&& login_next(v, pending, levels) == login_next(again, clk, later)
                &&& login_run(v, levels) == login_run(again, later)
            }
            &&& exchanged matches Some(rx) ==> !spi.reset_requested ==> {
                let log = log_step(v.log, rx);
                match login_answer(rx) {
                    Some(tx) => {
                        let on = LoginView { tx, spi: attempt(spi, tx), log };
                        &&& login_ops(v, pending, levels) == ops + login_ops(on, clk, later)
                        &&& login_next(v, pending, levels) == login_next(on, clk, later)
                        &&& login_run(v, levels) == login_run(on, later)
                    },
                    None => {
                        &&& login_ops(v, pending, levels) == ops
                        &&& login_next(v, pending, levels) is None
                        &&& login_run(v, levels) == (LoginView { tx: v.tx, spi, log }, true)
                    },
                }
            }
        }),
    decreases levels.len(),
{
    if levels.len() > 0 {
        let (spi, step) = crate::comms::spi::bit_step(v.spi, levels[0]);
        let rest = levels.drop_first();
        let ops = crate::comms::spi::exchange_ops(v.spi, pending, levels);
        let op = Op { action: pending, level: levels[0] };
        assert(levels.skip(1) =~= rest);
        match step {
            Step::Next(action) => {
                let next = LoginView { spi, ..v };
                lemma_login_ops(next, action, rest);
                let tail = crate::comms::spi::exchange_ops(spi, action, rest);
                assert(ops =~= seq![op] + tail);
                let n = ops.len() as int;
                assert(rest.skip(n - 1) =~= levels.skip(n));
                assert(login_ops(v, pending, levels) == seq![op] + login_ops(next, action, rest));
                let all = login_ops(next, action, rest);
                assert(seq![op] + all =~= ops + all.skip(n - 1)) by {
                    if all.len() >= n - 1 && all.take(n - 1) == tail {
                        assert(all =~= tail + all.skip(n - 1));
                    }
                }
            },
            Step::Done(_) => {
                assert(ops =~= seq![op]);
            },
        }
    }
}

/// Each attempt of the handshake is an exchange of the word that is out, done with the operations
/// that the engine names, from the first look at the clock on. Up to any point the levels that it
/// drives are leading bits of that word; when 32 levels were read, all of its bits were driven. If
/// the reset line was found high during the attempt, the same word is out again and the log is as it
/// was. Otherwise the word that the levels read spell is noted, and its answer is out next; the word
/// that ends the handshake ends it.
pub proof fn law_attempts_send_their_word(engine: SpiView, tx: u32, log: LogView, levels: Seq<bool>)
    ensures
        ({
            let v = LoginView { tx, spi: attempt(engine, tx), log };
            let clk = LinkAction::ClkIsHigh;
            let ops = login_ops(v, clk, levels);
            let next = login_next(v, clk, levels);
            exists|n: int, spi: SpiView| #[trigger]
                attempts_in_order(v, levels, ops, next, n, spi)
        }),
{
    let v = LoginView { tx, spi: attempt(engine, tx), log };
    let clk = LinkAction::ClkIsHigh;
    let ops = login_ops(v, clk, levels);
    let next = login_next(v, clk, levels);
    let exchange = crate::comms::spi::exchange_ops(v.spi, clk, levels);
    let (spi, exchanged) = crate::comms::spi::exchange_run(v.spi, levels);
    let n = exchange.len() as int;
    crate::comms::spi::law_exchange_goes_by_the_clock(v.spi, tx, levels);
    crate::comms::spi::law_exchange_counts_once(v.spi, tx, levels);
    lemma_login_ops(v, clk, levels);
    assert(ops.take(n) =~= exchange);
    if exchanged is Some {
        let again = login_ops(LoginView { tx, spi: attempt(spi, tx), log }, clk, levels.skip(n));
        if spi.reset_requested {
            assert(ops.skip(n) =~= again);
        } else {
            law_answers_complement_what_came_in(exchanged->0);
            if let Some(answer) = login_answer(exchanged->0) {
                let on = LoginView {
                    tx: answer,
                    spi: attempt(spi, answer),
                    log: log_step(log, exchanged->0),
                };
                assert(ops.skip(n) =~= login_ops(on, clk, levels.skip(n)));
            }
        }
    }
    assert(attempts_in_order(v, levels, ops, next, n, spi));
}

/// What `law_attempts_send_their_word` says of the operations `ops` and the operation `next` that is
/// named after them, with `n` operations in the attempt and the engine being `spi` after it.
pub open spec fn attempts_in_order(
    v: LoginView,
    levels: Seq<bool>,
    ops: Seq<Op>,
    next: Option<LinkAction>,
    n: int,
    spi: SpiView,
) -> bool {
    let attempted = ops.take(n);
    let read = crate::comms::spi::levels_read(attempted);
    let driven = crate::comms::spi::levels_driven(attempted);
    let rx = crate::comms::spi::word_of(read) as u32;
    let clk = LinkAction::ClkIsHigh;
    let later = levels.skip(n);
    &&& 0 <= n <= ops.len()
    &&& n > 0 ==> attempted[0].action is ClkIsHigh
    &&& crate::comms::spi::in_order(attempted)
    &&& driven.is_prefix_of(crate::comms::spi::bits_of(v.tx))
    &&& read.len() < 32 ==> {
        &&& ops.len() == n
        &&& n == 0 ==> next == Some(clk)
        &&& n > 0 ==> next is Some && crate::comms::spi::follows(attempted.last(), next->0)
        &&& next matches Some(LinkAction::DriveTx(bit)) ==> bit == crate::comms::spi::bits_of(
            v.tx,
        )[driven.len() as int]
        &&& login_run(v, levels) == (LoginView { spi, ..v }, false)
        &&& spi.tx_count == v.spi.tx_count
    }
    &&& read.len() >= 32 ==> {
        &&& read.len() == 32
        &&& attempted.last().action is RxIsHigh
        &&& spi.tx_count == (v.spi.tx_count + 1) % 0x1_0000_0000
        &&& driven == crate::comms::spi::bits_of(v.tx)
        &&& crate::comms::spi::reset_found(attempted) ==> {
            let again = LoginView { tx: v.tx, spi: attempt(spi, v.tx), log: v.log };
            &&& ops.skip(n) == login_ops(again, clk, later)
            &&& next == login_next(again, clk, later)
            &&& login_run(v, levels) == login_run(again, later)
        }
        &&& !crate::comms::spi::reset_found(attempted) && rx == 0xB0BB8001 ==> {
            &&& ops.len() == n
            &&& next is None
            &&& login_run(v, levels) == (
                LoginView { tx: v.tx, spi, log: log_step(v.log, rx) },
                true,
            )
        }
        &&& !crate::comms::spi::reset_found(attempted) && rx != 0xB0BB8001 ==> {
            let tx = login_answer(rx)->0;
            let on = LoginView { tx, spi: attempt(spi, tx), log: log_step(v.log, rx) };
            &&& ops.skip(n) == login_ops(on, clk, later)
            &&& next == login_next(on, clk, later)
            &&& login_run(v, levels) == login_run(on, later)
        }
    }
}

/// A new attempt has its word out, nothing read, and no reset requested; the count of exchanges goes
/// on. The first word out is 0.
pub proof fn law_attempts_start_afresh(engine: SpiView, tx: u32)
    ensures
        !attempt(engine, tx).reset_requested,
        attempt(engine, tx).tx_count == engine.tx_count,
        INITIAL_LOGIN_TX == 0,
        attempt(engine, tx).exchange == Some(
            Exchange { data: tx, sampled: Seq::empty(), phase: BitPhase::AwaitLow },
        ),
{
}

} // verus!
