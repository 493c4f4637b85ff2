//! The adapter's main loop: when to feed the watchdog, when to report the login log and when to
//! send a heartbeat.
use vstd::prelude::*;

verus! {

/// How long the link may stand still, in microseconds, before the watchdog is left to bite.
pub const FEED_WINDOW_US: u64 = 4_000_000;

/// The time between two reports of the login log, in microseconds.
pub const DUMP_PERIOD_US: u64 = 300_000;

/// The time between two heartbeats, in microseconds.
pub const BEAT_PERIOD_US: u64 = 1_000_000;

/// The time from `then` to `now` on a clock that wraps around at 2^64.
pub open spec fn elapsed(then: u64, now: u64) -> int {
    (now - then) % 0x1_0000_0000_0000_0000
}

/// The state of the main loop.
#[derive(Clone, Copy, Debug, PartialEq, Eq, Structural)]
pub struct Supervisor {
    /// When the last heartbeat was sent.
    pub last_beat: u64,
    /// The number of the next heartbeat, modulo 2^32.
    pub beats: u32,
    /// When the login log was last reported.
    pub last_dump: u64,
    /// The count of word exchanges as last seen.
    pub seen_count: u32,
    /// When that count was last seen to change.
    pub seen_time: u64,
    /// Whether it was ever seen to change.
    pub armed: bool,
}

/// What one turn of the main loop has to do.
#[derive(Clone, Copy, Debug, PartialEq, Eq, Structural)]
pub struct Turn {
    pub feed: bool,
    pub dump: bool,
    /// The number of the heartbeat to send, if one is due.
    pub beat: Option<u32>,
}

/// The main loop after a turn at time `now`, with `count` word exchanges completed.
pub open spec fn turn_step(s: Supervisor, now: u64, count: u32) -> (Supervisor, Turn) {
    let moved = count != s.seen_count;
    let seen_time = if moved {
        now
    } else {
        s.seen_time
    };
    let armed = s.armed || moved;
    let dump = elapsed(s.last_dump, now) >= DUMP_PERIOD_US;
    let beat = elapsed(s.last_beat, now) >= BEAT_PERIOD_US;
    (
        Supervisor {
            last_beat: if beat {
                now
            } else {
                s.last_beat
            },
            beats: if beat {
                s.beats.wrapping_add(1)
            } else {
                s.beats
            },
            last_dump: if dump {
                now
            } else {
                s.last_dump
            },
            seen_count: count,
            seen_time,
            armed,
        },
        Turn {
            feed: !armed || elapsed(seen_time, now) < FEED_WINDOW_US,
            dump,
            beat: if beat {
                Some(s.beats)
            } else {
                None
            },
        },
    )
}

impl Supervisor {
    /// The state at the start, at time `now` and with `count` word exchanges completed.
    pub fn new(now: u64, count: u32) -> (s: Self)
        ensures
            s == (Supervisor {
                last_beat: now,
                beats: 0,
                last_dump: now,
                seen_count: count,
                seen_time: now,
                armed: false,
            }),
    {
        Supervisor {
            last_beat: now,
            beats: 0,
            last_dump: now,
            seen_count: count,
            seen_time: now,
            armed: false,
        }
    }

    /// One turn of the main loop.
    pub fn turn(&mut self, now: u64, count: u32) -> (t: Turn)
        ensures
            (*final(self), t) == turn_step(*old(self), now, count),
    {
        if count != self.seen_count {
            self.seen_count = count;
            self.seen_time = now;
            self.armed = true;
        }
        let feed: bool = !self.armed || now.wrapping_sub(self.seen_time) < FEED_WINDOW_US;
        let dump: bool = now.wrapping_sub(self.last_dump) >= DUMP_PERIOD_US;
        if dump {
            self.last_dump = now;
        }
        let mut beat: Option<u32> = None;
        if now.wrapping_sub(self.last_beat) >= BEAT_PERIOD_US {
            self.last_beat = now;
            beat = Some(self.beats);
            self.beats = self.beats.wrapping_add(1);
        }
        Turn { feed, dump, beat }
    }
}

/// A turn: the time and the count of word exchanges at it.
pub struct Moment {
    pub now: u64,
    pub count: u32,
}

/// The main loop after all of `turns`.
pub open spec fn turns_run(s: Supervisor, turns: Seq<Moment>) -> Supervisor
    decreases turns.len(),
{
    if turns.len() == 0 {
        s
    } else {
        turn_step(turns_run(s, turns.drop_last()), turns.last().now, turns.last().count).0
    }
}

/// Before the first word exchange the watchdog is fed at every turn, however long that takes: an
/// idle link does not reboot the adapter.
pub proof fn law_idle_link_is_fed(s: Supervisor, turns: Seq<Moment>, now: u64)
    requires
        !s.armed,
        forall|i: int| 0 <= i < turns.len() ==> #[trigger] turns[i].count == s.seen_count,
    ensures
        turn_step(turns_run(s, turns), now, s.seen_count).1.feed,
{
    lemma_idle(s, turns);
}

proof fn lemma_idle(s: Supervisor, turns: Seq<Moment>)
    requires
        !s.armed,
        forall|i: int| 0 <= i < turns.len() ==> #[trigger] turns[i].count == s.seen_count,
    ensures
        !turns_run(s, turns).armed,
        turns_run(s, turns).seen_count == s.seen_count,
    decreases turns.len(),
{
    if turns.len() > 0 {
        assert(turns[turns.len() - 1].count == s.seen_count);
        assert forall|i: int| 0 <= i < turns.drop_last().len() implies #[trigger] turns.drop_last()[i].count
            == s.seen_count by {
            assert(turns[i].count == s.seen_count);
        }
        lemma_idle(s, turns.drop_last());
    }
}

/// Once the link has moved at `start`, and as long as it stands still after that, the watchdog is
/// fed exactly while less than the window has passed since: a link that stops for good is left to
/// the watchdog.
pub proof fn law_stopped_link_is_not_fed(
    s: Supervisor,
    start: Moment,
    turns: Seq<Moment>,
    now: u64,
)
    requires
        start.count != s.seen_count,
        forall|i: int| 0 <= i < turns.len() ==> #[trigger] turns[i].count == start.count,
    ensures
        ({
            let moved = turn_step(s, start.now, start.count).0;
            turn_step(turns_run(moved, turns), now, start.count).1.feed <==> elapsed(
                start.now,
                now,
            ) < FEED_WINDOW_US
        }),
{
    lemma_stopped(turn_step(s, start.now, start.count).0, turns);
}

proof fn lemma_stopped(s: Supervisor, turns: Seq<Moment>)
    requires
        s.armed,
        forall|i: int| 0 <= i < turns.len() ==> #[trigger] turns[i].count == s.seen_count,
    ensures
        turns_run(s, turns).armed,
        turns_run(s, turns).seen_count == s.seen_count,
        turns_run(s, turns).seen_time == s.seen_time,
    decreases turns.len(),
{
    if turns.len() > 0 {
        assert(turns[turns.len() - 1].count == s.seen_count);
        assert forall|i: int| 0 <= i < turns.drop_last().len() implies #[trigger] turns.drop_last()[i].count
            == s.seen_count by {
            assert(turns[i].count == s.seen_count);
        }
        lemma_stopped(s, turns.drop_last());
    }
}

/// A link that moves is fed: at a turn that finds the count changed, whatever came before.
pub proof fn law_moving_link_is_fed(s: Supervisor, now: u64, count: u32)
    requires
        count != s.seen_count,
    ensures
        turn_step(s, now, count).1.feed,
        turn_step(s, now, count).0.armed,
{
}

/// The numbers of the heartbeats that `turns` ask for.
pub open spec fn beats_asked(s: Supervisor, turns: Seq<Moment>) -> Seq<u32>
    decreases turns.len(),
{
    if turns.len() == 0 {
        Seq::empty()
    } else {
        let before = turns_run(s, turns.drop_last());
        let earlier = beats_asked(s, turns.drop_last());
        match turn_step(before, turns.last().now, turns.last().count).1.beat {
            Some(n) => earlier.push(n),
            None => earlier,
        }
    }
}

/// Heartbeats are numbered one after the other, modulo 2^32: none is left out, none comes twice.
pub proof fn law_heartbeats_are_numbered(s: Supervisor, turns: Seq<Moment>)
    ensures
        forall|k: int|
            0 <= k < beats_asked(s, turns).len() ==> #[trigger] beats_asked(s, turns)[k] == (s.beats
                + k) % 0x1_0000_0000,
        turns_run(s, turns).beats == (s.beats + beats_asked(s, turns).len()) % 0x1_0000_0000,
    decreases turns.len(),
{
    if turns.len() > 0 {
        law_heartbeats_are_numbered(s, turns.drop_last());
        let earlier = beats_asked(s, turns.drop_last());
        assert forall|k: int| 0 <= k < beats_asked(s, turns).len() implies #[trigger] beats_asked(
            s,
            turns,
        )[k] == (s.beats + k) % 0x1_0000_0000 by {
            if k < earlier.len() {
                assert(beats_asked(s, turns)[k] == earlier[k]);
            }
        }
    }
}

/// After a heartbeat the next one is asked for exactly when a period has passed, and after a
/// report of the login log the next report exactly when its period has.
pub proof fn law_reports_are_spaced(s: Supervisor, now: u64, count: u32, later: u64, next: u32)
    ensures
        ({
            let (after, turn) = turn_step(s, now, count);
            let following = turn_step(after, later, next).1;
            &&& turn.beat is Some ==> (following.beat is Some <==> elapsed(now, later)
                >= BEAT_PERIOD_US)
            &&& turn.dump ==> (following.dump <==> elapsed(now, later) >= DUMP_PERIOD_US)
        }),
{
}

/// What turn `i` of `turns` has to do.
pub open spec fn turn_at(s: Supervisor, turns: Seq<Moment>, i: int) -> Turn {
    turn_step(turns_run(s, turns.take(i)), turns[i].now, turns[i].count).1
}

/// Whether turn `i` of `turns` finds the count of word exchanges changed since the turn before it.
pub open spec fn moves_at(s: Supervisor, turns: Seq<Moment>, i: int) -> bool {
    turns[i].count != if i == 0 {
        s.seen_count
    } else {
        turns[i - 1].count
    }
}

/// Time on the wrapping clock: from an earlier reading it is the difference, and a reading that has
/// wrapped around counts on from 2^64.
pub proof fn law_clock_wraps(then: u64, now: u64)
    ensures
        then <= now ==> elapsed(then, now) == now - then,
        then > now ==> elapsed(then, now) == 0x1_0000_0000_0000_0000 - then + now,
{
}

proof fn lemma_turn(s: Supervisor, turns: Seq<Moment>, j: int)
    requires
        0 <= j < turns.len(),
    ensures
        turns_run(s, turns.take(j + 1)) == turn_step(
            turns_run(s, turns.take(j)),
            turns[j].now,
            turns[j].count,
        ).0,
{
    assert(turns.take(j + 1).drop_last() =~= turns.take(j));
    assert(turns.take(j + 1).last() == turns[j]);
}

proof fn lemma_no_beat(s: Supervisor, turns: Seq<Moment>, i: int, j: int)
    requires
        0 <= i <= j <= turns.len(),
        forall|k: int| i <= k < j ==> (#[trigger] turn_at(s, turns, k)).beat is None,
    ensures
        turns_run(s, turns.take(j)).last_beat == turns_run(s, turns.take(i)).last_beat,
    decreases j - i,
{
    if i < j {
        lemma_no_beat(s, turns, i, j - 1);
        lemma_turn(s, turns, j - 1);
        assert(turn_at(s, turns, j - 1).beat is None);
    }
}

/// Heartbeats are a period apart, whatever the counts are: after turn `i` asked for one and none of
/// the turns in between did, turn `j` asks for one exactly when a second has passed since turn `i`.
pub proof fn law_heartbeats_are_spaced(s: Supervisor, turns: Seq<Moment>, i: int, j: int)
    requires
        0 <= i < j < turns.len(),
        turn_at(s, turns, i).beat is Some,
        forall|k: int| i < k < j ==> (#[trigger] turn_at(s, turns, k)).beat is None,
    ensures
        turn_at(s, turns, j).beat is Some <==> elapsed(turns[i].now, turns[j].now) >= 1_000_000,
{
    lemma_turn(s, turns, i);
    lemma_no_beat(s, turns, i + 1, j);
}

/// The first heartbeat is asked for exactly at the first turn that comes a second or more after the
/// time from which the loop counts, whatever the counts are.
pub proof fn law_first_heartbeat_is_due(s: Supervisor, turns: Seq<Moment>, j: int)
    requires
        0 <= j < turns.len(),
        forall|k: int| 0 <= k < j ==> (#[trigger] turn_at(s, turns, k)).beat is None,
    ensures
        turn_at(s, turns, j).beat is Some <==> elapsed(s.last_beat, turns[j].now) >= 1_000_000,
{
    assert(turns.take(0) =~= Seq::<Moment>::empty());
    lemma_no_beat(s, turns, 0, j);
}

proof fn lemma_no_dump(s: Supervisor, turns: Seq<Moment>, i: int, j: int)
    requires
        0 <= i <= j <= turns.len(),
        forall|k: int| i <= k < j ==> !(#[trigger] turn_at(s, turns, k)).dump,
    ensures
        turns_run(s, turns.take(j)).last_dump == turns_run(s, turns.take(i)).last_dump,
    decreases j - i,
{
    if i < j {
        lemma_no_dump(s, turns, i, j - 1);
        lemma_turn(s, turns, j - 1);
        assert(!turn_at(s, turns, j - 1).dump);
    }
}

/// Reports of the login log are their period apart, whatever the counts are: after turn `i` asked
/// for one and none of the turns in between did, turn `j` asks for one exactly when 300
/// milliseconds have passed since turn `i`.
pub proof fn law_dumps_are_spaced(s: Supervisor, turns: Seq<Moment>, i: int, j: int)
    requires
        0 <= i < j < turns.len(),
        turn_at(s, turns, i).dump,
        forall|k: int| i < k < j ==> !(#[trigger] turn_at(s, turns, k)).dump,
    ensures
        turn_at(s, turns, j).dump <==> elapsed(turns[i].now, turns[j].now) >= 300_000,
{
    lemma_turn(s, turns, i);
    lemma_no_dump(s, turns, i + 1, j);
}

/// The first report of the login log is asked for exactly at the first turn that comes 300
/// milliseconds or more after the time from which the loop counts.
pub proof fn law_first_dump_is_due(s: Supervisor, turns: Seq<Moment>, j: int)
    requires
        0 <= j < turns.len(),
        forall|k: int| 0 <= k < j ==> !(#[trigger] turn_at(s, turns, k)).dump,
    ensures
        turn_at(s, turns, j).dump <==> elapsed(s.last_dump, turns[j].now) >= 300_000,
{
    assert(turns.take(0) =~= Seq::<Moment>::empty());
    lemma_no_dump(s, turns, 0, j);
}

proof fn lemma_last_count(s: Supervisor, turns: Seq<Moment>, j: int)
    requires
        0 <= j <= turns.len(),
    ensures
        turns_run(s, turns.take(j)).seen_count == if j == 0 {
            s.seen_count
        } else {
            turns[j - 1].count
        },
{
    if j == 0 {
        assert(turns.take(0) =~= Seq::<Moment>::empty());
    } else {
        lemma_turn(s, turns, j - 1);
    }
}

proof fn lemma_no_move(s: Supervisor, turns: Seq<Moment>, i: int, j: int)
    requires
        0 <= i <= j <= turns.len(),
        forall|k: int| i <= k < j ==> !#[trigger] moves_at(s, turns, k),
    ensures
        turns_run(s, turns.take(j)).seen_time == turns_run(s, turns.take(i)).seen_time,
        turns_run(s, turns.take(j)).armed == turns_run(s, turns.take(i)).armed,
    decreases j - i,
{
    if i < j {
        lemma_no_move(s, turns, i, j - 1);
        lemma_turn(s, turns, j - 1);
        lemma_last_count(s, turns, j - 1);
        assert(!moves_at(s, turns, j - 1));
    }
}

/// Whatever came before: after the count last changed at turn `i`, turn `j` feeds the watchdog
/// exactly when less than four seconds have passed since turn `i`.
pub proof fn law_feeding_follows_the_last_move(s: Supervisor, turns: Seq<Moment>, i: int, j: int)
    requires
        0 <= i <= j < turns.len(),
        moves_at(s, turns, i),
        forall|k: int| i < k <= j ==> !#[trigger] moves_at(s, turns, k),
    ensures
        turn_at(s, turns, j).feed <==> elapsed(turns[i].now, turns[j].now) < 4_000_000,
{
    lemma_last_count(s, turns, i);
    lemma_turn(s, turns, i);
    lemma_last_count(s, turns, j);
    if i < j {
        lemma_no_move(s, turns, i + 1, j);
        assert(!moves_at(s, turns, j));
    }
}

/// While the count has not changed in any turn, the watchdog is fed as the loop started out: always
/// if no change was ever seen, and otherwise for four seconds from the last change.
pub proof fn law_feeding_without_a_move(s: Supervisor, turns: Seq<Moment>, j: int)
    requires
        0 <= j < turns.len(),
        forall|k: int| 0 <= k <= j ==> !#[trigger] moves_at(s, turns, k),
    ensures
        turn_at(s, turns, j).feed <==> !s.armed || elapsed(s.seen_time, turns[j].now) < 4_000_000,
{
    assert(turns.take(0) =~= Seq::<Moment>::empty());
    lemma_no_move(s, turns, 0, j);
    lemma_last_count(s, turns, j);
    assert(!moves_at(s, turns, j));
}

} // verus!
