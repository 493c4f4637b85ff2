//! A look at the link's wires: counts activity over a window of samples.
use crate::comms::spi::Spi;
use vstd::prelude::*;

verus! {

/// How many samples a window takes.
pub const WINDOW: u32 = 1_500_000;

/// The first word of every report.
pub const REPORT_MAGIC: u32 = 0xD1A6_D1A6;

/// The levels of the three incoming wires, read in this order.
#[derive(Clone, Copy, Debug, PartialEq, Eq, Structural)]
pub struct LineSample {
    pub clk: bool,
    pub rx: bool,
    pub reset: bool,
}

/// How often `s` is high.
pub open spec fn highs(s: Seq<bool>) -> nat
    decreases s.len(),
{
    if s.len() == 0 {
        0
    } else {
        highs(s.drop_last()) + if s.last() {
            1nat
        } else {
            0nat
        }
    }
}

/// How often `s` rises, its level being `first` before.
pub open spec fn rises(first: bool, s: Seq<bool>) -> nat
    decreases s.len(),
{
    if s.len() == 0 {
        0
    } else {
        rises(first, s.drop_last()) + if s.last() && !last_level(first, s.drop_last()) {
            1nat
        } else {
            0nat
        }
    }
}

/// The last level of `s`, or `first` where there is none.
pub open spec fn last_level(first: bool, s: Seq<bool>) -> bool {
    if s.len() == 0 {
        first
    } else {
        s.last()
    }
}

/// What a window has seen.
#[verifier::ext_equal]
pub struct WindowView {
    /// The clock's level when the window was opened.
    pub first: bool,
    pub samples: Seq<LineSample>,
}

impl WindowView {
    pub open spec fn clk(self) -> Seq<bool> {
        self.samples.map_values(|s: LineSample| s.clk)
    }

    pub open spec fn rx(self) -> Seq<bool> {
        self.samples.map_values(|s: LineSample| s.rx)
    }

    pub open spec fn reset(self) -> Seq<bool> {
        self.samples.map_values(|s: LineSample| s.reset)
    }

    /// The report on this window: rising clock edges, samples with the data line high, samples
    /// with the reset line high.
    pub open spec fn report(self) -> Seq<u32> {
        seq![
            REPORT_MAGIC,
            rises(self.first, self.clk()) as u32,
            highs(self.rx()) as u32,
            highs(self.reset()) as u32,
        ]
    }
}

pub struct LineWindow {
    last: bool,
    taken: u32,
    edges: u32,
    rx_high: u32,
    rst_high: u32,
    seen: Ghost<WindowView>,
}

impl View for LineWindow {
    type V = WindowView;

    closed spec fn view(&self) -> WindowView {
        self.seen@
    }
}

impl LineWindow {
    pub closed spec fn wf(&self) -> bool {
        &&& self.taken == self@.samples.len()
        &&& self.taken <= WINDOW
        &&& self.last == last_level(self@.first, self@.clk())
        &&& self.edges == rises(self@.first, self@.clk())
        &&& self.rx_high == highs(self@.rx())
        &&& self.rst_high == highs(self@.reset())
        &&& self.edges <= self.taken
        &&& self.rx_high <= self.taken
        &&& self.rst_high <= self.taken
    }

    /// Opens a window with the clock at level `clk`.
    pub fn open(clk: bool) -> (r: Self)
        ensures
            r.wf(),
            r@ == (WindowView { first: clk, samples: Seq::empty() }),
    {
        LineWindow {
            last: clk,
            taken: 0,
            edges: 0,
            rx_high: 0,
            rst_high: 0,
            seen: Ghost(WindowView { first: clk, samples: Seq::empty() }),
        }
    }
}

impl Spi {
    /// Counts one sample of the wires. With the last sample of the window its report comes back.
    pub fn diagnose(window: &mut LineWindow, sample: LineSample) -> (report: Option<[u32; 4]>)
        requires
            old(window).wf(),
            old(window)@.samples.len() < WINDOW,
        ensures
            final(window).wf(),
            final(window)@ == (WindowView {
                first: old(window)@.first,
                samples: old(window)@.samples.push(sample),
            }),
            report is Some <==> final(window)@.samples.len() == WINDOW,
            report matches Some(words) ==> words@ == final(window)@.report(),
    {
        let ghost before = window@;
        let ghost after = WindowView {
            first: before.first,
            samples: before.samples.push(sample),
        };
        proof {
            assert(after.clk() =~= before.clk().push(sample.clk));
            assert(after.rx() =~= before.rx().push(sample.rx));
            assert(after.reset() =~= before.reset().push(sample.reset));
            assert(after.clk().drop_last() =~= before.clk());
            assert(after.rx().drop_last() =~= before.rx());
            assert(after.reset().drop_last() =~= before.reset());
        }
        if sample.clk && !window.last {
            window.edges = window.edges + 1;
        }
        window.last = sample.clk;
        if sample.rx {
            window.rx_high = window.rx_high + 1;
        }
        if sample.reset {
            window.rst_high = window.rst_high + 1;
        }
        window.taken = window.taken + 1;
        window.seen = Ghost(after);
        if window.taken == WINDOW {
            let words: [u32; 4] = [REPORT_MAGIC, window.edges, window.rx_high, window.rst_high];
            assert(words@ =~= after.report());
            Some(words)
        } else {
            None
        }
    }
}

/// A window takes at most its number of samples.
pub proof fn law_window_size(window: &LineWindow)
    requires
        window.wf(),
    ensures
        window@.samples.len() <= WINDOW,
{
}

proof fn lemma_rises(first: bool, s: Seq<bool>)
    ensures
        2 * rises(first, s) <= s.len() + if last_level(first, s) {
            1int
        } else {
            0
        },
    decreases s.len(),
{
    if s.len() > 0 {
        lemma_rises(first, s.drop_last());
    }
}

proof fn lemma_highs(s: Seq<bool>)
    ensures
        highs(s) <= s.len(),
    decreases s.len(),
{
    if s.len() > 0 {
        lemma_highs(s.drop_last());
    }
}

/// A clock has to fall before it can rise again: a whole window holds at most half as many rising
/// edges as samples, and its report gives all three counts uncut.
pub proof fn law_report_counts_fit(w: WindowView)
    requires
        w.samples.len() == WINDOW,
    ensures
        rises(w.first, w.clk()) <= WINDOW / 2,
        highs(w.rx()) <= WINDOW,
        highs(w.reset()) <= WINDOW,
        w.report()[1] == rises(w.first, w.clk()),
        w.report()[2] == highs(w.rx()),
        w.report()[3] == highs(w.reset()),
{
    lemma_rises(w.first, w.clk());
    lemma_highs(w.rx());
    lemma_highs(w.reset());
}

/// Counting piece by piece gives the count of the whole; the level at the end of one piece is the
/// level before the next.
pub proof fn law_counts_add_up(first: bool, a: Seq<bool>, b: Seq<bool>)
    ensures
        highs(a + b) == highs(a) + highs(b),
        rises(first, a + b) == rises(first, a) + rises(last_level(first, a), b),
        last_level(first, a + b) == last_level(last_level(first, a), b),
    decreases b.len(),
{
    if b.len() == 0 {
        assert(a + b =~= a);
    } else {
        assert((a + b).drop_last() =~= a + b.drop_last());
        law_counts_add_up(first, a, b.drop_last());
    }
}

/// One sample counts for a high if it is one, and for a rise if the level before it was low.
pub proof fn law_one_sample_counts(first: bool, level: bool)
    ensures
        highs(seq![level]) == (if level {
            1nat
        } else {
            0nat
        }),
        rises(first, seq![level]) == (if level && !first {
            1nat
        } else {
            0nat
        }),
        last_level(first, seq![level]) == level,
        highs(Seq::empty()) == 0,
        rises(first, Seq::empty()) == 0,
        last_level(first, Seq::empty()) == first,
{
    let none = Seq::<bool>::empty();
    assert(seq![level].drop_last() =~= none);
    assert(highs(none) == 0);
    assert(rises(first, none) == 0);
}

/// The three wires of a window are what its samples say, one level for each sample.
pub proof fn law_wires_are_sampled_together(w: WindowView, i: int)
    requires
        0 <= i < w.samples.len(),
    ensures
        w.clk().len() == w.samples.len() && w.clk()[i] == w.samples[i].clk,
        w.rx().len() == w.samples.len() && w.rx()[i] == w.samples[i].rx,
        w.reset().len() == w.samples.len() && w.reset()[i] == w.samples[i].reset,
{
}

/// A report has four words, the first of them the magic, and comes after one and a half million
/// samples.
pub proof fn law_report_shape(w: WindowView)
    ensures
        w.report().len() == 4,
        w.report()[0] == 0xD1A6_D1A6,
        WINDOW == 1_500_000,
{
}

} // verus!
