use adapter::comms::diagnose::{LineSample, LineWindow};
use adapter::comms::gpi::{Gpi, ACK_TIMEOUT};
use adapter::comms::login::{login_reply, LoginLog};
use adapter::comms::result::SendResult;
use adapter::comms::spi::{LinkAction, Spi, Step};

/// A console that clocks in `word`, bit by bit, and sees what the adapter drives.
struct Console {
    word: u32,
    bit: u32,
    driven: u32,
    waits: u32,
    left: u32,
    reset: bool,
}

impl Console {
    fn new(word: u32) -> Self {
        Console { word, bit: 0, driven: 0, waits: 0, left: 0, reset: false }
    }

    fn level(&mut self, action: LinkAction) -> bool {
        match action {
            LinkAction::ClkIsHigh | LinkAction::ClkIsLow => {
                if self.left > 0 {
                    self.left -= 1;
                    true
                } else {
                    self.left = self.waits;
                    false
                }
            }
            LinkAction::ResetIsHigh => self.reset,
            LinkAction::DriveTx(b) => {
                self.driven = (self.driven << 1) | b as u32;
                false
            }
            LinkAction::RxIsHigh => {
                self.bit += 1;
                (self.word >> (32 - self.bit)) & 1 == 1
            }
            LinkAction::RxIsLow | LinkAction::Delay(_) => false,
        }
    }
}

fn exchange(spi: &mut Spi, data: u32, console: &mut Console) -> u32 {
    let mut action = spi.transfer_u32(data);
    loop {
        match spi.transfer_bit(console.level(action)) {
            Step::Next(next) => action = next,
            Step::Done(rx) => return rx,
        }
    }
}

#[test]
fn words_cross_the_link() {
    let mut spi = Spi::new();
    for (data, word) in [(0u32, 0xFFFF_FFFFu32), (0x494EB6B1, 0x7FFF494E), (0x8000_0001, 0x0F0F_1234)] {
        let mut console = Console::new(word);
        assert_eq!(exchange(&mut spi, data, &mut console), word);
        assert_eq!(console.driven, data);
    }
    assert_eq!(spi.tx_count(), 3);
    assert!(!spi.reset_requested());
}

#[test]
fn slow_clock_changes_nothing() {
    let mut spi = Spi::new();
    let mut console = Console::new(0x12345678);
    console.waits = 3;
    console.left = 5;
    assert_eq!(exchange(&mut spi, 0x9ABCDEF0, &mut console), 0x12345678);
    assert_eq!(console.driven, 0x9ABCDEF0);
    assert!(!spi.reset_requested());
}

#[test]
fn reset_line_is_noticed_while_the_clock_is_high() {
    let mut spi = Spi::new();
    let mut console = Console::new(5);
    console.reset = true;
    assert_eq!(exchange(&mut spi, 1, &mut console), 5);
    assert!(!spi.reset_requested());
    let mut console = Console::new(6);
    console.reset = true;
    console.left = 1;
    assert_eq!(exchange(&mut spi, 1, &mut console), 6);
    assert!(spi.reset_requested());
    let mut console = Console::new(7);
    exchange(&mut spi, 1, &mut console);
    assert!(spi.reset_requested());
    spi.reset();
    assert!(!spi.reset_requested());
    spi.request_reset();
    assert!(spi.reset_requested());
}

#[test]
fn operations_come_in_order() {
    let mut spi = Spi::new();
    assert_eq!(spi.transfer_u32(0x8000_0000), LinkAction::ClkIsHigh);
    assert_eq!(spi.transfer_bit(true), Step::Next(LinkAction::ResetIsHigh));
    assert_eq!(spi.transfer_bit(false), Step::Next(LinkAction::ClkIsHigh));
    assert_eq!(spi.transfer_bit(false), Step::Next(LinkAction::DriveTx(true)));
    assert_eq!(spi.transfer_bit(true), Step::Next(LinkAction::ClkIsLow));
    assert_eq!(spi.transfer_bit(true), Step::Next(LinkAction::ClkIsLow));
    assert_eq!(spi.transfer_bit(false), Step::Next(LinkAction::RxIsHigh));
    assert_eq!(spi.transfer_bit(true), Step::Next(LinkAction::ClkIsHigh));
    assert_eq!(spi.transfer_bit(false), Step::Next(LinkAction::DriveTx(false)));
    assert_eq!(spi.tx_count(), 0);
}

#[test]
fn loopback_returns_the_word() {
    let mut spi = Spi::new();
    for data in [0u32, 1, 0x8000_0000, 0xDEAD_BEEF, 0xFFFF_FFFF] {
        let mut wire = false;
        let mut action = spi.transfer_u32(data);
        let rx = loop {
            let level = match action {
                LinkAction::DriveTx(b) => {
                    wire = b;
                    false
                }
                LinkAction::RxIsHigh => wire,
                _ => false,
            };
            match spi.transfer_bit(level) {
                Step::Next(next) => action = next,
                Step::Done(rx) => break rx,
            }
        };
        assert_eq!(rx, data);
    }
}

#[test]
fn window_counts_edges_and_highs() {
    let mut window = LineWindow::open(true);
    let mut report = None;
    for i in 0..1_500_000u32 {
        assert_eq!(report, None);
        let sample = LineSample { clk: i % 2 == 1, rx: i % 3 == 0, reset: i < 10 };
        report = Spi::diagnose(&mut window, sample);
    }
    assert_eq!(report, Some([0xD1A6_D1A6, 750_000, 500_000, 10]));
}

#[test]
fn window_that_opens_high_has_no_first_edge() {
    let mut window = LineWindow::open(true);
    let mut report = None;
    for _ in 0..1_500_000u32 {
        report = Spi::diagnose(&mut window, LineSample { clk: true, rx: false, reset: false });
    }
    assert_eq!(report, Some([0xD1A6_D1A6, 0, 0, 0]));
}

#[test]
fn login_answers() {
    for (rx, tx) in [
        (0x0000494Eu32, 0x494EB6B1u32),
        (0xFFFF494E, 0x494EB6B1),
        (0x7FFF494E, 0x494EB6B1),
        (0xB6B1494E, 0x544EB6B1),
        (0xB6B1544E, 0x544EABB1),
        (0xABB1544E, 0x4E45ABB1),
        (0xABB14E45, 0x4E45B1BA),
        (0xB1BA4E45, 0x4F44B1BA),
        (0xB1BA4F44, 0x4F44B0BB),
        (0xB0BB4F44, 0x8001B0BB),
        (0x0000929C, 0xFFFFFFFF),
        (0x1234494E, 0xFFFFEDCB),
        (0xFFFF0000, 0xFFFF0000),
    ] {
        assert_eq!(login_reply(rx), Some(tx));
    }
    assert_eq!(login_reply(0xB0BB8001), None);
}

fn log_in(gpi: &mut Gpi, words: &[(u32, bool)]) -> Vec<u32> {
    let mut sent = Vec::new();
    let mut action = gpi.login();
    for (i, &(word, reset)) in words.iter().enumerate() {
        let mut console = Console::new(word);
        console.reset = reset;
        console.left = 1;
        let mut bits = 0;
        loop {
            if let LinkAction::DriveTx(_) = action {
                bits += 1;
            }
            let level = console.level(action);
            let ends = action == LinkAction::RxIsHigh && bits == 32;
            match gpi.resume_login(level) {
                Step::Next(next) => action = next,
                Step::Done(()) => {
                    sent.push(console.driven);
                    assert_eq!(i + 1, words.len());
                    return sent;
                }
            }
            if ends {
                break;
            }
        }
        sent.push(console.driven);
    }
    panic!("the handshake goes on");
}

#[test]
fn handshake_runs_to_its_end() {
    let mut gpi = Gpi::new(Spi::new());
    let sent = log_in(
        &mut gpi,
        &[
            (0x7FFF494E, false),
            (0xB6B1494E, false),
            (0xB6B1544E, false),
            (0xABB1544E, true),
            (0xABB1544E, false),
            (0xABB14E45, false),
            (0xB1BA4E45, false),
            (0xB1BA4F44, false),
            (0xB0BB4F44, false),
            (0xB0BB8001, false),
        ],
    );
    assert_eq!(
        sent,
        vec![
            0x00000000, 0x494EB6B1, 0x544EB6B1, 0x544EABB1, 0x544EABB1, 0x4E45ABB1, 0x4E45B1BA,
            0x4F44B1BA, 0x4F44B0BB, 0x8001B0BB,
        ]
    );
    assert_eq!(gpi.tx_count(), 10);
    assert_eq!(
        gpi.login_report(),
        [
            0x1061_1061, 9, 0x7FFF494E, 0xB6B1494E, 0xB6B1544E, 0xABB1544E, 0xABB14E45, 0xB1BA4E45,
            0xB1BA4F44, 0xB0BB4F44,
        ]
    );
}

#[test]
fn log_goes_on_from_where_it_is() {
    let mut log = LoginLog::new();
    for i in 0..13u32 {
        log.record(200 + i);
    }
    for i in 0..5u32 {
        log.record(300 + i);
    }
    assert_eq!(log.report(), [0x1061_1061, 18, 303, 304, 202, 203, 204, 205, 206, 207]);
}

#[test]
fn log_goes_round() {
    let mut log = LoginLog::new();
    assert_eq!(log.report(), [0x1061_1061, 0, 0, 0, 0, 0, 0, 0, 0, 0]);
    for i in 0..18u32 {
        log.record(100 + i);
    }
    assert_eq!(log.report(), [0x1061_1061, 18, 116, 117, 102, 103, 104, 105, 106, 107]);
}

fn send(gpi: &mut Gpi, data: u32, console: &mut Console) -> (SendResult<u32>, Vec<LinkAction>) {
    let mut seen = Vec::new();
    let mut action = gpi.send(data);
    loop {
        seen.push(action);
        match gpi.resume_send(console.level(action)) {
            Step::Next(next) => action = next,
            Step::Done(outcome) => return (outcome, seen),
        }
    }
}

#[test]
fn sent_word_is_acknowledged() {
    let mut gpi = Gpi::new(Spi::new());
    let mut console = Console::new(0xCAFE_F00D);
    let (outcome, seen) = send(&mut gpi, 0x1357_9BDF, &mut console);
    assert_eq!(outcome, SendResult::Data(0xCAFE_F00D));
    assert_eq!(seen[0], LinkAction::DriveTx(false));
    assert_eq!(
        seen[seen.len() - 6..],
        [
            LinkAction::DriveTx(false),
            LinkAction::Delay(100),
            LinkAction::DriveTx(true),
            LinkAction::DriveTx(true),
            LinkAction::DriveTx(true),
            LinkAction::RxIsLow,
        ]
    );
    assert_eq!(seen.len(), 1 + 32 * 4 + 6);
}

#[test]
fn reset_during_the_word_ends_it() {
    let mut gpi = Gpi::new(Spi::new());
    let mut console = Console::new(1);
    console.reset = true;
    console.left = 1;
    assert_eq!(send(&mut gpi, 2, &mut console).0, SendResult::Reset);
    let mut console = Console::new(1);
    assert_eq!(send(&mut gpi, 2, &mut console).0, SendResult::Reset);
    gpi.reset();
    let mut console = Console::new(1);
    assert_eq!(send(&mut gpi, 2, &mut console).0, SendResult::Data(1));
}

fn send_to_busy_console(gpi: &mut Gpi, lows: u32) -> SendResult<u32> {
    let mut console = Console::new(0xBEEF);
    let mut action = gpi.send(3);
    let mut left = lows;
    loop {
        let level = if action == LinkAction::RxIsLow && left > 0 {
            left -= 1;
            true
        } else {
            console.level(action)
        };
        match gpi.resume_send(level) {
            Step::Next(next) => action = next,
            Step::Done(outcome) => {
                assert_eq!(left, 0);
                return outcome;
            }
        }
    }
}

#[test]
fn silent_console_flags_a_reset_for_the_next_word() {
    let mut gpi = Gpi::new(Spi::new());
    assert_eq!(send_to_busy_console(&mut gpi, ACK_TIMEOUT), SendResult::Data(0xBEEF));
    assert_eq!(send_to_busy_console(&mut gpi, ACK_TIMEOUT + 1), SendResult::Data(0xBEEF));
    let mut console = Console::new(1);
    assert_eq!(send(&mut gpi, 2, &mut console).0, SendResult::Reset);
}
