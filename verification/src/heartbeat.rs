//! The heartbeat line that the adapter sends over the UART.
use vstd::prelude::*;

verus! {

/// How many bytes a line buffer holds.
pub const LINE_MAX: usize = 40;

/// The decimal digits of `n`, most significant first, as ASCII.
pub open spec fn decimal(n: nat) -> Seq<u8>
    decreases n,
{
    if n < 10 {
        seq![(0x30 + n) as u8]
    } else {
        decimal(n / 10).push((0x30 + n % 10) as u8)
    }
}

/// The bytes of heartbeat `n`.
pub open spec fn heartbeat_bytes(n: u32) -> Seq<u8> {
    vstd::utf8::encode_utf8("GBA-FW hb #"@) + decimal(n as nat) + vstd::utf8::encode_utf8("\r\n"@)
}

/// What a buffer that holds `held` holds after `more` was written to it: all that fits.
pub open spec fn written(held: Seq<u8>, more: Seq<u8>) -> Seq<u8> {
    if held.len() + more.len() <= LINE_MAX {
        held + more
    } else {
        (held + more).take(LINE_MAX as int)
    }
}

/// A line buffer: what does not fit is dropped.
pub struct HbBuf {
    buf: [u8; 40],
    len: usize,
}

impl View for HbBuf {
    type V = Seq<u8>;

    closed spec fn view(&self) -> Seq<u8> {
        self.buf@.take(self.len as int)
    }
}

impl HbBuf {
    pub closed spec fn wf(&self) -> bool {
        self.len <= LINE_MAX
    }

    /// An empty buffer.
    pub fn new() -> (r: Self)
        ensures
            r.wf(),
            r@ == Seq::<u8>::empty(),
    {
        let r = HbBuf { buf: [0;40], len: 0 };
        assert(r@ =~= Seq::<u8>::empty());
        r
    }

    fn push(&mut self, b: u8)
        requires
            old(self).wf(),
        ensures
            final(self).wf(),
            final(self)@ == written(old(self)@, seq![b]),
    {
        let ghost before = self@;
        if self.len < 40 {
            let at: usize = self.len;
            self.buf[at] = b;
            self.len = self.len + 1;
            assert(self@ =~= before + seq![b]);
        } else {
            assert((before + seq![b]).take(40) =~= before);
        }
    }

    fn write_bytes(&mut self, bytes: &[u8])
        requires
            old(self).wf(),
        ensures
            final(self).wf(),
            final(self)@ == written(old(self)@, bytes@),
    {
        assert(self@ + bytes@.take(0) =~= self@);
        for i in 0..bytes.len()
            invariant
                self.wf(),
                old(self)@.len() <= LINE_MAX,
                self@ == written(old(self)@, bytes@.take(i as int)),
        {
            let ghost before = self@;
            self.push(bytes[i]);
            assert(written(before, seq![bytes@[i as int]]) =~= written(
                old(self)@,
                bytes@.take(i + 1),
            ));
        }
        assert(bytes@.take(bytes@.len() as int) =~= bytes@);
    }

    /// Appends the bytes of `s`, as far as they fit.
    pub fn write_str(&mut self, s: &str)
        requires
            old(self).wf(),
        ensures
            final(self).wf(),
            final(self)@ == written(old(self)@, vstd::utf8::encode_utf8(s@)),
    {
        self.write_bytes(s.as_bytes());
    }

    /// Appends `n` in decimal, as far as it fits.
    pub fn write_decimal(&mut self, n: u32)
        requires
            old(self).wf(),
        ensures
            final(self).wf(),
            final(self)@ == written(old(self)@, decimal(n as nat)),
        decreases n,
    {
        if n < 10 {
            self.push(0x30 + n as u8);
        } else {
            let ghost held = self@;
            self.write_decimal(n / 10);
            let ghost before = self@;
            let digit: u8 = 0x30 + (n % 10) as u8;
            self.push(digit);
            assert(decimal(n as nat) =~= decimal((n / 10) as nat) + seq![digit]);
            assert(written(before, seq![digit]) =~= written(held, decimal(n as nat)));
        }
    }

    /// The bytes in the buffer.
    pub fn as_bytes(&self) -> (b: &[u8])
        requires
            self.wf(),
        ensures
            b@ == self@,
    {
        vstd::slice::slice_subrange(self.buf.as_slice(), 0, self.len)
    }
}

/// A line buffer never holds more than fits.
pub proof fn law_line_size(line: &HbBuf)
    requires
        line.wf(),
    ensures
        line@.len() <= LINE_MAX,
{
}

/// The line of heartbeat `n`.
pub fn heartbeat_line(n: u32) -> (line: HbBuf)
    ensures
        line.wf(),
        line@ == heartbeat_bytes(n),
{
    let mut line = HbBuf::new();
    line.write_str("GBA-FW hb #");
    line.write_decimal(n);
    line.write_str("\r\n");
    proof {
        law_heartbeat_fits(n);
        let head = vstd::utf8::encode_utf8("GBA-FW hb #"@);
        assert(Seq::<u8>::empty() + head =~= head);
    }
    line
}

/// A heartbeat line always fits its buffer, so that none is ever cut short.
pub proof fn law_heartbeat_fits(n: u32)
    ensures
        heartbeat_bytes(n).len() <= 23,
{
    reveal_strlit("GBA-FW hb #");
    reveal_strlit("\r\n");
    vstd::utf8::is_ascii_chars_encode_utf8("GBA-FW hb #"@);
    vstd::utf8::is_ascii_chars_encode_utf8("\r\n"@);
    reveal_with_fuel(decimal, 11);
}

/// The number that ASCII digits spell, most significant first.
pub open spec fn digits_value(digits: Seq<u8>) -> nat
    decreases digits.len(),
{
    if digits.len() == 0 {
        0
    } else {
        10 * digits_value(digits.drop_last()) + (digits.last() - 0x30) as nat
    }
}

/// A number is written with the digits 0 to 9 alone, at least one of them and no zero in front, and
/// the digits spell it.
pub proof fn law_decimal_spells_the_number(n: nat)
    ensures
        digits_value(decimal(n)) == n,
        decimal(n).len() > 0,
        forall|i: int| 0 <= i < decimal(n).len() ==> 0x30 <= #[trigger] decimal(n)[i] <= 0x39,
        decimal(n)[0] == 0x30 ==> n == 0 && decimal(n).len() == 1,
    decreases n,
{
    if n < 10 {
        assert(decimal(n).drop_last() =~= Seq::<u8>::empty());
        assert(digits_value(decimal(n).drop_last()) == 0);
    } else {
        law_decimal_spells_the_number(n / 10);
        assert(decimal(n).drop_last() =~= decimal(n / 10));
        assert(decimal(n)[0] == decimal(n / 10)[0]);
    }
}

/// The text of a heartbeat, byte for byte: `GBA-FW hb #`, the number, and a carriage return and a
/// line feed.
pub proof fn law_heartbeat_text(n: u32)
    ensures
        heartbeat_bytes(n) == seq![
            0x47u8,
            0x42u8,
            0x41u8,
            0x2Du8,
            0x46u8,
            0x57u8,
            0x20u8,
            0x68u8,
            0x62u8,
            0x20u8,
            0x23u8,
        ] + decimal(n as nat) + seq![0x0Du8, 0x0Au8],
{
    reveal_strlit("GBA-FW hb #");
    reveal_strlit("\r\n");
    vstd::utf8::is_ascii_chars_encode_utf8("GBA-FW hb #"@);
    vstd::utf8::is_ascii_chars_encode_utf8("\r\n"@);
    assert(heartbeat_bytes(n) =~= seq![
        0x47u8,
        0x42u8,
        0x41u8,
        0x2Du8,
        0x46u8,
        0x57u8,
        0x20u8,
        0x68u8,
        0x62u8,
        0x20u8,
        0x23u8,
    ] + decimal(n as nat) + seq![0x0Du8, 0x0Au8]);
}

/// Writing to a line buffer keeps what it held and appends what was written, up to forty bytes in
/// all and not less than fits.
pub proof fn law_writing_keeps_what_fits(held: Seq<u8>, more: Seq<u8>)
    requires
        held.len() <= 40,
    ensures
        held.is_prefix_of(written(held, more)),
        written(held, more).is_prefix_of(held + more),
        written(held, more).len() == vstd::math::min((held.len() + more.len()) as int, 40),
{
}

} // verus!
