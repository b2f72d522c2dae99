//! The log: what goes to the serial port and to the firmware's console.

use vstd::prelude::*;
use crate::platform::{PortWrite, COM1_PORT};

verus! {

/// How often the serial port is asked whether it is ready.
pub const SERIAL_TIMEOUT: usize = 10_000;

/// Where the log goes: always to the serial port, and to the firmware's console
/// while that is active.
#[derive(Copy, Clone, Debug, PartialEq, Eq, Structural)]
pub struct LogState {
    pub console_active: bool,
}

impl LogState {
    pub fn new() -> (r: Self)
        ensures
            r.console_active,
    {
        Self { console_active: true }
    }
}

/// The writes that set up the first serial port: no interrupts, 38400 baud,
/// eight bits without parity and one stop bit, and its buffers on.
pub open spec fn serial_setup() -> Seq<PortWrite> {
    seq![
        PortWrite { port: 0x3F9, value: 0x00 },
        PortWrite { port: 0x3FB, value: 0x80 },
        PortWrite { port: 0x3F8, value: 0x03 },
        PortWrite { port: 0x3F9, value: 0x00 },
        PortWrite { port: 0x3FB, value: 0x03 },
        PortWrite { port: 0x3FA, value: 0xC7 },
        PortWrite { port: 0x3FC, value: 0x0B },
    ]
}

/// Sets up the first serial port.
pub fn init() -> (r: [PortWrite; 7])
    ensures
        r@ == serial_setup(),
        r@[0] == (PortWrite { port: 0x3F9, value: 0x00 }),
        r@[1] == (PortWrite { port: 0x3FB, value: 0x80 }),
        r@[2] == (PortWrite { port: 0x3F8, value: 0x03 }),
        r@[3] == (PortWrite { port: 0x3F9, value: 0x00 }),
        r@[4] == (PortWrite { port: 0x3FB, value: 0x03 }),
        r@[5] == (PortWrite { port: 0x3FA, value: 0xC7 }),
        r@[6] == (PortWrite { port: 0x3FC, value: 0x0B }),
{
    let r = [
        PortWrite { port: COM1_PORT + 1, value: 0x00 },
        PortWrite { port: COM1_PORT + 3, value: 0x80 },
        PortWrite { port: COM1_PORT, value: 0x03 },
        PortWrite { port: COM1_PORT + 1, value: 0x00 },
        PortWrite { port: COM1_PORT + 3, value: 0x03 },
        PortWrite { port: COM1_PORT + 2, value: 0xC7 },
        PortWrite { port: COM1_PORT + 4, value: 0x0B },
    ];
    assert(r@ =~= serial_setup());
    r
}

/// From now on the log goes to the serial port only.
pub fn disable_uefi_console(log: &mut LogState)
    ensures
        !final(log).console_active,
{
    log.console_active = false;
}

/// What the kernel does next about a byte for the serial port.
#[derive(Copy, Clone, Debug, PartialEq, Eq, Structural)]
pub enum SerialStep {
    /// The byte is written.
    Send,
    /// The port is asked again, this often at most.
    Wait(usize),
}

/// Decides what is done about a byte for the serial port, which said `status`
/// and may be asked `timeout` more times. It is written once the port is ready,
/// or once the port was asked often enough.
pub fn write_serial_byte(status: u8, timeout: usize) -> (r: SerialStep)
    ensures
        r == if status as int / 0x20 % 2 == 0 && timeout > 0 {
            SerialStep::Wait((timeout - 1) as usize)
        } else {
            SerialStep::Send
        },
{
    if status / 0x20 % 2 == 0 && timeout > 0 {
        SerialStep::Wait(timeout - 1)
    } else {
        SerialStep::Send
    }
}

/// The bytes `s` with a carriage return before each line feed.
pub open spec fn with_returns(s: Seq<u8>) -> Seq<u8>
    decreases s.len(),
{
    if s.len() == 0 {
        Seq::empty()
    } else if s.last() == 10 {
        with_returns(s.drop_last()).push(13).push(10)
    } else {
        with_returns(s.drop_last()).push(s.last())
    }
}

/// The 16 bits that the console is given of a character.
pub open spec fn console_unit(c: char) -> u16 {
    (c as int % 0x1_0000) as u16
}

/// The characters `s` as the console is given them, one at a time, with a
/// carriage return before each line feed.
pub open spec fn console_units(s: Seq<char>) -> Seq<u16>
    decreases s.len(),
{
    if s.len() == 0 {
        Seq::empty()
    } else if s.last() == '\n' {
        console_units(s.drop_last()).push(13).push(10)
    } else {
        console_units(s.drop_last()).push(console_unit(s.last()))
    }
}

/// What is sent for a byte: a carriage return before a line feed, and the byte.
pub fn serial_pair(byte: u8) -> (r: (Option<u8>, u8))
    ensures
        r == (if byte == 10 {
            Some(13u8)
        } else {
            None
        }, byte),
{
    if byte == 10 {
        (Some(13), byte)
    } else {
        (None, byte)
    }
}

/// What the console is given for a character: a carriage return before a line
/// feed, and the character's own 16 bits.
pub fn console_pair(ch: char) -> (r: (Option<u16>, u16))
    ensures
        r == (if ch == '\n' {
            Some(13u16)
        } else {
            None
        }, console_unit(ch)),
{
    let unit: u16 = (ch as u32 % 0x1_0000) as u16;
    if ch == '\n' {
        (Some(13), unit)
    } else {
        (None, unit)
    }
}

/// What is to be written: bytes to the serial port, and then units to the
/// console, each as a text of its own.
pub struct LogOutput {
    pub serial: Vec<u8>,
    pub console: Vec<u16>,
}

fn serial_bytes(s: &str) -> (r: Vec<u8>)
    ensures
        r@ == with_returns(vstd::utf8::encode_utf8(s@)),
{
    let bytes = s.as_bytes();
    let mut out: Vec<u8> = Vec::new();
    let mut i: usize = 0;
    assert(bytes@.take(0) =~= Seq::<u8>::empty());
    while i < bytes.len()
        invariant
            i <= bytes@.len(),
            bytes@ == vstd::utf8::encode_utf8(s@),
            out@ == with_returns(bytes@.take(i as int)),
        decreases bytes@.len() - i,
    {
        let (before, byte) = serial_pair(bytes[i]);
        if let Some(cr) = before {
            out.push(cr);
        }
        out.push(byte);
        assert(bytes@.take(i + 1).drop_last() =~= bytes@.take(i as int));
        i = i + 1;
    }
    assert(bytes@.take(i as int) =~= bytes@);
    out
}

fn console_text(s: &str) -> (r: Vec<u16>)
    ensures
        r@ == console_units(s@),
{
    let n: usize = s.unicode_len();
    let mut out: Vec<u16> = Vec::new();
    let mut i: usize = 0;
    assert(s@.take(0) =~= Seq::<char>::empty());
    while i < n
        invariant
            i <= n,
            n == s@.len(),
            out@ == console_units(s@.take(i as int)),
        decreases n - i,
    {
        let (before, unit) = console_pair(s.get_char(i));
        if let Some(cr) = before {
            out.push(cr);
        }
        out.push(unit);
        assert(s@.take(i + 1).drop_last() =~= s@.take(i as int));
        i = i + 1;
    }
    assert(s@.take(i as int) =~= s@);
    out
}

/// What is to be written of `s`.
pub fn write_str_raw(log: &LogState, s: &str) -> (r: LogOutput)
    ensures
        r.serial@ == with_returns(vstd::utf8::encode_utf8(s@)),
        r.console@ == if log.console_active {
            console_units(s@)
        } else {
            Seq::empty()
        },
{
    let serial = serial_bytes(s);
    let console = if log.console_active {
        console_text(s)
    } else {
        Vec::new()
    };
    LogOutput { serial, console }
}

/// Writes to the log.
pub struct KernelWriter;

impl KernelWriter {
    /// What is to be written of `s`.
    pub fn write_str(&mut self, log: &LogState, s: &str) -> (r: LogOutput)
        ensures
            r.serial@ == with_returns(vstd::utf8::encode_utf8(s@)),
            r.console@ == if log.console_active {
                console_units(s@)
            } else {
                Seq::empty()
            },
    {
        write_str_raw(log, s)
    }
}

/// Text that is written in two parts comes out as if it were written at once.
pub proof fn lemma_returns_join(a: Seq<u8>, b: Seq<u8>)
    ensures
        with_returns(a + b) == with_returns(a) + with_returns(b),
    decreases b.len(),
{
    if b.len() == 0 {
        assert(a + b =~= a);
        assert(with_returns(b) =~= Seq::<u8>::empty());
    } else {
        assert((a + b).drop_last() =~= a + b.drop_last());
        assert((a + b).last() == b.last());
        lemma_returns_join(a, b.drop_last());
    }
    assert(with_returns(a + b) =~= with_returns(a) + with_returns(b));
}

/// What comes out of one byte: a line feed with a carriage return before it, and any
/// other as it is. Nothing comes out of nothing.
pub proof fn lemma_returns_of_byte(b: u8)
    ensures
        with_returns(Seq::<u8>::empty()) == Seq::<u8>::empty(),
        with_returns(seq![b]) == if b == 0x0A {
            seq![0x0Du8, 0x0Au8]
        } else {
            seq![b]
        },
{
    assert(seq![b].drop_last() =~= Seq::<u8>::empty());
    assert(with_returns(Seq::<u8>::empty()) =~= Seq::<u8>::empty());
    assert(with_returns(seq![b]) =~= if b == 0x0A {
        seq![0x0Du8, 0x0Au8]
    } else {
        seq![b]
    });
}

/// What the console is given for one character: a line feed with a carriage return
/// before it, and of any other the lower 16 bits.
pub proof fn lemma_units_of_char(c: char)
    ensures
        console_units(Seq::<char>::empty()) == Seq::<u16>::empty(),
        console_units(seq![c]) == if c as u32 == 0x0A {
            seq![0x0Du16, 0x0Au16]
        } else {
            seq![(c as u32 % 0x1_0000) as u16]
        },
{
    assert(seq![c].drop_last() =~= Seq::<char>::empty());
    assert(console_units(Seq::<char>::empty()) =~= Seq::<u16>::empty());
    assert(console_units(seq![c]) =~= if c as u32 == 0x0A {
        seq![0x0Du16, 0x0Au16]
    } else {
        seq![(c as u32 % 0x1_0000) as u16]
    });
}

/// Text that is given to the console in two parts comes out as if it were given at
/// once.
pub proof fn lemma_units_join(a: Seq<char>, b: Seq<char>)
    ensures
        console_units(a + b) == console_units(a) + console_units(b),
    decreases b.len(),
{
    if b.len() == 0 {
        assert(a + b =~= a);
        assert(console_units(b) =~= Seq::<u16>::empty());
    } else {
        assert((a + b).drop_last() =~= a + b.drop_last());
        assert((a + b).last() == b.last());
        lemma_units_join(a, b.drop_last());
    }
    assert(console_units(a + b) =~= console_units(a) + console_units(b));
}

/// No line feed goes to the serial port without a carriage return before it.
pub proof fn lemma_returns_precede(s: Seq<u8>, i: int)
    requires
        0 <= i < with_returns(s).len(),
        with_returns(s)[i] == 10,
    ensures
        i > 0,
        with_returns(s)[i - 1] == 13,
    decreases s.len(),
{
    if s.len() > 0 {
        let before = with_returns(s.drop_last());
        if i < before.len() {
            assert(before[i] == 10);
            lemma_returns_precede(s.drop_last(), i);
            assert(with_returns(s)[i - 1] == before[i - 1]);
        }
    }
}

} // verus!
