//! The CSV form of the operation log: a header line, then one line per
//! operation in the order the operations were issued.
use vstd::prelude::*;
use vstd::string::StringSliceAdditionalSpecFns;
use crate::bench::{Bench, Elapsed, Log};
use crate::cli::Io;

verus! {

/// Column names of the log file.
pub const LOG_HEADER: &'static str = "elapsed_time,io_type,offset,issue_bs,complete_s";

pub const COMMA: u8 = 44;

pub const DOT: u8 = 46;

pub const NEWLINE: u8 = 10;

/// The ASCII digit of `d`, for `d < 10`.
pub open spec fn digit(d: nat) -> u8 {
    (d + 48) as u8
}

pub open spec fn is_digit(b: u8) -> bool {
    48 <= b <= 57
}

/// Decimal digits of `n`, without leading zeros.
pub open spec fn dec(n: nat) -> Seq<u8>
    decreases n,
{
    if n < 10 {
        seq![digit(n)]
    } else {
        dec(n / 10).push(digit(n % 10))
    }
}

/// The last `w` decimal digits of `n`, padded with zeros on the left.
pub open spec fn fixed(n: nat, w: nat) -> Seq<u8>
    decreases w,
{
    if w == 0 {
        Seq::empty()
    } else {
        fixed(n / 10, (w - 1) as nat).push(digit(n % 10))
    }
}

/// The mode's two-letter tag as bytes.
pub open spec fn abbrev_bytes(io: Io) -> Seq<u8> {
    match io {
        Io::RandRead => seq![82u8, 82u8],
        Io::RandWrite => seq![82u8, 87u8],
        Io::SeqRead => seq![83u8, 82u8],
        Io::SeqWrite => seq![83u8, 87u8],
    }
}

/// The header line, newline included.
pub open spec fn header_line() -> Seq<u8> {
    LOG_HEADER.spec_bytes().push(NEWLINE)
}

/// One log line: `<secs>.<nanos, 9 digits>,<tag>,<offset>,<bs>,<completed>`.
pub open spec fn row_line(io: Io, bs: u64, log: Log) -> Seq<u8> {
    dec(log.elapsed.secs as nat).push(DOT) + fixed(log.elapsed.nanos as nat, 9).push(COMMA)
        + abbrev_bytes(io).push(COMMA) + dec(log.offset as nat).push(COMMA) + dec(bs as nat).push(
        COMMA,
    ) + dec(log.complete_bs as nat).push(NEWLINE)
}

/// The lines of `logs`, in order.
pub open spec fn rows_text(io: Io, bs: u64, logs: Seq<Log>) -> Seq<u8>
    decreases logs.len(),
{
    if logs.len() == 0 {
        Seq::empty()
    } else {
        rows_text(io, bs, logs.drop_last()) + row_line(io, bs, logs.last())
    }
}

/// The whole log file: the header line, then a line per entry.
pub open spec fn log_text(io: Io, bs: u64, logs: Seq<Log>) -> Seq<u8> {
    header_line() + rows_text(io, bs, logs)
}

/// Appends the decimal digits of `n`.
fn push_dec(out: &mut Vec<u8>, n: u64)
    ensures
        final(out)@ == old(out)@ + dec(n as nat),
    decreases n,
{
    if n >= 10 {
        push_dec(out, n / 10);
    }
    out.push((n % 10) as u8 + 48);
    proof {
        if n < 10 {
            assert(dec(n as nat) == seq![digit(n as nat)]);
        }
    }
    assert(final(out)@ == old(out)@ + dec(n as nat));
}

/// Appends the last `w` digits of `n`, zero-padded.
fn push_fixed(out: &mut Vec<u8>, n: u32, w: u32)
    ensures
        final(out)@ == old(out)@ + fixed(n as nat, w as nat),
    decreases w,
{
    if w > 0 {
        push_fixed(out, n / 10, w - 1);
        out.push((n % 10) as u8 + 48);
        assert(final(out)@ == old(out)@ + fixed(n as nat, w as nat));
    } else {
        assert(final(out)@ == old(out)@ + fixed(n as nat, w as nat));
    }
}

fn push_abbrev(out: &mut Vec<u8>, io: Io)
    ensures
        final(out)@ == old(out)@ + abbrev_bytes(io),
{
    let (a, b): (u8, u8) = match io {
        Io::RandRead => (82, 82),
        Io::RandWrite => (82, 87),
        Io::SeqRead => (83, 82),
        Io::SeqWrite => (83, 87),
    };
    out.push(a);
    out.push(b);
    assert(final(out)@ == old(out)@ + abbrev_bytes(io));
}

/// Appends the line of one log entry.
pub fn push_row(out: &mut Vec<u8>, io: Io, bs: u64, log: &Log)
    ensures
        final(out)@ == old(out)@ + row_line(io, bs, *log),
{
    push_dec(out, log.elapsed.secs);
    out.push(DOT);
    push_fixed(out, log.elapsed.nanos, 9);
    out.push(COMMA);
    push_abbrev(out, io);
    out.push(COMMA);
    push_dec(out, log.offset);
    out.push(COMMA);
    push_dec(out, bs);
    out.push(COMMA);
    push_dec(out, log.complete_bs);
    out.push(NEWLINE);
    assert(final(out)@ == old(out)@ + row_line(io, bs, *log));
}

/// The text of the log file for `logs` of a run in mode `io` with block size `bs`.
pub fn render_log(io: Io, bs: u64, logs: &Vec<Log>) -> (r: Vec<u8>)
    ensures
        r@ == log_text(io, bs, logs@),
{
    let mut out: Vec<u8> = Vec::new();
    let header = LOG_HEADER.as_bytes();
    let mut k: usize = 0;
    while k < header.len()
        invariant
            k <= header@.len(),
            header@ == LOG_HEADER.spec_bytes(),
            out@ == header@.subrange(0, k as int),
        decreases header@.len() - k,
    {
        out.push(header[k]);
        k = k + 1;
        assert(out@ == header@.subrange(0, k as int));
    }
    assert(header@.subrange(0, header@.len() as int) == header@);
    out.push(NEWLINE);
    let mut i: usize = 0;
    while i < logs.len()
        invariant
            i <= logs.len(),
            out@ == log_text(io, bs, logs@.subrange(0, i as int)),
        decreases logs.len() - i,
    {
        push_row(&mut out, io, bs, &logs[i]);
        proof {
            let s = logs@.subrange(0, i + 1);
            assert(s.drop_last() == logs@.subrange(0, i as int));
            assert(s.last() == logs@[i as int]);
        }
        i = i + 1;
        assert(out@ == log_text(io, bs, logs@.subrange(0, i as int)));
    }
    assert(logs@.subrange(0, logs.len() as int) == logs@);
    out
}

impl Bench {
    /// The log file's text for the operations logged so far.
    pub fn dump_logs(&self) -> (r: Vec<u8>)
        ensures
            r@ == log_text(self.config_spec().io_type, self.config_spec().bs, self.logs_spec()),
    {
        render_log(self.config().io_type, self.config().bs, self.logs())
    }
}

} // verus!
