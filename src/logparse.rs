//! Reading the log file back: a parser for the text that `logfile` writes,
//! and the proof that it returns exactly the entries that were written.
use vstd::prelude::*;
use crate::bench::{Elapsed, Log};
use crate::cli::Io;
use crate::logfile::{
    abbrev_bytes, dec, digit, fixed, header_line, is_digit, log_text, row_line, rows_text, COMMA, DOT,
    LOG_HEADER, NEWLINE,
};
use vstd::string::StringSliceAdditionalSpecFns;

verus! {

/// The number that a run of ASCII digits spells.
pub open spec fn value(d: Seq<u8>) -> nat
    decreases d.len(),
{
    if d.len() == 0 {
        0
    } else {
        value(d.drop_last()) * 10 + (d.last() - 48) as nat
    }
}

/// How many digits follow one another from position `p` on.
pub open spec fn run_len(s: Seq<u8>, p: int) -> nat
    decreases s.len() - p,
{
    if 0 <= p < s.len() && is_digit(s[p]) {
        1 + run_len(s, p + 1)
    } else {
        0
    }
}

/// A number at `p` that fits in 64 bits, ended by the byte `sep`: its value
/// and the position after `sep`.
pub open spec fn field_at(s: Seq<u8>, p: int, sep: u8) -> Option<(u64, int)> {
    let k = run_len(s, p);
    let v = value(s.subrange(p, p + k));
    if k == 0 || v > u64::MAX || !(p + k < s.len() && s[p + k] == sep) {
        None
    } else {
        Some((v as u64, p + k + 1))
    }
}

pub open spec fn pow10(w: nat) -> nat
    decreases w,
{
    if w == 0 {
        1
    } else {
        10 * pow10((w - 1) as nat)
    }
}

proof fn lemma_value_push(d: Seq<u8>, b: u8)
    ensures
        value(d.push(b)) == value(d) * 10 + (b - 48) as nat,
{
    assert(d.push(b).drop_last() =~= d);
}

proof fn lemma_dec(n: nat)
    ensures
        dec(n).len() >= 1,
        forall|i: int| 0 <= i < dec(n).len() ==> is_digit(#[trigger] dec(n)[i]),
        value(dec(n)) == n,
    decreases n,
{
    if n < 10 {
        lemma_value_push(Seq::empty(), digit(n));
        assert(seq![digit(n)] =~= Seq::<u8>::empty().push(digit(n)));
    } else {
        lemma_dec(n / 10);
        lemma_value_push(dec(n / 10), digit(n % 10));
    }
}

proof fn lemma_fixed(n: nat, w: nat)
    ensures
        fixed(n, w).len() == w,
        forall|i: int| 0 <= i < fixed(n, w).len() ==> is_digit(#[trigger] fixed(n, w)[i]),
        value(fixed(n, w)) == n % pow10(w),
    decreases w,
{
    if w > 0 {
        let m = pow10((w - 1) as nat);
        lemma_fixed(n / 10, (w - 1) as nat);
        lemma_value_push(fixed(n / 10, (w - 1) as nat), digit(n % 10));
        assert(pow10(w) == 10 * m);
        assert(m > 0) by {
            lemma_pow10_pos((w - 1) as nat);
        }
        vstd::arithmetic::div_mod::lemma_mod_breakdown(n as int, 10, m as int);
        assert((n / 10) % m * 10 + n % 10 == 10 * ((n / 10) % m) + n % 10) by (nonlinear_arith);
    } else {
        assert(value(Seq::<u8>::empty()) == 0);
    }
}

proof fn lemma_pow10_pos(w: nat)
    ensures
        pow10(w) > 0,
    decreases w,
{
    if w > 0 {
        lemma_pow10_pos((w - 1) as nat);
    }
}

/// The digits from `p` on run exactly `k` bytes.
proof fn lemma_run_len(s: Seq<u8>, p: int, k: nat)
    requires
        0 <= p,
        p + k <= s.len(),
        forall|i: int| p <= i < p + k ==> is_digit(#[trigger] s[i]),
        p + k == s.len() || !is_digit(s[p + k]),
    ensures
        run_len(s, p) == k,
    decreases k,
{
    if k > 0 {
        lemma_run_len(s, p + 1, (k - 1) as nat);
    }
}

/// The digits from `p` on run at least `k` bytes.
proof fn lemma_run_len_at_least(s: Seq<u8>, p: int, k: nat)
    requires
        0 <= p,
        p + k <= s.len(),
        forall|i: int| p <= i < p + k ==> is_digit(#[trigger] s[i]),
    ensures
        run_len(s, p) >= k,
        p + run_len(s, p) <= s.len(),
    decreases s.len() - p,
{
    if p < s.len() && is_digit(s[p]) {
        lemma_run_len_at_least(s, p + 1, if k > 0 { (k - 1) as nat } else { 0 });
    }
}

/// A longer run of digits spells no smaller a number.
proof fn lemma_value_prefix(d: Seq<u8>, k: int)
    requires
        0 <= k <= d.len(),
        forall|i: int| 0 <= i < d.len() ==> is_digit(#[trigger] d[i]),
    ensures
        value(d.subrange(0, k)) <= value(d),
    decreases d.len(),
{
    if k < d.len() {
        let init = d.drop_last();
        assert(init.subrange(0, k) =~= d.subrange(0, k));
        assert forall|i: int| 0 <= i < init.len() implies is_digit(#[trigger] init[i]) by {
            assert(init[i] == d[i]);
        }
        lemma_value_prefix(init, k);
    } else {
        assert(d.subrange(0, k) =~= d);
    }
}

/// Reads the number at `p` and the separator `sep` that must end it.
pub fn parse_field(s: &Vec<u8>, p: usize, sep: u8) -> (r: Option<(u64, usize)>)
    ensures
        match field_at(s@, p as int, sep) {
            None => r is None,
            Some((v, q)) => r matches Some((v2, q2)) && v2 == v && q2 == q,
        },
{
    let ghost g = s@;
    let mut j: usize = p;
    let mut v: u64 = 0;
    if p >= s.len() {
        return None;
    }
    while j < s.len() && 48 <= s[j] && s[j] <= 57
        invariant
            p <= j <= s.len(),
            p < s.len(),
            g == s@,
            forall|i: int| p <= i < j ==> is_digit(#[trigger] g[i]),
            v == value(g.subrange(p as int, j as int)),
        decreases s.len() - j,
    {
        let d = (s[j] - 48) as u64;
        assert(g.subrange(p as int, j + 1) =~= g.subrange(p as int, j as int).push(g[j as int]));
        proof {
            lemma_value_push(g.subrange(p as int, j as int), g[j as int]);
        }
        if v > (u64::MAX - d) / 10 {
            proof {
                let k = (j + 1 - p) as nat;
                lemma_run_len_at_least(g, p as int, k);
                let run = g.subrange(p as int, p + run_len(g, p as int));
                assert forall|i: int| 0 <= i < run.len() implies is_digit(#[trigger] run[i]) by {
                    assert(run[i] == g[p + i]);
                    lemma_digits_of_run(g, p as int, i);
                }
                assert(run.subrange(0, k as int) =~= g.subrange(p as int, j + 1));
                lemma_value_prefix(run, k as int);
                assert(v * 10 + d > u64::MAX) by (nonlinear_arith)
                    requires
                        v > (u64::MAX - d) / 10,
                        d <= 9,
                ;
            }
            return None;
        }
        v = v * 10 + d;
        j = j + 1;
    }
    proof {
        lemma_run_len(g, p as int, (j - p) as nat);
    }
    if j == p || j >= s.len() || s[j] != sep {
        return None;
    }
    Some((v, j + 1))
}

/// Every byte of the run of digits from `p` is a digit.
proof fn lemma_digits_of_run(s: Seq<u8>, p: int, i: int)
    requires
        0 <= p,
        0 <= i < run_len(s, p),
    ensures
        p + i < s.len(),
        is_digit(s[p + i]),
    decreases i,
{
    if i > 0 {
        lemma_digits_of_run(s, p + 1, i - 1);
    }
}

/// Nine digits at `p`, ended by `sep`: their value and the position after `sep`.
pub open spec fn nanos_at(s: Seq<u8>, p: int, sep: u8) -> Option<(u32, int)> {
    if 0 <= p && p + 9 < s.len() && (forall|i: int| p <= i < p + 9 ==> is_digit(#[trigger] s[i]))
        && s[p + 9] == sep {
        Some((value(s.subrange(p, p + 9)) as u32, p + 10))
    } else {
        None
    }
}

/// The mode whose two-letter tag is `a b`.
pub open spec fn io_of_tag(a: u8, b: u8) -> Option<Io> {
    if a == 82 && b == 82 {
        Some(Io::RandRead)
    } else if a == 82 && b == 87 {
        Some(Io::RandWrite)
    } else if a == 83 && b == 82 {
        Some(Io::SeqRead)
    } else if a == 83 && b == 87 {
        Some(Io::SeqWrite)
    } else {
        None
    }
}

/// A mode tag at `p`, ended by `sep`.
pub open spec fn tag_at(s: Seq<u8>, p: int, sep: u8) -> Option<(Io, int)> {
    if 0 <= p && p + 2 < s.len() && s[p + 2] == sep {
        match io_of_tag(s[p], s[p + 1]) {
            Some(io) => Some((io, p + 3)),
            None => None,
        }
    } else {
        None
    }
}

/// One line of the log file as read back: the entry, and the mode tag and
/// block size written beside it.
#[derive(Debug, Clone, Copy, PartialEq, Eq, Structural)]
pub struct LogRow {
    pub log: Log,
    pub io_type: Io,
    pub issue_bs: u64,
}

/// The line that starts at `p`, and the position after its newline.
#[verifier::opaque]
pub open spec fn row_at(s: Seq<u8>, p: int) -> Option<(LogRow, int)> {
    match field_at(s, p, DOT) {
        None => None,
        Some((secs, p1)) => match nanos_at(s, p1, COMMA) {
            None => None,
            Some((nanos, p2)) => match tag_at(s, p2, COMMA) {
                None => None,
                Some((io, p3)) => match field_at(s, p3, COMMA) {
                    None => None,
                    Some((offset, p4)) => match field_at(s, p4, COMMA) {
                        None => None,
                        Some((bs, p5)) => match field_at(s, p5, NEWLINE) {
                            None => None,
                            Some((complete_bs, p6)) => Some(
                                (
                                    LogRow {
                                        log: Log {
                                            elapsed: Elapsed { secs, nanos },
                                            offset,
                                            complete_bs,
                                        },
                                        io_type: io,
                                        issue_bs: bs,
                                    },
                                    p6,
                                ),
                            ),
                        },
                    },
                },
            },
        },
    }
}

/// The lines from `p` to the end of the text; none if any of them is malformed.
pub open spec fn rows_at(s: Seq<u8>, p: int) -> Option<Seq<LogRow>>
    decreases s.len() - p,
{
    if p < 0 || p >= s.len() {
        if p == s.len() {
            Some(Seq::empty())
        } else {
            None
        }
    } else {
        match row_at(s, p) {
            None => None,
            Some((r, q)) => if q <= p || q > s.len() {
                None
            } else {
                match rows_at(s, q) {
                    None => None,
                    Some(rest) => Some(seq![r] + rest),
                }
            },
        }
    }
}

/// The entries of a log file: its header line, then well-formed lines to the end.
pub open spec fn parse_spec(s: Seq<u8>) -> Option<Seq<LogRow>> {
    let h = header_line();
    if s.len() >= h.len() && s.subrange(0, h.len() as int) == h {
        rows_at(s, h.len() as int)
    } else {
        None
    }
}

/// The lines that a log of `logs` in mode `io` with block size `bs` holds.
pub open spec fn rows_of(io: Io, bs: u64, logs: Seq<Log>) -> Seq<LogRow> {
    logs.map_values(|l: Log| LogRow { log: l, io_type: io, issue_bs: bs })
}

/// Reads nine digits at `p` and the separator `sep` after them.
fn parse_nanos(s: &Vec<u8>, p: usize, sep: u8) -> (r: Option<(u32, usize)>)
    ensures
        match nanos_at(s@, p as int, sep) {
            None => r is None,
            Some((v, q)) => r matches Some((v2, q2)) && v2 == v && q2 == q,
        },
{
    let ghost g = s@;
    if p >= s.len() || s.len() - p <= 9 {
        return None;
    }
    let mut j: usize = p;
    let mut v: u32 = 0;
    while j < p + 9
        invariant
            p <= j <= p + 9,
            p + 9 < s.len(),
            g == s@,
            forall|i: int| p <= i < j ==> is_digit(#[trigger] g[i]),
            v == value(g.subrange(p as int, j as int)),
            v < pow10((j - p) as nat),
        decreases p + 9 - j,
    {
        proof {
            lemma_pow10_small((j - p) as nat);
        }
        if !(48 <= s[j] && s[j] <= 57) {
            return None;
        }
        let d = (s[j] - 48) as u32;
        assert(g.subrange(p as int, j + 1) =~= g.subrange(p as int, j as int).push(g[j as int]));
        proof {
            lemma_value_push(g.subrange(p as int, j as int), g[j as int]);
            let m = pow10((j - p) as nat);
            assert(pow10((j + 1 - p) as nat) == 10 * m);
            assert(v * 10 + d < 10 * m) by (nonlinear_arith)
                requires
                    v < m,
                    d <= 9,
            ;
        }
        v = v * 10 + d;
        j = j + 1;
    }
    if s[j] != sep {
        return None;
    }
    Some((v, j + 1))
}

proof fn lemma_pow10_small(k: nat)
    requires
        k <= 9,
    ensures
        pow10(k) <= 1000000000,
        k < 9 ==> pow10(k) <= 100000000,
    decreases 9 - k,
{
    if k < 9 {
        lemma_pow10_small(k + 1);
        assert(pow10(k + 1) == 10 * pow10(k));
    } else {
        reveal_with_fuel(pow10, 10);
    }
}

/// Reads a mode tag at `p` and the separator `sep` after it.
fn parse_tag(s: &Vec<u8>, p: usize, sep: u8) -> (r: Option<(Io, usize)>)
    ensures
        match tag_at(s@, p as int, sep) {
            None => r is None,
            Some((io, q)) => r matches Some((io2, q2)) && io2 == io && q2 == q,
        },
{
    if p >= s.len() || s.len() - p <= 2 || s[p + 2] != sep {
        return None;
    }
    let (a, b) = (s[p], s[p + 1]);
    let io = if a == 82 && b == 82 {
        Io::RandRead
    } else if a == 82 && b == 87 {
        Io::RandWrite
    } else if a == 83 && b == 82 {
        Io::SeqRead
    } else if a == 83 && b == 87 {
        Io::SeqWrite
    } else {
        return None;
    };
    Some((io, p + 3))
}

/// Reads the line that starts at `p`.
pub fn parse_row(s: &Vec<u8>, p: usize) -> (r: Option<(LogRow, usize)>)
    ensures
        match row_at(s@, p as int) {
            None => r is None,
            Some((row, q)) => r matches Some((row2, q2)) && row2 == row && q2 == q,
        },
{
    reveal(row_at);
    let (secs, p1) = match parse_field(s, p, DOT) {
        None => return None,
        Some(x) => x,
    };
    let (nanos, p2) = match parse_nanos(s, p1, COMMA) {
        None => return None,
        Some(x) => x,
    };
    let (io, p3) = match parse_tag(s, p2, COMMA) {
        None => return None,
        Some(x) => x,
    };
    let (offset, p4) = match parse_field(s, p3, COMMA) {
        None => return None,
        Some(x) => x,
    };
    let (bs, p5) = match parse_field(s, p4, COMMA) {
        None => return None,
        Some(x) => x,
    };
    let (complete_bs, p6) = match parse_field(s, p5, NEWLINE) {
        None => return None,
        Some(x) => x,
    };
    Some(
        (
            LogRow {
                log: Log { elapsed: Elapsed { secs, nanos }, offset, complete_bs },
                io_type: io,
                issue_bs: bs,
            },
            p6,
        ),
    )
}

/// Reads a log file: the header line, then one entry per line. `None` if
/// the text is not in that form, or a number does not fit in 64 bits.
pub fn parse_log(s: &Vec<u8>) -> (r: Option<Vec<LogRow>>)
    ensures
        match parse_spec(s@) {
            None => r is None,
            Some(rows) => r matches Some(v) && v@ == rows,
        },
{
    let ghost g = s@;
    let header = LOG_HEADER.as_bytes();
    let hl = header.len();
    if s.len() <= hl {
        return None;
    }
    let mut k: usize = 0;
    while k < hl
        invariant
            k <= hl,
            hl == header@.len(),
            hl < s.len(),
            header@ == LOG_HEADER.spec_bytes(),
            g == s@,
            g.subrange(0, k as int) == header@.subrange(0, k as int),
        decreases hl - k,
    {
        if s[k] != header[k] {
            proof {
                assert(g.subrange(0, hl + 1)[k as int] != header_line()[k as int]);
            }
            return None;
        }
        k = k + 1;
        assert(g.subrange(0, k as int) =~= header@.subrange(0, k as int));
    }
    if s[hl] != NEWLINE {
        proof {
            assert(g.subrange(0, hl + 1)[hl as int] != header_line()[hl as int]);
        }
        return None;
    }
    assert(g.subrange(0, hl + 1) =~= header_line());
    let mut out: Vec<LogRow> = Vec::new();
    let mut pos: usize = hl + 1;
    while pos < s.len()
        invariant
            hl + 1 <= pos <= s.len(),
            g == s@,
            parse_spec(g) == match rows_at(g, pos as int) {
                None => None,
                Some(rest) => Some(out@ + rest),
            },
        decreases s.len() - pos,
    {
        let (row, q) = match parse_row(s, pos) {
            None => return None,
            Some(x) => x,
        };
        if q <= pos || q > s.len() {
            return None;
        }
        proof {
            let ghost_out = out@;
            if let Some(rest) = rows_at(g, q as int) {
                assert(ghost_out + (seq![row] + rest) =~= ghost_out.push(row) + rest);
            }
        }
        out.push(row);
        pos = q;
    }
    assert(out@ + Seq::<LogRow>::empty() =~= out@);
    Some(out)
}

/// `s` holds `x + y` from `p` on: it holds `x` from `p`, then `y`.
proof fn lemma_split(s: Seq<u8>, p: int, x: Seq<u8>, y: Seq<u8>)
    requires
        0 <= p,
        p + x.len() + y.len() <= s.len(),
        s.subrange(p, p + x.len() + y.len()) == x + y,
    ensures
        s.subrange(p, p + x.len()) == x,
        s.subrange(p + x.len(), p + x.len() + y.len()) == y,
{
    let t = s.subrange(p, p + x.len() + y.len());
    assert forall|i: int| 0 <= i < x.len() implies s[p + i] == x[i] by {
        assert(t[i] == s[p + i]);
        assert(t[i] == (x + y)[i]);
    }
    assert forall|i: int| 0 <= i < y.len() implies s[p + x.len() + i] == y[i] by {
        assert(t[x.len() + i] == s[p + x.len() + i]);
        assert(t[x.len() + i] == (x + y)[x.len() + i]);
    }
    assert(s.subrange(p, p + x.len()) =~= x);
    assert(s.subrange(p + x.len(), p + x.len() + y.len()) =~= y);
}

proof fn lemma_field_of(s: Seq<u8>, p: int, n: u64, sep: u8)
    requires
        0 <= p,
        p + dec(n as nat).len() + 1 <= s.len(),
        s.subrange(p, p + dec(n as nat).len() + 1) == dec(n as nat).push(sep),
        !is_digit(sep),
    ensures
        field_at(s, p, sep) == Some((n, p + dec(n as nat).len() + 1)),
{
    let d = dec(n as nat);
    lemma_dec(n as nat);
    assert forall|i: int| p <= i < p + d.len() implies is_digit(#[trigger] s[i]) by {
        assert(s.subrange(p, p + d.len() + 1)[i - p] == d.push(sep)[i - p]);
    }
    assert(s.subrange(p, p + d.len() + 1)[d.len() as int] == d.push(sep)[d.len() as int]);
    lemma_run_len(s, p, d.len());
    assert(s.subrange(p, p + d.len()) =~= d) by {
        assert forall|i: int| 0 <= i < d.len() implies s.subrange(p, p + d.len())[i] == d[i] by {
            assert(s.subrange(p, p + d.len() + 1)[i] == d.push(sep)[i]);
        }
    }
}

proof fn lemma_nanos_of(s: Seq<u8>, p: int, n: u32, sep: u8)
    requires
        0 <= p,
        n < 1000000000,
        p + 10 <= s.len(),
        s.subrange(p, p + 10) == fixed(n as nat, 9).push(sep),
    ensures
        nanos_at(s, p, sep) == Some((n, p + 10)),
{
    let d = fixed(n as nat, 9);
    lemma_fixed(n as nat, 9);
    reveal_with_fuel(pow10, 10);
    assert(pow10(9) == 1000000000);
    assert forall|i: int| p <= i < p + 9 implies is_digit(#[trigger] s[i]) by {
        assert(s.subrange(p, p + 10)[i - p] == d.push(sep)[i - p]);
    }
    assert(s.subrange(p, p + 10)[9] == d.push(sep)[9]);
    assert(s.subrange(p, p + 9) =~= d) by {
        assert forall|i: int| 0 <= i < 9 implies s.subrange(p, p + 9)[i] == d[i] by {
            assert(s.subrange(p, p + 10)[i] == d.push(sep)[i]);
        }
    }
}

proof fn lemma_tag_of(s: Seq<u8>, p: int, io: Io, sep: u8)
    requires
        0 <= p,
        p + 3 <= s.len(),
        s.subrange(p, p + 3) == abbrev_bytes(io).push(sep),
    ensures
        tag_at(s, p, sep) == Some((io, p + 3)),
{
    let t = s.subrange(p, p + 3);
    let w = abbrev_bytes(io).push(sep);
    assert(t[0] == s[p] && t[1] == s[p + 1] && t[2] == s[p + 2]);
    assert(w[0] == abbrev_bytes(io)[0] && w[1] == abbrev_bytes(io)[1] && w[2] == sep);
    assert(io_of_tag(s[p], s[p + 1]) == Some(io));
}

/// A rendered line, wherever it stands, reads back as the entry it came from.
proof fn lemma_row_of(s: Seq<u8>, p: int, io: Io, bs: u64, l: Log)
    requires
        0 <= p,
        l.elapsed.wf(),
        p + row_line(io, bs, l).len() <= s.len(),
        s.subrange(p, p + row_line(io, bs, l).len()) == row_line(io, bs, l),
    ensures
        row_at(s, p) == Some(
            (LogRow { log: l, io_type: io, issue_bs: bs }, p + row_line(io, bs, l).len()),
        ),
{
    reveal(row_at);
    let a = dec(l.elapsed.secs as nat).push(DOT);
    let b = fixed(l.elapsed.nanos as nat, 9).push(COMMA);
    let c = abbrev_bytes(io).push(COMMA);
    let d = dec(l.offset as nat).push(COMMA);
    let e = dec(bs as nat).push(COMMA);
    let f = dec(l.complete_bs as nat).push(NEWLINE);
    lemma_fixed(l.elapsed.nanos as nat, 9);
    lemma_split(s, p, a + b + c + d + e, f);
    lemma_split(s, p, a + b + c + d, e);
    lemma_split(s, p, a + b + c, d);
    lemma_split(s, p, a + b, c);
    lemma_split(s, p, a, b);
    lemma_field_of(s, p, l.elapsed.secs, DOT);
    let p1 = p + a.len();
    lemma_nanos_of(s, p1, l.elapsed.nanos, COMMA);
    let p2 = p1 + b.len();
    lemma_tag_of(s, p2, io, COMMA);
    let p3 = p2 + c.len();
    lemma_field_of(s, p3, l.offset, COMMA);
    let p4 = p3 + d.len();
    lemma_field_of(s, p4, bs, COMMA);
    let p5 = p4 + e.len();
    lemma_field_of(s, p5, l.complete_bs, NEWLINE);
}

proof fn lemma_rows_text_front(io: Io, bs: u64, logs: Seq<Log>)
    requires
        logs.len() > 0,
    ensures
        rows_text(io, bs, logs) == row_line(io, bs, logs[0]) + rows_text(io, bs, logs.skip(1)),
    decreases logs.len(),
{
    let init = logs.drop_last();
    if init.len() == 0 {
        assert(logs.skip(1) =~= Seq::<Log>::empty());
        assert(rows_text(io, bs, init) == Seq::<u8>::empty());
        assert(rows_text(io, bs, logs) =~= row_line(io, bs, logs[0]));
        assert(row_line(io, bs, logs[0]) + Seq::<u8>::empty() =~= row_line(io, bs, logs[0]));
    } else {
        lemma_rows_text_front(io, bs, init);
        assert(logs.skip(1).drop_last() =~= init.skip(1));
        assert(logs.skip(1).last() == logs.last());
        assert(init[0] == logs[0]);
        assert(rows_text(io, bs, logs) =~= row_line(io, bs, logs[0]) + rows_text(
            io,
            bs,
            logs.skip(1),
        ));
    }
}

proof fn lemma_rows_of(s: Seq<u8>, p: int, io: Io, bs: u64, logs: Seq<Log>)
    requires
        0 <= p <= s.len(),
        s.subrange(p, s.len() as int) == rows_text(io, bs, logs),
        forall|i: int| 0 <= i < logs.len() ==> (#[trigger] logs[i]).elapsed.wf(),
    ensures
        rows_at(s, p) == Some(rows_of(io, bs, logs)),
    decreases logs.len(),
{
    if logs.len() == 0 {
        assert(rows_of(io, bs, logs) =~= Seq::<LogRow>::empty());
    } else {
        let line = row_line(io, bs, logs[0]);
        let rest = rows_text(io, bs, logs.skip(1));
        lemma_rows_text_front(io, bs, logs);
        assert(s.subrange(p, s.len() as int).len() == s.len() - p);
        assert(p + line.len() + rest.len() == s.len());
        lemma_split(s, p, line, rest);
        lemma_row_of(s, p, io, bs, logs[0]);
        let tail = logs.skip(1);
        assert forall|i: int| 0 <= i < tail.len() implies (#[trigger] tail[i]).elapsed.wf() by {
            assert(tail[i] == logs[i + 1]);
        }
        lemma_rows_of(s, p + line.len(), io, bs, tail);
        assert(rows_of(io, bs, logs) =~= seq![
            LogRow { log: logs[0], io_type: io, issue_bs: bs },
        ] + rows_of(io, bs, tail));
    }
}

/// Reading back a written log file gives one row per entry, in order, each
/// holding the entry's fields and the mode and block size of the run.
pub proof fn lemma_log_round_trip(io: Io, bs: u64, logs: Seq<Log>)
    requires
        forall|i: int| 0 <= i < logs.len() ==> (#[trigger] logs[i]).elapsed.wf(),
    ensures
        parse_spec(log_text(io, bs, logs)) == Some(rows_of(io, bs, logs)),
{
    let s = log_text(io, bs, logs);
    let h = header_line();
    assert(s.subrange(0, h.len() as int) =~= h);
    assert(s.subrange(h.len() as int, s.len() as int) =~= rows_text(io, bs, logs));
    lemma_rows_of(s, h.len() as int, io, bs, logs);
}

} // verus!
