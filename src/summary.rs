//! Whole-run figures derived from the log: elapsed time, throughput, IOPS and
//! mean latency, as exact integers in thousandths.
use vstd::prelude::*;
use crate::bench::{Bench, Elapsed, Log, log_allowed};
use crate::cli::Config;
use crate::logfile::log_text;
use crate::logparse::{LogRow, lemma_log_round_trip, parse_spec, rows_of};

verus! {

/// Bytes in one MiB.
pub const MIB: u128 = 1048576;

/// Sum of the bytes that the logged operations transferred.
pub open spec fn total_complete(logs: Seq<Log>) -> nat
    decreases logs.len(),
{
    if logs.len() == 0 {
        0
    } else {
        total_complete(logs.drop_last()) + logs.last().complete_bs as nat
    }
}

/// `n / d` rounded to the nearest integer, halves rounded up.
pub open spec fn round_div(n: int, d: int) -> int
    recommends
        d > 0,
{
    (2 * n + d) / (2 * d)
}

/// The aggregate of a run: the elapsed time of its last operation, the bytes
/// transferred in all, and the operation count of the workload.
#[derive(Debug, Clone, Copy, PartialEq, Eq, Structural)]
pub struct Summary {
    pub elapsed: Elapsed,
    pub total_complete_bs: u128,
    pub count: u64,
}

/// The summary of `logs` for a workload of `count` operations: none for an
/// empty log.
pub open spec fn summary_of(logs: Seq<Log>, count: u64) -> Option<Summary> {
    if logs.len() == 0 {
        None
    } else {
        Some(
            Summary {
                elapsed: logs.last().elapsed,
                total_complete_bs: total_complete(logs) as u128,
                count,
            },
        )
    }
}

proof fn lemma_total_bounded(logs: Seq<Log>, bs: nat)
    requires
        forall|i: int| 0 <= i < logs.len() ==> #[trigger] logs[i].complete_bs <= bs,
    ensures
        total_complete(logs) <= logs.len() * bs,
    decreases logs.len(),
{
    if logs.len() > 0 {
        let init = logs.drop_last();
        assert forall|i: int| 0 <= i < init.len() implies #[trigger] init[i].complete_bs <= bs by {
            assert(init[i] == logs[i]);
        }
        lemma_total_bounded(init, bs);
        assert(logs.len() * bs == init.len() * bs + bs) by (nonlinear_arith)
            requires
                logs.len() == init.len() + 1,
        ;
    }
}

/// Summarizes a log: `None` when it is empty, else its last elapsed time, the
/// sum of its transferred bytes, and `count`.
pub fn summarize(logs: &Vec<Log>, count: u64) -> (r: Option<Summary>)
    ensures
        r == summary_of(logs@, count),
{
    if logs.len() == 0 {
        return None;
    }
    let mut total: u128 = 0;
    let mut i: usize = 0;
    while i < logs.len()
        invariant
            i <= logs.len(),
            total == total_complete(logs@.subrange(0, i as int)),
            total <= i * 0x1_0000_0000_0000_0000,
            logs.len() <= usize::MAX,
        decreases logs.len() - i,
    {
        proof {
            let s = logs@.subrange(0, i + 1);
            assert(s.drop_last() == logs@.subrange(0, i as int));
        }
        total = total + logs[i].complete_bs as u128;
        i = i + 1;
    }
    assert(logs@.subrange(0, logs.len() as int) == logs@);
    Some(Summary { elapsed: logs[logs.len() - 1].elapsed, total_complete_bs: total, count })
}

impl Summary {
    /// Fields in range: nanoseconds under a second, and a byte total that fits
    /// in 64 bits, as that of any run's log does.
    pub open spec fn wf(&self) -> bool {
        &&& self.elapsed.wf()
        &&& self.total_complete_bs <= u64::MAX
    }

    /// Elapsed seconds, in thousandths, rounded to nearest.
    pub fn elapsed_millis(&self) -> (r: u128)
        requires
            self.wf(),
        ensures
            r == round_div(self.elapsed.total_nanos(), 1000000),
    {
        let ns = self.elapsed.secs as u128 * 1000000000 + self.elapsed.nanos as u128;
        (2 * ns + 1000000) / 2000000
    }

    /// Throughput in MiB per second, in thousandths, rounded to nearest:
    /// `total * 10^12 / (2^20 * nanoseconds)`. None when no time elapsed.
    pub fn throughput_milli_mibps(&self) -> (r: Option<u128>)
        requires
            self.wf(),
        ensures
            self.elapsed.total_nanos() == 0 <==> r is None,
            r matches Some(v) ==> v == round_div(
                self.total_complete_bs * 1000000000000,
                MIB * self.elapsed.total_nanos(),
            ),
    {
        let ns = self.elapsed.secs as u128 * 1000000000 + self.elapsed.nanos as u128;
        if ns == 0 {
            return None;
        }
        let n = self.total_complete_bs * 1000000000000;
        let d = MIB * ns;
        Some((2 * n + d) / (2 * d))
    }

    /// Operations per second, in thousandths, rounded to nearest:
    /// `count * 10^12 / nanoseconds`. None when no time elapsed.
    pub fn iops_milli(&self) -> (r: Option<u128>)
        requires
            self.wf(),
        ensures
            self.elapsed.total_nanos() == 0 <==> r is None,
            r matches Some(v) ==> v == round_div(
                self.count * 1000000000000,
                self.elapsed.total_nanos(),
            ),
    {
        let ns = self.elapsed.secs as u128 * 1000000000 + self.elapsed.nanos as u128;
        if ns == 0 {
            return None;
        }
        let n = self.count as u128 * 1000000000000;
        Some((2 * n + ns) / (2 * ns))
    }

    /// Mean latency in milliseconds, in thousandths, rounded to nearest:
    /// `nanoseconds / (1000 * count)`. None for a workload of no operations.
    pub fn mean_latency_micros(&self) -> (r: Option<u128>)
        requires
            self.wf(),
        ensures
            self.count == 0 <==> r is None,
            r matches Some(v) ==> v == round_div(self.elapsed.total_nanos(), 1000 * self.count),
    {
        if self.count == 0 {
            return None;
        }
        let ns = self.elapsed.secs as u128 * 1000000000 + self.elapsed.nanos as u128;
        let d = 1000 * self.count as u128;
        Some((2 * ns + d) / (2 * d))
    }
}

impl Bench {
    /// The summary of the operations logged so far; none before the first.
    pub fn summary(&self) -> (r: Option<Summary>)
        requires
            self.wf(),
        ensures
            r == summary_of(self.logs_spec(), self.config_spec().count),
            r matches Some(s) ==> s.wf(),
    {
        proof {
            let logs = self.logs_spec();
            let c = self.config_spec();
            assert forall|i: int| 0 <= i < logs.len() implies #[trigger] logs[i].complete_bs
                <= c.bs by {
                assert(logs[i].elapsed.wf());
            }
            lemma_total_bounded(logs, c.bs as nat);
            assert(logs.len() * (c.bs as nat) <= c.bs * c.count) by (nonlinear_arith)
                requires
                    logs.len() <= c.count,
            ;
            assert(total_complete(logs) <= u64::MAX);
            if logs.len() > 0 {
                assert(logs[logs.len() - 1].elapsed.wf());
                assert(logs.last().elapsed.wf());
            }
        }
        summarize(self.logs(), self.config().count)
    }
}

/// The entries of rows read back from a log file.
pub open spec fn logs_of_rows(rows: Seq<LogRow>) -> Seq<Log> {
    rows.map_values(|r: LogRow| r.log)
}

/// The entries of rows read back from a log file, in order.
pub fn entries_of_rows(rows: &Vec<LogRow>) -> (r: Vec<Log>)
    ensures
        r@ == logs_of_rows(rows@),
{
    let mut out: Vec<Log> = Vec::new();
    let mut i: usize = 0;
    while i < rows.len()
        invariant
            i <= rows.len(),
            out@ == logs_of_rows(rows@.subrange(0, i as int)),
        decreases rows.len() - i,
    {
        out.push(rows[i].log);
        i = i + 1;
        assert(out@ =~= logs_of_rows(rows@.subrange(0, i as int)));
    }
    assert(rows@.subrange(0, rows.len() as int) =~= rows@);
    out
}

/// The summary recomputed from a benchmark's written log file equals the
/// summary of its log in memory.
pub proof fn lemma_summary_from_log_file(b: Bench)
    requires
        b.wf(),
    ensures
        parse_spec(
            log_text(b.config_spec().io_type, b.config_spec().bs, b.logs_spec()),
        ) matches Some(rows) && summary_of(logs_of_rows(rows), b.config_spec().count)
            == summary_of(b.logs_spec(), b.config_spec().count),
{
    let c = b.config_spec();
    let logs = b.logs_spec();
    assert forall|i: int| 0 <= i < logs.len() implies (#[trigger] logs[i]).elapsed.wf() by {
        assert(logs[i].elapsed.wf());
    }
    lemma_log_round_trip(c.io_type, c.bs, logs);
    assert(logs_of_rows(rows_of(c.io_type, c.bs, logs)) =~= logs);
}

} // verus!
