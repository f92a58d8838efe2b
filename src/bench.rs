//! The engine state: offset choice for each operation and the ordered log.
use vstd::prelude::*;
use rand::Rng;
use crate::cli::{Config, Io, random_spec};

verus! {

/// Nanoseconds in one second.
pub const NANOS_PER_SEC: u32 = 1000000000;

/// Time since the start of a run, as whole seconds and the nanoseconds past them.
#[derive(Debug, Clone, Copy, PartialEq, Eq, Structural)]
pub struct Elapsed {
    pub secs: u64,
    pub nanos: u32,
}

impl Elapsed {
    pub open spec fn wf(&self) -> bool {
        self.nanos < NANOS_PER_SEC
    }

    pub open spec fn total_nanos(&self) -> int {
        self.secs as int * NANOS_PER_SEC as int + self.nanos as int
    }

    /// Builds an elapsed time; nanoseconds must be under one second.
    pub fn new(secs: u64, nanos: u32) -> (r: Elapsed)
        requires
            nanos < NANOS_PER_SEC,
        ensures
            r.secs == secs,
            r.nanos == nanos,
            r.wf(),
    {
        Elapsed { secs, nanos }
    }

    /// Whether `self` comes no later than `other`.
    pub fn not_after(&self, other: &Elapsed) -> (r: bool)
        ensures
            self.wf() && other.wf() ==> (r == (self.total_nanos() <= other.total_nanos())),
    {
        self.secs < other.secs || (self.secs == other.secs && self.nanos <= other.nanos)
    }
}

/// One completed operation: when it finished, where, and how much moved.
#[derive(Debug, Clone, Copy, PartialEq, Eq, Structural)]
pub struct Log {
    pub elapsed: Elapsed,
    pub offset: u64,
    pub complete_bs: u64,
}

/// The offset of operation `i`: sequential modes sweep block by block; random
/// modes take the block that `draw` names.
pub open spec fn offset_spec(io: Io, i: nat, bs: nat, draw: nat) -> nat {
    if random_spec(io) {
        bs * draw
    } else {
        bs * i
    }
}

/// The offsets that operation `i` may use: its block in a sweep, or any
/// block-aligned offset of the swept region in a random mode.
pub open spec fn offset_allowed(io: Io, i: nat, bs: nat, count: nat, offset: nat) -> bool {
    if random_spec(io) {
        &&& offset % bs == 0
        &&& offset < bs * count
    } else {
        offset == i * bs
    }
}

/// A log that a run of `config` may have produced so far: no more entries than
/// operations, each offset allowed for its position, no transfer over one block,
/// and times that never go backwards.
pub open spec fn log_allowed(config: Config, logs: Seq<Log>) -> bool {
    &&& logs.len() <= config.count
    &&& forall|i: int|
        0 <= i < logs.len() ==> #[trigger] logs[i].elapsed.wf() && offset_allowed(
            config.io_type,
            i as nat,
            config.bs as nat,
            config.count as nat,
            logs[i].offset as nat,
        ) && logs[i].complete_bs <= config.bs
    &&& forall|i: int, j: int|
        0 <= i <= j < logs.len() ==> #[trigger] logs[i].elapsed.total_nanos()
            <= #[trigger] logs[j].elapsed.total_nanos()
}

proof fn lemma_offset_allowed(io: Io, i: nat, bs: nat, count: nat, draw: nat)
    requires
        bs > 0,
        i < count,
        draw < count,
    ensures
        offset_allowed(io, i, bs, count, offset_spec(io, i, bs, draw)),
{
    if random_spec(io) {
        assert((bs * draw) % bs == 0) by (nonlinear_arith)
            requires
                bs > 0,
        {
            vstd::arithmetic::div_mod::lemma_mod_multiples_basic(draw as int, bs as int);
        }
        assert(bs * draw < bs * count) by (nonlinear_arith)
            requires
                bs > 0,
                draw < count,
        ;
    } else {
        assert(bs * i == i * bs) by (nonlinear_arith);
    }
}

/// The offset of operation `i`, given the block index `draw` for random modes.
pub fn offset_for(io: Io, i: u64, bs: u64, count: u64, draw: u64) -> (r: u64)
    requires
        bs * count <= u64::MAX,
        i < count,
        draw < count,
    ensures
        r == offset_spec(io, i as nat, bs as nat, draw as nat),
{
    let k = if io.is_random() {
        draw
    } else {
        i
    };
    assert(bs * k <= bs * count) by (nonlinear_arith)
        requires
            k < count,
    ;
    bs * k
}

#[verifier::external_type_specification]
#[verifier::external_body]
pub struct ExThreadRng(rand::rngs::ThreadRng);

/// Relies on rand's `thread_rng`: a generator seeded from the operating
/// system's entropy source.
#[verifier::external_body]
fn seeded_rng() -> (r: rand::rngs::ThreadRng) {
    rand::thread_rng()
}

/// Relies on rand's `Rng::gen_range` over the half-open range `0..n`: the value
/// lies in that range, and only an empty range panics.
#[verifier::external_body]
fn draw_below(rng: &mut rand::rngs::ThreadRng, n: u64) -> (r: u64)
    requires
        n > 0,
    ensures
        r < n,
{
    rng.gen_range(0..n)
}

/// A benchmark in progress: its workload, the generator that random modes
/// draw from, and the log of the operations completed so far.
pub struct Bench {
    config: Config,
    rng: rand::rngs::ThreadRng,
    logs: Vec<Log>,
}

impl Bench {
    pub closed spec fn config_spec(&self) -> Config {
        self.config
    }

    pub closed spec fn logs_spec(&self) -> Seq<Log> {
        self.logs@
    }

    pub open spec fn wf(&self) -> bool {
        &&& self.config_spec().wf()
        &&& log_allowed(self.config_spec(), self.logs_spec())
    }

    /// A fresh benchmark of `config`, with an empty log.
    pub fn new(config: Config) -> (b: Bench)
        requires
            config.wf(),
        ensures
            b.wf(),
            b.config_spec() == config,
            b.logs_spec() == Seq::<Log>::empty(),
    {
        Bench { config, rng: seeded_rng(), logs: Vec::new() }
    }

    /// The workload being run.
    pub fn config(&self) -> (r: &Config)
        ensures
            *r == self.config_spec(),
    {
        &self.config
    }

    /// The entries logged so far, in the order the operations were issued.
    pub fn logs(&self) -> (r: &Vec<Log>)
        ensures
            r@ == self.logs_spec(),
    {
        &self.logs
    }

    /// Whether every operation of the workload has been logged.
    pub fn is_done(&self) -> (r: bool)
        requires
            self.wf(),
        ensures
            r == (self.logs_spec().len() == self.config_spec().count),
    {
        self.logs.len() as u64 == self.config.count
    }

    /// The offset for operation `i`. Sequential modes use `i * bs`; random
    /// modes draw a block index uniformly from `[0, count)`.
    pub fn seek(&mut self, i: u64) -> (offset: u64)
        requires
            old(self).wf(),
            i < old(self).config_spec().count,
        ensures
            final(self).wf(),
            final(self).config_spec() == old(self).config_spec(),
            final(self).logs_spec() == old(self).logs_spec(),
            offset_allowed(
                old(self).config_spec().io_type,
                i as nat,
                old(self).config_spec().bs as nat,
                old(self).config_spec().count as nat,
                offset as nat,
            ),
            !random_spec(old(self).config_spec().io_type) ==> offset == i * old(self).config_spec().bs,
    {
        let draw = if self.config.io_type.is_random() {
            draw_below(&mut self.rng, self.config.count)
        } else {
            0
        };
        proof {
            lemma_offset_allowed(
                self.config.io_type,
                i as nat,
                self.config.bs as nat,
                self.config.count as nat,
                draw as nat,
            );
        }
        offset_for(self.config.io_type, i, self.config.bs, self.config.count, draw)
    }

    /// Appends the log entry of the next operation.
    pub fn record(&mut self, elapsed: Elapsed, offset: u64, complete_bs: u64)
        requires
            old(self).wf(),
            old(self).logs_spec().len() < old(self).config_spec().count,
            elapsed.wf(),
            old(self).logs_spec().len() > 0 ==> old(self).logs_spec().last().elapsed.total_nanos()
                <= elapsed.total_nanos(),
            offset_allowed(
                old(self).config_spec().io_type,
                old(self).logs_spec().len(),
                old(self).config_spec().bs as nat,
                old(self).config_spec().count as nat,
                offset as nat,
            ),
            complete_bs <= old(self).config_spec().bs,
        ensures
            final(self).wf(),
            final(self).config_spec() == old(self).config_spec(),
            final(self).logs_spec() == old(self).logs_spec().push(
                Log { elapsed, offset, complete_bs },
            ),
    {
        let ghost before = self.logs@;
        self.logs.push(Log { elapsed, offset, complete_bs });
        proof {
            let logs = self.logs@;
            assert forall|i: int, j: int|
                0 <= i <= j < logs.len() implies #[trigger] logs[i].elapsed.total_nanos()
                <= #[trigger] logs[j].elapsed.total_nanos() by {
                if j == before.len() && i < j {
                    assert(logs[i] == before[i]);
                    assert(before[i].elapsed.total_nanos() <= before[before.len() - 1].elapsed.total_nanos());
                } else if j < before.len() {
                    assert(logs[i] == before[i]);
                    assert(logs[j] == before[j]);
                }
            }
            assert forall|i: int| 0 <= i < logs.len() implies #[trigger] logs[i].elapsed.wf() && offset_allowed(
                self.config.io_type,
                i as nat,
                self.config.bs as nat,
                self.config.count as nat,
                logs[i].offset as nat,
            ) && logs[i].complete_bs <= self.config.bs by {
                if i < before.len() {
                    assert(logs[i] == before[i]);
                }
            }
        }
    }
}

/// A benchmark whose log is complete holds exactly one entry per operation,
/// with elapsed times that never decrease.
pub proof fn lemma_complete_log(b: Bench)
    requires
        b.wf(),
        b.logs_spec().len() == b.config_spec().count,
    ensures
        b.logs_spec().len() == b.config_spec().count,
        forall|i: int, j: int|
            0 <= i <= j < b.logs_spec().len() ==> #[trigger] b.logs_spec()[i].elapsed.total_nanos()
                <= #[trigger] b.logs_spec()[j].elapsed.total_nanos(),
{
}

/// Every logged offset follows the mode: entry `i` of a sequential run is at
/// `i * bs`; every entry of a random run is block-aligned and lies below
/// `bs * count`.
pub proof fn lemma_logged_offsets(b: Bench)
    requires
        b.wf(),
    ensures
        forall|i: int|
            0 <= i < b.logs_spec().len() ==> {
                let c = b.config_spec();
                let off = (#[trigger] b.logs_spec()[i]).offset;
                if random_spec(c.io_type) {
                    off % c.bs == 0 && off < c.bs * c.count
                } else {
                    off == i * c.bs
                }
            },
{
    let c = b.config_spec();
    assert forall|i: int| 0 <= i < b.logs_spec().len() implies {
        let off = (#[trigger] b.logs_spec()[i]).offset;
        if random_spec(c.io_type) {
            off % c.bs == 0 && off < c.bs * c.count
        } else {
            off == i * c.bs
        }
    } by {
        assert(b.logs_spec()[i].elapsed.wf());
    }
}

} // verus!
