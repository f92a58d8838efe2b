//! The workload descriptor: I/O mode, block size, operation count, target size.
use vstd::prelude::*;

verus! {

/// Name of the target file that the benchmark reads and writes.
pub const TARGET_FILE_NAME: &'static str = "benchmark-io.bin";

/// Name under which the program announces itself.
pub const PROGRAM_NAME: &'static str = "benchmark-io-rust";

/// Bytes in one GiB.
pub const GIB: u64 = 1073741824;

/// The four workload shapes: random or sequential, read or write.
#[derive(Debug, Clone, Copy, PartialEq, Eq, Structural)]
pub enum Io {
    RandRead,
    RandWrite,
    SeqRead,
    SeqWrite,
}

/// Two-letter tag of a mode, as written into each log row.
pub open spec fn abbrev_of(io: Io) -> Seq<char> {
    match io {
        Io::RandRead => seq!['R', 'R'],
        Io::RandWrite => seq!['R', 'W'],
        Io::SeqRead => seq!['S', 'R'],
        Io::SeqWrite => seq!['S', 'W'],
    }
}

/// Random modes draw their offsets; sequential modes sweep the file.
pub open spec fn random_spec(io: Io) -> bool {
    io is RandRead || io is RandWrite
}

/// Write modes transfer the buffer to the file; read modes fill it.
pub open spec fn write_spec(io: Io) -> bool {
    io is RandWrite || io is SeqWrite
}

impl Io {
    /// The mode's two-letter tag: `RR`, `RW`, `SR` or `SW`.
    pub fn to_abbrev(&self) -> (r: &str)
        ensures
            r@ == abbrev_of(*self),
    {
        proof {
            reveal_strlit("RR");
            reveal_strlit("RW");
            reveal_strlit("SR");
            reveal_strlit("SW");
        }
        match self {
            Io::RandRead => "RR",
            Io::RandWrite => "RW",
            Io::SeqRead => "SR",
            Io::SeqWrite => "SW",
        }
    }

    /// Human-readable name of the mode.
    pub fn name(&self) -> (r: &'static str)
        ensures
            r@ == match *self {
                Io::RandRead => "Random read"@,
                Io::RandWrite => "Random write"@,
                Io::SeqRead => "Sequential read"@,
                Io::SeqWrite => "Sequential write"@,
            },
    {
        match self {
            Io::RandRead => "Random read",
            Io::RandWrite => "Random write",
            Io::SeqRead => "Sequential read",
            Io::SeqWrite => "Sequential write",
        }
    }

    /// Whether offsets are drawn at random rather than swept in order.
    pub fn is_random(&self) -> (r: bool)
        ensures
            r == random_spec(*self),
    {
        match self {
            Io::RandRead | Io::RandWrite => true,
            Io::SeqRead | Io::SeqWrite => false,
        }
    }

    /// Whether each operation writes rather than reads.
    pub fn is_write(&self) -> (r: bool)
        ensures
            r == write_spec(*self),
    {
        match self {
            Io::RandWrite | Io::SeqWrite => true,
            Io::RandRead | Io::SeqRead => false,
        }
    }
}

/// The command-line options as parsed: one flag per mode, sizes as given.
#[allow(non_snake_case)]
#[derive(Debug)]
pub struct Args {
    pub arg_WORKDIR: String,
    pub flag_bs: u64,
    pub flag_count: u64,
    pub flag_filesize_gib: u64,
    pub flag_rread: bool,
    pub flag_rwrite: bool,
    pub flag_sread: bool,
    pub flag_swrite: bool,
    pub flag_no_clear_cache: bool,
    pub flag_no_write_log: bool,
}

/// The mode that the flags select: the first one set, in the order
/// random read, random write, sequential read, sequential write.
pub open spec fn mode_of_flags(rread: bool, rwrite: bool, sread: bool, swrite: bool) -> Io
    recommends
        rread || rwrite || sread || swrite,
{
    if rread {
        Io::RandRead
    } else if rwrite {
        Io::RandWrite
    } else if sread {
        Io::SeqRead
    } else {
        Io::SeqWrite
    }
}

/// A validated workload: where to run, which mode, and the sizes.
#[derive(Debug)]
pub struct Config {
    pub program: &'static str,
    pub workdir: String,
    pub io_type: Io,
    pub bs: u64,
    pub count: u64,
    pub filesize: u64,
    pub clear_cache: bool,
    pub write_log: bool,
}

impl Config {
    /// A workload the engine can run: positive block size and count, and a
    /// swept region `bs * count` that fits in a 64-bit offset.
    pub open spec fn wf(&self) -> bool {
        &&& self.bs > 0
        &&& self.count > 0
        &&& self.bs * self.count <= u64::MAX
        &&& self.bs <= usize::MAX
    }

    /// The workload that parsed options describe; the file size is given in
    /// GiB and kept in bytes.
    pub fn from(args: Args) -> (c: Config)
        requires
            args.flag_rread || args.flag_rwrite || args.flag_sread || args.flag_swrite,
            args.flag_filesize_gib * GIB <= u64::MAX,
        ensures
            c.program@ == PROGRAM_NAME@,
            c.workdir@ == args.arg_WORKDIR@,
            c.io_type == mode_of_flags(
                args.flag_rread,
                args.flag_rwrite,
                args.flag_sread,
                args.flag_swrite,
            ),
            c.bs == args.flag_bs,
            c.count == args.flag_count,
            c.filesize == args.flag_filesize_gib * GIB,
            c.clear_cache == !args.flag_no_clear_cache,
            c.write_log == !args.flag_no_write_log,
    {
        let io_type = if args.flag_rread {
            Io::RandRead
        } else if args.flag_rwrite {
            Io::RandWrite
        } else if args.flag_sread {
            Io::SeqRead
        } else {
            Io::SeqWrite
        };
        Config {
            program: PROGRAM_NAME,
            workdir: args.arg_WORKDIR,
            io_type,
            bs: args.flag_bs,
            count: args.flag_count,
            filesize: args.flag_filesize_gib * GIB,
            clear_cache: !args.flag_no_clear_cache,
            write_log: !args.flag_no_write_log,
        }
    }

    /// Whether this workload meets `wf`, for callers that hold a value of
    /// unknown origin.
    pub fn is_valid(&self) -> (r: bool)
        ensures
            r == self.wf(),
    {
        if self.count > 0 {
            let q = u64::MAX / self.count;
            assert(self.bs <= q <==> self.bs * self.count <= u64::MAX) by (nonlinear_arith)
                requires
                    self.count > 0,
                    q == u64::MAX / self.count,
            {
                assert(q * self.count <= u64::MAX);
                assert(u64::MAX < (q + 1) * self.count);
            }
        }
        self.bs > 0 && self.count > 0 && self.bs <= u64::MAX / self.count
            && self.bs as u128 <= usize::MAX as u128
    }

    /// The path of `filename` inside the working directory.
    pub fn path_for(&self, filename: &str) -> (r: std::path::PathBuf)
        ensures
            r == joined_path(self.workdir@, filename@),
    {
        join_path(self.workdir.as_str(), filename)
    }
}

#[verifier::external_type_specification]
#[verifier::external_body]
pub struct ExPathBuf(std::path::PathBuf);

/// The path that `Path::join` builds from a directory and a file name.
pub uninterp spec fn joined_path(dir: Seq<char>, name: Seq<char>) -> std::path::PathBuf;

/// Relies on std's `Path::join`: the result is a function of the two
/// path strings alone.
#[verifier::external_body]
fn join_path(dir: &str, name: &str) -> (r: std::path::PathBuf)
    ensures
        r == joined_path(dir@, name@),
{
    std::path::Path::new(dir).join(name)
}

} // verus!
