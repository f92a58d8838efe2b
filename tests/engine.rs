use benchmark_io_rust::bench::{offset_for, Bench, Elapsed, Log};
use benchmark_io_rust::cli::{Args, Config, Io, GIB, PROGRAM_NAME, TARGET_FILE_NAME};
use benchmark_io_rust::logfile::render_log;
use benchmark_io_rust::summary::{summarize, Summary};
use std::path::PathBuf;

fn config(io_type: Io, bs: u64, count: u64) -> Config {
    Config {
        program: PROGRAM_NAME,
        workdir: "/tmp/work".to_string(),
        io_type,
        bs,
        count,
        filesize: GIB,
        clear_cache: false,
        write_log: false,
    }
}

fn args(rread: bool, rwrite: bool, sread: bool, swrite: bool) -> Args {
    Args {
        arg_WORKDIR: "work".to_string(),
        flag_bs: 4096,
        flag_count: 100000,
        flag_filesize_gib: 2,
        flag_rread: rread,
        flag_rwrite: rwrite,
        flag_sread: sread,
        flag_swrite: swrite,
        flag_no_clear_cache: true,
        flag_no_write_log: false,
    }
}

#[test]
fn abbreviations_of_modes() {
    assert_eq!(Io::RandRead.to_abbrev(), "RR");
    assert_eq!(Io::RandWrite.to_abbrev(), "RW");
    assert_eq!(Io::SeqRead.to_abbrev(), "SR");
    assert_eq!(Io::SeqWrite.to_abbrev(), "SW");
    assert_eq!(Io::SeqWrite.name(), "Sequential write");
    assert_eq!(Io::RandRead.name(), "Random read");
}

#[test]
fn mode_facets() {
    assert!(Io::RandRead.is_random() && !Io::RandRead.is_write());
    assert!(Io::RandWrite.is_random() && Io::RandWrite.is_write());
    assert!(!Io::SeqRead.is_random() && !Io::SeqRead.is_write());
    assert!(!Io::SeqWrite.is_random() && Io::SeqWrite.is_write());
}

#[test]
fn config_from_args() {
    let c = Config::from(args(false, false, true, false));
    assert_eq!(c.io_type, Io::SeqRead);
    assert_eq!(c.program, "benchmark-io-rust");
    assert_eq!(c.workdir, "work");
    assert_eq!(c.bs, 4096);
    assert_eq!(c.count, 100000);
    assert_eq!(c.filesize, 2u64 << 30);
    assert!(!c.clear_cache);
    assert!(c.write_log);
    assert_eq!(Config::from(args(false, true, true, false)).io_type, Io::RandWrite);
    assert_eq!(Config::from(args(true, true, true, true)).io_type, Io::RandRead);
    assert_eq!(Config::from(args(false, false, false, true)).io_type, Io::SeqWrite);
}

#[test]
fn config_validity() {
    assert!(config(Io::SeqRead, 4096, 5).is_valid());
    assert!(!config(Io::SeqRead, 0, 5).is_valid());
    assert!(!config(Io::SeqRead, 4096, 0).is_valid());
    assert!(!config(Io::SeqRead, 1 << 40, 1 << 30).is_valid());
    assert!(config(Io::SeqRead, 1 << 32, (1 << 32) - 1).is_valid());
}

#[test]
fn path_for_joins_workdir() {
    let c = config(Io::SeqRead, 4096, 5);
    assert_eq!(c.path_for(TARGET_FILE_NAME), PathBuf::from("/tmp/work/benchmark-io.bin"));
}

#[test]
fn offsets_of_each_mode() {
    assert_eq!(offset_for(Io::SeqWrite, 3, 4096, 5, 1), 12288);
    assert_eq!(offset_for(Io::SeqRead, 0, 512, 10, 9), 0);
    assert_eq!(offset_for(Io::RandRead, 3, 4096, 5, 1), 4096);
    assert_eq!(offset_for(Io::RandWrite, 0, 512, 10, 9), 4608);
}

#[test]
fn sequential_write_scenario() {
    let mut b = Bench::new(config(Io::SeqWrite, 4096, 5));
    let mut offsets = Vec::new();
    for i in 0..5u64 {
        let off = b.seek(i);
        offsets.push(off);
        b.record(Elapsed::new(0, 1000 * (i as u32 + 1)), off, 4096);
    }
    assert_eq!(offsets, vec![0, 4096, 8192, 12288, 16384]);
    assert_eq!(b.logs().len(), 5);
    assert!(b.is_done());
}

#[test]
fn random_offsets_are_aligned_and_in_range() {
    let mut b = Bench::new(config(Io::RandRead, 512, 1000));
    for i in 0..1000u64 {
        let off = b.seek(i);
        assert_eq!(off % 512, 0);
        assert!(off < 512 * 1000);
        b.record(Elapsed::new(i, 0), off, 0);
    }
    assert!(b.is_done());
    assert!(b.logs().iter().all(|l| l.complete_bs == 0));
}

#[test]
fn log_grows_in_order() {
    let mut b = Bench::new(config(Io::SeqRead, 512, 3));
    assert!(!b.is_done());
    assert_eq!(b.summary(), None);
    let off = b.seek(0);
    b.record(Elapsed::new(0, 5), off, 512);
    let off = b.seek(1);
    b.record(Elapsed::new(0, 5), off, 100);
    assert!(!b.is_done());
    let off = b.seek(2);
    b.record(Elapsed::new(1, 0), off, 0);
    assert!(b.is_done());
    let logs = b.logs();
    assert_eq!(logs.len(), 3);
    for w in logs.windows(2) {
        assert!(w[0].elapsed.not_after(&w[1].elapsed));
    }
    assert_eq!(logs[1].offset, 512);
    assert_eq!(logs[2].complete_bs, 0);
}

#[test]
fn elapsed_ordering() {
    assert!(Elapsed::new(1, 5).not_after(&Elapsed::new(1, 5)));
    assert!(Elapsed::new(0, 999_999_999).not_after(&Elapsed::new(1, 0)));
    assert!(!Elapsed::new(2, 0).not_after(&Elapsed::new(1, 999_999_999)));
}

#[test]
fn summary_of_empty_log_is_none() {
    assert_eq!(summarize(&Vec::new(), 10), None);
}

#[test]
fn summary_figures() {
    let logs = vec![
        Log { elapsed: Elapsed::new(0, 500_000_000), offset: 0, complete_bs: 1 << 20 },
        Log { elapsed: Elapsed::new(2, 0), offset: 1 << 20, complete_bs: 1 << 20 },
    ];
    let s = summarize(&logs, 2).unwrap();
    assert_eq!(s, Summary { elapsed: Elapsed::new(2, 0), total_complete_bs: 2 << 20, count: 2 });
    assert_eq!(s.elapsed_millis(), 2000);
    assert_eq!(s.throughput_milli_mibps(), Some(1000));
    assert_eq!(s.iops_milli(), Some(1000));
    assert_eq!(s.mean_latency_micros(), Some(1_000_000));
}

#[test]
fn summary_rounds_to_nearest_thousandth() {
    let logs = vec![Log { elapsed: Elapsed::new(0, 3_000_000), offset: 0, complete_bs: 1000 }];
    let s = summarize(&logs, 7).unwrap();
    assert_eq!(s.elapsed_millis(), 3);
    // 7 / 0.003 s = 2333.333... IOPS
    assert_eq!(s.iops_milli(), Some(2_333_333));
    // 0.003 s / 7 = 0.428571... ms
    assert_eq!(s.mean_latency_micros(), Some(429));
    // 1000 B / 2^20 / 0.003 s = 0.31789... MiB/s
    assert_eq!(s.throughput_milli_mibps(), Some(318));
    let zero = Summary { elapsed: Elapsed::new(0, 0), total_complete_bs: 5, count: 1 };
    assert_eq!(zero.throughput_milli_mibps(), None);
    assert_eq!(zero.iops_milli(), None);
    assert_eq!(zero.elapsed_millis(), 0);
}

#[test]
fn bench_summary_matches_log() {
    let mut b = Bench::new(config(Io::SeqWrite, 4096, 2));
    let off = b.seek(0);
    b.record(Elapsed::new(0, 250_000_000), off, 4096);
    let off = b.seek(1);
    b.record(Elapsed::new(0, 500_000_000), off, 2048);
    let s = b.summary().unwrap();
    assert_eq!(s.elapsed, Elapsed::new(0, 500_000_000));
    assert_eq!(s.total_complete_bs, 6144);
    assert_eq!(s.iops_milli(), Some(4000));
}

#[test]
fn log_text_rows() {
    let logs = vec![
        Log { elapsed: Elapsed::new(0, 1234), offset: 0, complete_bs: 4096 },
        Log { elapsed: Elapsed::new(12, 999_999_999), offset: 4096, complete_bs: 17 },
    ];
    let text = render_log(Io::SeqWrite, 4096, &logs);
    assert_eq!(
        String::from_utf8(text).unwrap(),
        "elapsed_time,io_type,offset,issue_bs,complete_s\n\
         0.000001234,SW,0,4096,4096\n\
         12.999999999,SW,4096,4096,17\n"
    );
    let empty = render_log(Io::RandRead, 512, &Vec::new());
    assert_eq!(String::from_utf8(empty).unwrap(), "elapsed_time,io_type,offset,issue_bs,complete_s\n");
}

#[test]
fn dump_logs_of_bench() {
    let mut b = Bench::new(config(Io::RandRead, 512, 1));
    let off = b.seek(0);
    b.record(Elapsed::new(3, 40), off, 0);
    let text = String::from_utf8(b.dump_logs()).unwrap();
    let row = text.lines().nth(1).unwrap().to_string();
    assert_eq!(row, format!("3.000000040,RR,{},512,0", off));
    assert_eq!(text.lines().count(), 2);
}
