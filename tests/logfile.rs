use benchmark_io_rust::bench::{Bench, Elapsed, Log};
use benchmark_io_rust::cli::{Config, Io, GIB, PROGRAM_NAME};
use benchmark_io_rust::logfile::render_log;
use benchmark_io_rust::logparse::{parse_log, parse_row, LogRow};
use benchmark_io_rust::summary::{entries_of_rows, summarize};

fn bytes(s: &str) -> Vec<u8> {
    s.as_bytes().to_vec()
}

#[test]
fn round_trip_of_written_log() {
    let logs = vec![
        Log { elapsed: Elapsed::new(0, 7), offset: 0, complete_bs: 4096 },
        Log { elapsed: Elapsed::new(1, 0), offset: 4096, complete_bs: 100 },
        Log { elapsed: Elapsed::new(18_446_744_073_709_551_615, 999_999_999), offset: u64::MAX, complete_bs: 0 },
    ];
    let text = render_log(Io::SeqWrite, 4096, &logs);
    let rows = parse_log(&text).unwrap();
    assert_eq!(rows.len(), 3);
    for (row, log) in rows.iter().zip(logs.iter()) {
        assert_eq!(row.log, *log);
        assert_eq!(row.io_type, Io::SeqWrite);
        assert_eq!(row.issue_bs, 4096);
    }
}

#[test]
fn round_trip_of_empty_log() {
    let text = render_log(Io::RandRead, 512, &Vec::new());
    assert_eq!(parse_log(&text), Some(Vec::new()));
}

#[test]
fn parse_of_hand_written_file() {
    let text = bytes("elapsed_time,io_type,offset,issue_bs,complete_s\n2.000000500,RW,1024,512,512\n");
    let rows = parse_log(&text).unwrap();
    assert_eq!(
        rows,
        vec![LogRow {
            log: Log { elapsed: Elapsed::new(2, 500), offset: 1024, complete_bs: 512 },
            io_type: Io::RandWrite,
            issue_bs: 512,
        }]
    );
}

#[test]
fn parse_rejects_malformed_files() {
    let header = "elapsed_time,io_type,offset,issue_bs,complete_s\n";
    assert_eq!(parse_log(&bytes("")), None);
    assert_eq!(parse_log(&bytes("elapsed_time,io_type\n")), None);
    assert_eq!(parse_log(&bytes("Elapsed_time,io_type,offset,issue_bs,complete_s\n")), None);
    // nanoseconds need nine digits
    assert_eq!(parse_log(&bytes(&format!("{}1.5,SR,0,512,512\n", header))), None);
    // unknown mode tag
    assert_eq!(parse_log(&bytes(&format!("{}1.000000005,XR,0,512,512\n", header))), None);
    // missing final newline
    assert_eq!(parse_log(&bytes(&format!("{}1.000000005,SR,0,512,512", header))), None);
    // offset over 64 bits
    assert_eq!(parse_log(&bytes(&format!("{}1.000000005,SR,18446744073709551616,512,512\n", header))), None);
    // empty field
    assert_eq!(parse_log(&bytes(&format!("{}1.000000005,SR,,512,512\n", header))), None);
}

#[test]
fn parse_row_in_the_middle() {
    let text = bytes("xx10.000000001,SW,8192,4096,4096\nrest");
    let (row, next) = parse_row(&text, 2).unwrap();
    assert_eq!(row.log, Log { elapsed: Elapsed::new(10, 1), offset: 8192, complete_bs: 4096 });
    assert_eq!(row.io_type, Io::SeqWrite);
    assert_eq!(next, 33);
    assert_eq!(parse_row(&text, 0), None);
}

#[test]
fn summary_recomputed_from_written_log() {
    let config = Config {
        program: PROGRAM_NAME,
        workdir: "/tmp".to_string(),
        io_type: Io::RandRead,
        bs: 512,
        count: 4,
        filesize: GIB,
        clear_cache: true,
        write_log: true,
    };
    let mut b = Bench::new(config);
    for i in 0..4u64 {
        let off = b.seek(i);
        b.record(Elapsed::new(0, 100_000 * (i as u32 + 1)), off, if i == 3 { 0 } else { 512 });
    }
    let rows = parse_log(&b.dump_logs()).unwrap();
    let entries = entries_of_rows(&rows);
    let from_file = summarize(&entries, 4).unwrap();
    let in_memory = b.summary().unwrap();
    assert_eq!(from_file, in_memory);
    assert_eq!(from_file.total_complete_bs, 1536);
    assert_eq!(from_file.iops_milli(), Some(10_000_000));
}
