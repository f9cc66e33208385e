use std::collections::VecDeque;
use station_stats::coordinator::{Coordinator, RunError, Step};
use station_stats::records::{read_buf_between_offsets, Fault, ParseError};
use station_stats::report::report;
use station_stats::run::aggregate;
use station_stats::table::Table;

fn work(chunk: &[u8]) -> Result<Table, ParseError> {
    let mut t = Table::new();
    read_buf_between_offsets(chunk, &mut t).map(|_| t)
}

fn drive(data: &[u8], target: usize, limit: usize, cap: usize) -> (Result<Table, RunError>, usize) {
    let mut run = Coordinator::new(target, limit, cap);
    let mut queue: VecDeque<(u64, Vec<u8>)> = VecDeque::new();
    let mut most = 0;
    loop {
        match run.next_step() {
            Step::Read { offset, len } => {
                let start = offset as usize;
                let end = if data.len() - start < len { data.len() } else { start + len };
                let buf = &data[start..end];
                if let Some(n) = run.chunk_read(buf) {
                    queue.push_back((offset, buf[..n].to_vec()));
                    most = most.max(queue.len());
                }
            }
            Step::Join => {
                let (base, chunk) = queue.pop_front().unwrap();
                run.worker_done(base, work(&chunk));
            }
            Step::Finish => {
                assert!(queue.is_empty());
                return (run.finish(), most);
            }
        }
    }
}

fn lines_of(table: &Table) -> Vec<String> {
    report(table).into_iter().map(|l| String::from_utf8(l).unwrap()).collect()
}

#[test]
fn a_run_begins_with_a_read_at_the_start() {
    let run = Coordinator::new(16, 64, 2);
    assert_eq!(run.next_step(), Step::Read { offset: 0, len: 16 });
}

#[test]
fn a_chunk_ends_before_the_last_newline_of_the_buffer() {
    let mut run = Coordinator::new(8, 64, 2);
    assert_eq!(run.chunk_read(b"A;1.0\nB;"), Some(5));
    assert_eq!(run.next_step(), Step::Read { offset: 6, len: 8 });
    assert_eq!(run.chunk_read(b"B;2.0\n"), Some(6));
    assert_eq!(run.next_step(), Step::Join);
}

#[test]
fn no_more_workers_than_the_cap_are_busy() {
    let mut run = Coordinator::new(8, 64, 1);
    assert_eq!(run.chunk_read(b"A;1.0\nB;"), Some(5));
    assert_eq!(run.next_step(), Step::Join);
    run.worker_done(0, work(b"A;1.0"));
    assert_eq!(run.next_step(), Step::Read { offset: 6, len: 8 });
    let mut text = Vec::new();
    for i in 0..200 {
        text.extend_from_slice(format!("S{};{}.5\n", i % 9, i).as_bytes());
    }
    for cap in 1..6 {
        let (r, most) = drive(&text, 32, 1024, cap);
        assert!(r.is_ok());
        assert_eq!(most, cap);
    }
}

#[test]
fn a_buffer_without_newline_is_read_again_with_twice_the_size() {
    let mut run = Coordinator::new(4, 20, 2);
    assert_eq!(run.chunk_read(b"ABCD"), None);
    assert_eq!(run.next_step(), Step::Read { offset: 0, len: 8 });
    assert_eq!(run.chunk_read(b"ABCDEFGH"), None);
    assert_eq!(run.next_step(), Step::Read { offset: 0, len: 16 });
    assert_eq!(run.chunk_read(b"ABCDEFGHIJKLMNOP"), None);
    assert_eq!(run.next_step(), Step::Read { offset: 0, len: 20 });
    assert_eq!(run.chunk_read(b"ABCDEFGHIJKLM;1.0\nXY"), Some(17));
    assert_eq!(run.next_step(), Step::Read { offset: 18, len: 4 });
    assert_eq!(run.chunk_read(b"XY"), None);
    assert_eq!(run.next_step(), Step::Join);
}

#[test]
fn a_line_that_does_not_fit_the_limit_fails_the_run() {
    let mut run = Coordinator::new(4, 8, 1);
    assert_eq!(run.chunk_read(b"ABCD"), None);
    assert_eq!(run.next_step(), Step::Read { offset: 0, len: 8 });
    assert_eq!(run.chunk_read(b"ABCDEFGH"), None);
    assert_eq!(run.next_step(), Step::Finish);
    assert_eq!(run.finish().unwrap_err(), RunError::OversizedRecord { offset: 0 });
    let (r, _) = drive(b"A;1.0\nB;2.0\nCCCCCCCCCCCCCCCCCCCCCCCCCCCCCCCCCCCCCCCC;3.0\n", 8, 16, 2);
    assert_eq!(r.unwrap_err(), RunError::OversizedRecord { offset: 12 });
}

#[test]
fn a_short_buffer_is_the_last_chunk() {
    let mut run = Coordinator::new(16, 64, 2);
    assert_eq!(run.chunk_read(b"A;1.0\nA;2.0"), Some(11));
    assert_eq!(run.next_step(), Step::Join);
    run.worker_done(0, work(b"A;1.0\nA;2.0"));
    assert_eq!(run.next_step(), Step::Finish);
    let t = run.finish().unwrap();
    assert_eq!(lines_of(&t), vec!["A -> min: 1, max: 2, mean: 1.5"]);
}

#[test]
fn fewer_than_four_bytes_end_the_run() {
    let mut run = Coordinator::new(16, 64, 2);
    assert_eq!(run.chunk_read(b"A;1"), None);
    assert_eq!(run.next_step(), Step::Finish);
    assert_eq!(run.finish().unwrap().len(), 0);
}

#[test]
fn a_run_gives_the_table_of_the_text() {
    let mut text = Vec::new();
    for i in 0..500i64 {
        text.extend_from_slice(format!("Station {};{}.{}\n", i % 13, i % 90 - 45, i % 10).as_bytes());
    }
    let whole = lines_of(&aggregate(&text).unwrap());
    assert_eq!(whole.len(), 13);
    for target in [4usize, 5, 16, 17, 64, 1000, 1 << 16] {
        for cap in [1usize, 3, 8] {
            let (r, _) = drive(&text, target, 1 << 16, cap);
            assert_eq!(lines_of(&r.unwrap()), whole);
        }
    }
}

#[test]
fn a_fault_of_a_worker_fails_the_run_with_its_place_in_the_file() {
    let text = b"Good;1.0\nBadLineWithoutSemicolon\nGood;2.0";
    for target in [4usize, 8, 16, 64] {
        for cap in [1usize, 2, 4] {
            let (r, _) = drive(text, target, 64, cap);
            assert_eq!(
                r.unwrap_err(),
                RunError::Format { fault: Fault::MissingSeparator, offset: 9 }
            );
        }
    }
}

#[test]
fn after_a_failure_nothing_is_read_and_results_are_dropped() {
    let mut run = Coordinator::new(8, 64, 3);
    assert_eq!(run.chunk_read(b"A;1.0\nB;"), Some(5));
    assert_eq!(run.chunk_read(b"B;x.0\nC;"), Some(5));
    assert_eq!(run.chunk_read(b"C;3.0\nD;"), Some(5));
    assert_eq!(run.next_step(), Step::Join);
    run.worker_done(0, work(b"A;1.0"));
    assert_eq!(run.next_step(), Step::Read { offset: 18, len: 8 });
    run.worker_done(6, work(b"B;x.0"));
    assert_eq!(run.next_step(), Step::Join);
    run.worker_done(12, Err(ParseError { fault: Fault::EmptyName, offset: 1 }));
    assert_eq!(run.next_step(), Step::Finish);
    assert_eq!(run.finish().unwrap_err(), RunError::Format { fault: Fault::BadNumber, offset: 6 });
}

#[test]
fn the_offset_of_a_fault_stays_within_u64() {
    let mut run = Coordinator::new(8, 64, 1);
    assert_eq!(run.chunk_read(b"A;1.0\nB;"), Some(5));
    run.worker_done(u64::MAX - 1, Err(ParseError { fault: Fault::EmptyName, offset: 3 }));
    assert_eq!(
        run.finish().unwrap_err(),
        RunError::Format { fault: Fault::EmptyName, offset: u64::MAX }
    );
}

#[test]
fn more_records_than_can_be_counted_fail_the_run() {
    let mut big = Table::new();
    big.record(b"A", 10);
    for _ in 0..63 {
        let c = big.clone();
        assert!(big.merge(c).is_ok());
    }
    assert_eq!(big.records(), 1 << 63);
    let mut run = Coordinator::new(8, 64, 2);
    assert_eq!(run.chunk_read(b"A;1.0\nB;"), Some(5));
    assert_eq!(run.chunk_read(b"B;2.0\n"), Some(6));
    run.worker_done(0, Ok(big.clone()));
    assert_eq!(run.next_step(), Step::Join);
    run.worker_done(6, Ok(big));
    assert_eq!(run.next_step(), Step::Finish);
    assert_eq!(run.finish().unwrap_err(), RunError::TooManyRecords);
}
