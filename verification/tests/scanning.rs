//! Lines, scans, chunks and whole runs.

use std::collections::BTreeMap;

use brc::hash::hash_name;
use brc::chunks::{chunk_bounds, chunk_count, next_line_start, LineStart, CHUNK};
use brc::lines::{check_readable, process_line_slow, take_line, MAX_LINE};
use brc::pipeline::merge_tables;
use brc::report::report;
use brc::scan::{Fault, Scanner, BLK};
use brc::table::{Entry, Table};

/// Scans a range of a file that arrives in blocks of `step` bytes.
fn scan_range(
    scanner: &mut Scanner,
    file: &[u8],
    range: (u64, u64),
    step: usize,
    table: &mut Table,
) -> Result<(), Fault> {
    scanner.begin(range.0, range.1);
    while let Some(off) = scanner.wants() {
        let from = file.len().min(off as usize);
        let to = file.len().min(from + step);
        scanner.feed(&file[from..to], table)?;
    }
    Ok(())
}

fn scan_file(file: &[u8], step: usize) -> Result<String, Fault> {
    let mut table = Table::new();
    scan_range(&mut Scanner::new(), file, (0, file.len() as u64), step, &mut table)?;
    Ok(shown(&table))
}

fn shown(t: &Table) -> String {
    String::from_utf8(report(t)).unwrap()
}

/// Finds a line start with reads of `step` bytes.
fn find_start(file: &[u8], off: u64, step: usize) -> u64 {
    let mut off = off;
    loop {
        let from = file.len().min(off as usize);
        let to = file.len().min(from + step);
        match next_line_start(&file[from..to], off, file.len() as u64) {
            LineStart::At(x) => return x,
            LineStart::ReadOn(x) => off = x,
        }
    }
}

#[test]
fn constants() {
    assert_eq!(MAX_LINE, 128);
    assert_eq!(BLK, 1 << 21);
    assert_eq!(CHUNK, 1 << 24);
}

#[test]
fn readable_lines() {
    for good in ["Oslo;1.2", "Oslo;1.23", "Oslo;1.2\r", ";0.0"] {
        assert!(check_readable(good.as_bytes()), "{good}");
    }
    for bad in ["", "Oslo", "Oslo;", "Oslo;1.", "Oslo;-.1", "Oslo; 1.2"] {
        assert!(!check_readable(bad.as_bytes()), "{bad}");
    }
}

#[test]
fn slow_and_fast_lines_agree() {
    for line in ["Oslo;1.2", "Abéché;-12.3", "x;99.9", "A name of some length;-0.1"] {
        let mut slow = Table::new();
        assert!(process_line_slow(line.as_bytes(), &mut slow));
        let mut buf = b"skip".to_vec();
        buf.extend_from_slice(line.as_bytes());
        buf.push(b'\n');
        buf.resize(4 + MAX_LINE, b'#');
        let (end, hash, val, adv) = take_line(&buf, 4).unwrap();
        assert_eq!(end + 1 + adv, 4 + line.len() + 1);
        assert_eq!(hash, hash_name(&buf[4..end]));
        let mut fast = Table::new();
        fast.record(&buf[4..end], hash, val);
        assert_eq!(shown(&slow), shown(&fast));
        // The second reading goes where the first went.
        assert!(process_line_slow(line.as_bytes(), &mut fast));
        assert_eq!(fast.entries().len(), 1);
        assert_eq!(fast.entries()[0].count, 2);
    }
}

#[test]
fn fast_lines_need_a_semicolon_and_a_point() {
    assert_eq!(take_line(b"Oslo", 0), None);
    assert_eq!(take_line(b"Oslo;1234", 0), None);
    assert_eq!(take_line(b"", 0), None);
    // Past the end there are zeros, and a zero is no digit.
    assert_eq!(take_line(b"Oslo;1", 0), Some((4, hash_name(b"Oslo"), 10, 4)));
    assert_eq!(take_line(b"Oslo;1.5", 0), Some((4, hash_name(b"Oslo"), 15, 4)));
    assert_eq!(take_line(b";-1.5\n", 0), Some((0, 0, -15, 5)));
}

#[test]
fn slow_lines_need_room() {
    let mut t = Table::new();
    t.merge_entry(b"a", &Entry { key_off: 0, key_len: 0, min: 0, max: 0, count: u32::MAX, sum: 0 });
    assert!(!process_line_slow(b"a;1.0", &mut t));
    assert_eq!(t.entries()[0].max, 0);
    let mut file = b"a;1.0\n".to_vec();
    file.resize(MAX_LINE, b'#');
    for range in [(0, 6), (0, 128)] {
        assert_eq!(scan_range(&mut Scanner::new(), &file, range, BLK, &mut t), Err(Fault::NoRoom));
        assert_eq!(t.entries()[0].max, 0);
    }
}

#[test]
fn scan_of_a_short_file() {
    let file = b"Oslo;1.2\nRome;20.1\nOslo;-3.5\n";
    assert_eq!(scan_file(file, BLK).unwrap(), "{Oslo=-3.5/-1.1/1.2, Rome=20.1/20.1/20.1}\n");
    // Without the newline at the end.
    assert_eq!(scan_file(&file[..file.len() - 1], BLK), scan_file(file, BLK));
}

#[test]
fn blocks_do_not_matter() {
    let mut file = Vec::new();
    for i in 0..400i32 {
        let v = (i * 7919) % 1999 - 999;
        let sign = if v < 0 { "-" } else { "" };
        let name = "station".repeat((i % 14) as usize + 1);
        file.extend_from_slice(format!("{name}{};{sign}{}.{}\n", i % 5, v.abs() / 10, v.abs() % 10).as_bytes());
    }
    let whole = scan_file(&file, BLK).unwrap();
    for step in [1usize, 2, 7, 63, 127, 128, 129, 1000, 4096] {
        assert_eq!(scan_file(&file, step).unwrap(), whole, "{step}");
    }
}

#[test]
fn scan_reads_the_lines_that_start_in_range() {
    let file = b"a;1.0\nb;2.0\nc;3.0\nd;4.0";
    let mut scanner = Scanner::new();
    for step in [1usize, 3, 100] {
        let mut t = Table::new();
        // The line of `c` starts in range, though it ends past it.
        scan_range(&mut scanner, file, (6, 13), step, &mut t).unwrap();
        assert_eq!(shown(&t), "{b=2.0/2.0/2.0, c=3.0/3.0/3.0}\n");
        // The scanner and the table go on with another range.
        scan_range(&mut scanner, file, (18, 23), step, &mut t).unwrap();
        assert_eq!(shown(&t), "{b=2.0/2.0/2.0, c=3.0/3.0/3.0, d=4.0/4.0/4.0}\n");
    }
}

#[test]
fn an_empty_range_wants_nothing() {
    let mut scanner = Scanner::new();
    assert_eq!(scanner.wants(), None);
    scanner.begin(5, 5);
    assert_eq!(scanner.wants(), None);
    scanner.begin(7, 5);
    assert_eq!(scanner.wants(), None);
    let mut t = Table::new();
    assert_eq!(scanner.feed(b"junk", &mut t), Ok(()));
    assert_eq!(shown(&t), "{}\n");
    scanner.begin(5, 9);
    assert_eq!(scanner.wants(), Some(5));
}

#[test]
fn malformed_lines_stop_a_scan() {
    // At the end of the file.
    for bad in ["Oslo", "Oslo;", "Oslo;-.1", ""] {
        let tail = format!("a;1.0\n{bad}\n");
        assert_eq!(scan_file(tail.as_bytes(), BLK), Err(Fault::Malformed), "{bad}");
    }
    // With look-ahead: no `;`, no point.
    assert_eq!(scan_file(&b"Oslo\n".repeat(40), BLK), Err(Fault::Malformed));
    assert_eq!(scan_file(&b"a;1234\n".repeat(40), BLK), Err(Fault::Malformed));
}

#[test]
fn lines_with_look_ahead_are_read_by_their_point() {
    // A carriage return is taken for the newline, which then starts a name.
    let mut file = b"a;1.0\r\n".to_vec();
    file.append(&mut b"a;1.0\n".repeat(30));
    assert_eq!(scan_file(&file, BLK).unwrap(), "{\na=1.0/1.0/1.0, a=1.0/1.0/1.0}\n");
    // At the end of the file what follows the value is ignored.
    assert_eq!(scan_file(b"a;1.0\r\n", BLK).unwrap(), "{a=1.0/1.0/1.0}\n");
}

#[test]
fn long_names_are_read_if_they_are_at_hand() {
    for len in [100usize, 119, 120, 123, 130, 500] {
        let name = "n".repeat(len);
        let line = format!("{name};1.0\n");
        let expected = format!("{{{name}=1.0/1.0/1.0}}\n");
        assert_eq!(scan_file(line.as_bytes(), BLK).unwrap(), expected);
        // Without the newline at the end.
        assert_eq!(scan_file(&line.as_bytes()[..len + 4], BLK).unwrap(), expected);
        // Byte by byte a line has to be shorter than the look-ahead.
        if line.len() <= MAX_LINE {
            assert_eq!(scan_file(line.as_bytes(), 1).unwrap(), expected);
        } else {
            assert_eq!(scan_file(line.as_bytes(), 1), Err(Fault::Malformed));
        }
    }
}

#[test]
fn a_line_cut_off_before_the_end_of_the_range_is_malformed() {
    let name = "n".repeat(130);
    let line = format!("{name};1.0\n");
    let mut scanner = Scanner::new();
    let mut t = Table::new();
    scanner.begin(0, 1000);
    assert_eq!(scanner.feed(&line.as_bytes()[..134], &mut t), Err(Fault::Malformed));
    scanner.begin(0, 135);
    assert_eq!(scanner.feed(&line.as_bytes()[..134], &mut t), Ok(()));
    assert_eq!(scanner.wants(), None);
    assert_eq!(t.entries().len(), 1);
}

#[test]
fn a_fault_keeps_what_was_read() {
    let mut t = Table::new();
    let r = scan_range(&mut Scanner::new(), b"a;1.0\nb;2.0\nc\nd;4.0\n", (0, 20), BLK, &mut t);
    assert_eq!(r, Err(Fault::Malformed));
    assert_eq!(shown(&t), "{a=1.0/1.0/1.0, b=2.0/2.0/2.0}\n");
}

#[test]
fn too_many_stations_stop_a_scan() {
    let mut file = Vec::new();
    for i in 0..=brc::model::CAP {
        file.extend_from_slice(format!("{i};1.0\n").as_bytes());
    }
    assert_eq!(scan_file(&file, BLK), Err(Fault::NoRoom));
    // One fewer is fine; the last line is read without look-ahead.
    let last = file[..file.len() - 1].iter().rposition(|b| *b == b'\n').unwrap();
    assert!(scan_file(&file[..last + 1], BLK).is_ok());
}

#[test]
fn line_starts() {
    let file = b"a;1.0\nb;2.0\nc;3.0";
    for step in [1usize, 2, 5, 512] {
        assert_eq!(find_start(file, 0, step), 6);
        assert_eq!(find_start(file, 5, step), 6);
        assert_eq!(find_start(file, 6, step), 12);
        assert_eq!(find_start(file, 12, step), 17);
        assert_eq!(find_start(file, 17, step), 17);
        assert_eq!(find_start(file, 40, step), 17);
    }
}

#[test]
fn line_start_steps() {
    assert_eq!(next_line_start(b"ab\ncd", 10, 100), LineStart::At(13));
    assert_eq!(next_line_start(b"abcd", 10, 100), LineStart::ReadOn(14));
    assert_eq!(next_line_start(b"", 10, 100), LineStart::At(100));
    assert_eq!(next_line_start(b"ab\n", 100, 100), LineStart::At(100));
    assert_eq!(next_line_start(b"ab\n", 120, 100), LineStart::At(100));
}

#[test]
fn chunk_counts_and_bounds() {
    assert_eq!(chunk_count(0), 0);
    assert_eq!(chunk_count(1), 1);
    assert_eq!(chunk_count(CHUNK), 1);
    assert_eq!(chunk_count(CHUNK + 1), 2);
    assert_eq!(chunk_count(u64::MAX), 1 << 40);
    assert_eq!(chunk_bounds(&[], 9), vec![0, 9]);
    assert_eq!(chunk_bounds(&[3, 5], 9), vec![0, 3, 5, 9]);
}

/// A file of more than two chunks, its readings taken one by one, and its
/// readings by way of chunks and threads.
#[test]
fn a_run_over_chunks_is_exact() {
    let mut file: Vec<u8> = Vec::new();
    let mut expected: BTreeMap<String, (i32, i32, i64, i64)> = BTreeMap::new();
    let mut i = 0u64;
    while (file.len() as u64) < 2 * CHUNK + 1000 {
        let v = ((i * 7919) % 1999) as i32 - 999;
        let sign = if v < 0 { "-" } else { "" };
        let name = format!("station number {}", i * i % 613);
        file.extend_from_slice(name.as_bytes());
        file.push(b';');
        file.extend_from_slice(format!("{sign}{}.{}\n", v.abs() / 10, v.abs() % 10).as_bytes());
        let e = expected.entry(name).or_insert((v, v, 0, 0));
        *e = (e.0.min(v), e.1.max(v), e.2 + 1, e.3 + v as i64);
        i += 1;
    }
    let tenths = |v: i64| format!("{}{}.{}", if v < 0 { "-" } else { "" }, v.abs() / 10, v.abs() % 10);
    let body: Vec<String> = expected
        .iter()
        .map(|(name, e)| {
            let mean = (2 * e.3 + e.2).div_euclid(2 * e.2);
            format!("{name}={}/{}/{}", tenths(e.0 as i64), tenths(mean), tenths(e.1 as i64))
        })
        .collect();
    let expected = format!("{{{}}}\n", body.join(", "));

    let flen = file.len() as u64;
    let n = chunk_count(flen);
    assert_eq!(n, 3);
    let starts: Vec<u64> = (1..n).map(|c| find_start(&file, c * CHUNK, 512)).collect();
    let bounds = chunk_bounds(&starts, flen);
    for owner in [[0usize, 0, 0], [0, 1, 0], [1, 0, 1], [1, 1, 1]] {
        let mut tables = vec![Table::new(), Table::new()];
        let mut scanner = Scanner::new();
        for c in 0..3usize {
            let range = (bounds[c], bounds[c + 1]);
            scan_range(&mut scanner, &file, range, BLK, &mut tables[owner[c]]).unwrap();
        }
        assert_eq!(shown(&merge_tables(tables).unwrap()), expected);
    }
}

#[test]
fn slow_lines_leave_what_recording_leaves() {
    let mut lines = Table::new();
    let mut readings = Table::new();
    for (name, value, tenths) in [("Oslo", "1.2", 12i16), ("Rome", "-3.4", -34), ("Oslo", "56.7", 567), ("", "1.0", 10)] {
        assert!(process_line_slow(format!("{name};{value}").as_bytes(), &mut lines));
        readings.record(name.as_bytes(), hash_name(name.as_bytes()), tenths);
    }
    let fields = |t: &Table| -> Vec<(u32, u32, i16, i16, u32, i64)> {
        t.entries().iter().map(|e| (e.key_off, e.key_len, e.min, e.max, e.count, e.sum)).collect()
    };
    assert_eq!(fields(&lines), fields(&readings));
    assert_eq!(fields(&lines).len(), 2);
    assert_eq!(shown(&lines), shown(&readings));
}
