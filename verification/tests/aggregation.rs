//! The table and the report.

use brc::hash::hash_name;
use brc::model::CAP;
use brc::pipeline::merge_tables;
use brc::report::{bytes_less, mean_tenths, report};
use brc::table::{Entry, Table};

fn put(t: &mut Table, name: &str, tenths: i16) {
    t.record(name.as_bytes(), hash_name(name.as_bytes()), tenths);
}

fn try_put(t: &mut Table, name: &str, tenths: i16) -> bool {
    t.try_record(name.as_bytes(), hash_name(name.as_bytes()), tenths)
}

fn table_of(readings: &[(&str, i16)]) -> Table {
    let mut t = Table::new();
    for (name, tenths) in readings {
        put(&mut t, name, *tenths);
    }
    t
}

fn text(t: &Table) -> String {
    String::from_utf8(report(t)).unwrap()
}

fn summary(min: i16, max: i16, count: u32, sum: i64) -> Entry {
    Entry { key_off: 0, key_len: 0, min, max, count, sum }
}

#[test]
fn new_table_is_empty() {
    let t = Table::new();
    assert!(t.entries().is_empty());
    assert_eq!(text(&t), "{}\n");
}

#[test]
fn record_keeps_min_max_count_and_sum() {
    let t = table_of(&[("Oslo", 12), ("Rome", 201), ("Oslo", -35), ("Oslo", 100)]);
    let mut es = t.entries();
    es.sort_by_key(|e| t.name_of(e).to_vec());
    assert_eq!(es.len(), 2);
    assert_eq!(t.name_of(&es[0]), b"Oslo");
    assert_eq!((es[0].min, es[0].max, es[0].count, es[0].sum), (-35, 100, 3, 77));
    assert_eq!(t.name_of(&es[1]), b"Rome");
    assert_eq!((es[1].min, es[1].max, es[1].count, es[1].sum), (201, 201, 1, 201));
}

#[test]
fn names_of_all_lengths_stay_apart() {
    let mut t = Table::new();
    for len in 1..=100usize {
        put(&mut t, &"n".repeat(len), len as i16);
    }
    for len in 1..=100usize {
        put(&mut t, &"n".repeat(len), -(len as i16));
    }
    let es = t.entries();
    assert_eq!(es.len(), 100);
    for e in &es {
        let len = t.name_of(e).len() as i16;
        assert_eq!((e.min, e.max, e.count, e.sum), (-len, len, 2, 0));
    }
}

#[test]
fn nameless_readings_count_for_nothing() {
    let mut t = table_of(&[("a", 1)]);
    put(&mut t, "", 500);
    put(&mut t, "", -500);
    t.merge_entry(b"", &summary(1, 2, 2, 3));
    assert_eq!(text(&t), "{a=0.1/0.1/0.1}\n");
}

#[test]
fn order_of_readings_does_not_matter() {
    let a = table_of(&[("x", 1), ("y", -4), ("x", 7), ("z", 0), ("y", 9)]);
    let b = table_of(&[("y", 9), ("z", 0), ("x", 7), ("y", -4), ("x", 1)]);
    assert_eq!(text(&a), text(&b));
    assert_eq!(text(&a), "{x=0.1/0.4/0.7, y=-0.4/0.3/0.9, z=0.0/0.0/0.0}\n");
}

#[test]
fn merge_entry_folds_summaries() {
    let mut t = table_of(&[("Oslo", 10)]);
    t.merge_entry(b"Oslo", &summary(-20, 5, 3, -17));
    t.merge_entry(b"Oslo", &summary(0, 40, 2, 40));
    t.merge_entry(b"Rome", &summary(100, 300, 2, 400));
    assert_eq!(text(&t), "{Oslo=-2.0/0.6/4.0, Rome=10.0/20.0/30.0}\n");
}

#[test]
fn merging_is_recording_it_all() {
    let left = [("a", 5i16), ("b", -7), ("c", 12), ("a", 9)];
    let right = [("b", 3i16), ("d", 1), ("a", -100)];
    let mut all = left.to_vec();
    all.extend_from_slice(&right);
    let mut one = table_of(&left);
    let two = table_of(&right);
    assert!(one.can_merge(&two));
    one.merge(&two);
    assert_eq!(text(&one), text(&table_of(&all)));
}

#[test]
fn merging_commutes_and_associates() {
    let parts = [
        [("a", 5i16), ("b", -7)],
        [("b", 3), ("c", 8)],
        [("c", -9), ("a", 2)],
    ];
    let fold = |order: [usize; 3]| {
        let tables = order.iter().map(|i| table_of(&parts[*i])).collect();
        text(&merge_tables(tables).unwrap())
    };
    let expected = "{a=0.2/0.4/0.5, b=-0.7/-0.2/0.3, c=-0.9/0.0/0.8}\n";
    assert_eq!(fold([0, 1, 2]), expected);
    assert_eq!(fold([2, 0, 1]), expected);
    assert_eq!(fold([1, 2, 0]), expected);
    let mut right = table_of(&parts[1]);
    right.merge(&table_of(&parts[2]));
    let mut whole = table_of(&parts[0]);
    whole.merge(&right);
    assert_eq!(text(&whole), expected);
}

#[test]
fn merging_an_empty_table_changes_nothing() {
    let mut t = table_of(&[("a", 5)]);
    t.merge(&Table::new());
    assert_eq!(text(&t), "{a=0.5/0.5/0.5}\n");
    let mut e = Table::new();
    e.merge(&t);
    assert_eq!(text(&e), text(&t));
}

#[test]
fn a_full_table_takes_known_names_only() {
    let mut t = Table::new();
    for i in 0..CAP {
        put(&mut t, &format!("station {i}"), (i % 1000) as i16);
    }
    assert_eq!(t.entries().len(), CAP);
    let before = text(&t);
    assert!(!try_put(&mut t, "one more", 1));
    // A reading without a name needs no slot.
    assert!(try_put(&mut t, "", 1));
    assert_eq!(text(&t), before);
    assert!(try_put(&mut t, "station 7", 9));
    assert_ne!(text(&t), before);
    let more = table_of(&[("one more", 1)]);
    assert!(!t.can_merge(&more));
    assert!(!more.can_merge(&t));
    assert!(t.can_merge(&table_of(&[("station 8", 1)])));
    assert!(t.can_merge(&Table::new()));
    assert!(merge_tables(vec![t, more]).is_none());
}

#[test]
fn counts_stop_at_their_limit() {
    let mut t = Table::new();
    t.merge_entry(b"a", &summary(-1, 1, u32::MAX - 1, 17));
    let one = table_of(&[("a", 0)]);
    assert!(t.can_merge(&one));
    put(&mut t, "a", 1);
    assert_eq!(t.entries()[0].count, u32::MAX);
    assert!(!try_put(&mut t, "a", 1));
    assert_eq!(t.entries()[0].count, u32::MAX);
    assert!(!t.can_merge(&one));
    assert!(try_put(&mut t, "b", 1));
    assert!(merge_tables(vec![one, Table::new(), t]).is_none());
}

#[test]
fn means_round_half_up() {
    assert_eq!(mean_tenths(25, 10), 3);
    assert_eq!(mean_tenths(-25, 10), -2);
    assert_eq!(mean_tenths(-26, 10), -3);
    assert_eq!(mean_tenths(24, 10), 2);
    assert_eq!(mean_tenths(1, 2), 1);
    assert_eq!(mean_tenths(-1, 2), 0);
    assert_eq!(mean_tenths(-2, 3), -1);
    assert_eq!(mean_tenths(0, 1), 0);
    assert_eq!(mean_tenths(-999, 1), -999);
    assert_eq!(mean_tenths(999 * u32::MAX as i64, u32::MAX), 999);
}

#[test]
fn mean_is_the_nearest_tenth() {
    for sum in -60i64..=60 {
        for count in 1u32..=12 {
            let m = mean_tenths(sum, count);
            let n = count as i64;
            assert!(2 * sum - n < 2 * n * m && 2 * n * m <= 2 * sum + n);
        }
    }
}

#[test]
fn byte_order() {
    assert!(bytes_less(b"", b"a"));
    assert!(bytes_less(b"Ab", b"Abc"));
    assert!(bytes_less(b"Abz", b"Ab\xc3"));
    assert!(bytes_less(b"B", b"a"));
    assert!(!bytes_less(b"a", b"a"));
    assert!(!bytes_less(b"", b""));
    assert!(!bytes_less(b"Abc", b"Ab"));
}

#[test]
fn report_lists_stations_in_byte_order() {
    let t = table_of(&[
        ("Abéché", -231),
        ("Abidjan", 768),
        ("Abha", 186),
        ("Abéché", 779),
        ("Abha", -319),
        ("Abidjan", 309),
        ("Abidjan", -297),
        ("Abha", 673),
        ("Abéché", 334),
    ]);
    assert_eq!(
        text(&t),
        "{Abha=-31.9/18.0/67.3, Abidjan=-29.7/26.0/76.8, Abéché=-23.1/29.4/77.9}\n"
    );
}

#[test]
fn report_sorts_many_stations() {
    let mut names: Vec<String> = (0..5000u32).map(|i| format!("{:x}", i.wrapping_mul(2_654_435_761))).collect();
    let mut t = Table::new();
    for name in &names {
        put(&mut t, name, 15);
    }
    names.sort();
    let body: Vec<String> = names.iter().map(|n| format!("{n}=1.5/1.5/1.5")).collect();
    assert_eq!(text(&t), format!("{{{}}}\n", body.join(", ")));
}

#[test]
fn equal_hashes_keep_names_apart() {
    let mut t = Table::new();
    t.record(b"AB", 0, 5);
    t.record(b"A", 0, 7);
    t.record(b"AC", 0, 9);
    t.record(b"A", 0, -1);
    let es = t.entries();
    let seen: Vec<(&[u8], u32, i64)> = es.iter().map(|e| (t.name_of(e), e.count, e.sum)).collect();
    assert_eq!(seen, vec![(&b"AB"[..], 1, 5), (&b"A"[..], 2, 6), (&b"AC"[..], 1, 9)]);
}

#[test]
fn the_search_wraps_round() {
    // This hash starts the search in the last slot.
    let mut t = Table::new();
    t.record(b"A", 46368, 1);
    t.record(b"B", 46368, 2);
    t.record(b"A", 46368, 3);
    let es = t.entries();
    assert_eq!(es.len(), 2);
    assert_eq!((t.name_of(&es[0]), es[0].count, es[0].sum), (&b"B"[..], 1, 2));
    assert_eq!((t.name_of(&es[1]), es[1].count, es[1].sum), (&b"A"[..], 2, 4));
    assert_eq!((es[1].key_off, es[0].key_off), (0, 1));
}

#[test]
fn names_are_copied_once_and_stay() {
    let mut t = table_of(&[("Oslo", 1), ("Rome", 2)]);
    let es = t.entries();
    let names: Vec<Vec<u8>> = es.iter().map(|e| t.name_of(e).to_vec()).collect();
    for i in 0..1000i16 {
        put(&mut t, &format!("station {i}"), i);
        put(&mut t, "Oslo", i);
    }
    t.merge_entry(b"Rome", &summary(1, 2, 2, 3));
    t.merge(&table_of(&[("Oslo", 3), ("Bern", 4)]));
    for (e, name) in es.iter().zip(&names) {
        assert_eq!(t.name_of(e), name.as_slice());
    }
    // The next name goes right behind those that are there.
    let used: u32 = t.entries().iter().map(|e| e.key_len).sum();
    put(&mut t, "Paris", 5);
    let es = t.entries();
    let paris = es.iter().find(|e| t.name_of(e) == b"Paris").unwrap();
    assert_eq!(paris.key_off, used);
}
