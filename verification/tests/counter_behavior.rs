//! Usage-counter scenarios: attempted uses are counted per name.

use botcore::counter::CommandCounter;

#[test]
fn n_records_count_n() {
    let mut c = CommandCounter::new();
    let ping = "ping".to_string();
    let n = 25;
    for _ in 0..n {
        c.record(&ping);
    }
    assert_eq!(c.get(&ping), n);
}

#[test]
fn names_are_counted_independently() {
    let mut c = CommandCounter::new();
    let ping = "ping".to_string();
    let about = "about".to_string();
    c.record(&ping);
    c.record(&about);
    c.record(&ping);
    assert_eq!(c.get(&ping), 2);
    assert_eq!(c.get(&about), 1);
    assert_eq!(c.get(&"never".to_string()), 0);
}

#[test]
fn snapshot_copies_the_full_mapping() {
    let mut c = CommandCounter::new();
    c.record(&"a".to_string());
    c.record(&"b".to_string());
    c.record(&"a".to_string());
    let snap = c.snapshot();
    assert_eq!(snap.len(), 2);
    assert_eq!(snap[0], ("a".to_string(), 2));
    assert_eq!(snap[1], ("b".to_string(), 1));
    // the copy does not alias the live counter
    c.record(&"a".to_string());
    assert_eq!(snap[0].1, 2);
    assert_eq!(c.get(&"a".to_string()), 3);
}
