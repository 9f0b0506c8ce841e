use wlines_run::history::{History, HistoryEntry};

#[test]
fn record_roundtrip() {
    let mut h = History::new();
    let p = String::from("C:/x/app.exe");
    assert!(h.lookup(&p).is_none());
    h.record_launch(&p, 1000);
    let first = h.lookup(&p).unwrap();
    assert_eq!(first.rank, 1);
    assert_eq!(first.access, 1000);
    h.record_launch(&p, 2000);
    let second = h.lookup(&p).unwrap();
    assert_eq!(second.rank, 2);
    assert!(second.access >= first.access);
    assert_eq!(second.access, 2000);
}

#[test]
fn record_is_keyed_by_exact_path() {
    let mut h = History::new();
    h.record_launch(&String::from("C:/x/a.exe"), 10);
    assert!(h.lookup(&String::from("C:/x/b.exe")).is_none());
    assert_eq!(h.lookup(&String::from("C:/x/a.exe")).unwrap().rank, 1);
}

#[test]
fn from_pairs_last_record_wins() {
    let pairs = vec![
        (String::from("a"), HistoryEntry { rank: 1, access: 5 }),
        (String::from("b"), HistoryEntry { rank: 7, access: 6 }),
        (String::from("a"), HistoryEntry { rank: 3, access: 9 }),
    ];
    let h = History::from_pairs(pairs);
    assert_eq!(h.lookup(&String::from("a")).unwrap(), HistoryEntry { rank: 3, access: 9 });
    assert_eq!(h.lookup(&String::from("b")).unwrap(), HistoryEntry { rank: 7, access: 6 });
    assert_eq!(h.items().len(), 2);
}

#[test]
fn items_reflect_records() {
    let mut h = History::new();
    h.record_launch(&String::from("p1"), 1);
    h.record_launch(&String::from("p2"), 2);
    h.record_launch(&String::from("p1"), 3);
    let items = h.items();
    assert_eq!(items.len(), 2);
    let p1 = items.iter().find(|(k, _)| k == "p1").unwrap();
    assert_eq!(p1.1, HistoryEntry { rank: 2, access: 3 });
}
