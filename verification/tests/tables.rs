use station_stats::summary::Summary;
use station_stats::table::Table;

#[test]
fn a_single_reading_is_its_own_summary() {
    let s = Summary::single(-123);
    assert_eq!(s.min(), -123);
    assert_eq!(s.max(), -123);
    assert_eq!(s.sum(), -123);
    assert_eq!(s.count(), 1);
    assert_eq!(s.mean(), -123);
}

#[test]
fn absorb_follows_the_update_rule() {
    let mut s = Summary::single(100);
    s.absorb(200);
    assert_eq!((s.min(), s.max(), s.sum(), s.count()), (100, 200, 300, 2));
    s.absorb(-50);
    assert_eq!((s.min(), s.max(), s.sum(), s.count()), (-50, 200, 250, 3));
    s.absorb(30);
    assert_eq!((s.min(), s.max(), s.sum(), s.count()), (-50, 200, 280, 4));
    assert_eq!(s.mean(), 70);
}

#[test]
fn combine_follows_the_merge_rule() {
    let mut a = Summary::single(10);
    a.absorb(30);
    let mut b = Summary::single(-20);
    b.absorb(20);
    b.absorb(60);
    a.combine(&b);
    assert_eq!((a.min(), a.max(), a.sum(), a.count()), (-20, 60, 100, 5));
    assert_eq!(a.mean(), 20);
}

#[test]
fn combine_is_the_same_either_way_round() {
    let mut a = Summary::single(7);
    a.absorb(-3);
    let mut b = Summary::single(12);
    b.absorb(1);
    let mut ab = a;
    ab.combine(&b);
    let mut ba = b;
    ba.combine(&a);
    assert_eq!((ab.min(), ab.max(), ab.sum(), ab.count()), (-3, 12, 17, 4));
    assert_eq!((ba.min(), ba.max(), ba.sum(), ba.count()), (-3, 12, 17, 4));
}

#[test]
fn mean_rounds_to_the_nearest_tenth() {
    let mut s = Summary::single(1);
    s.absorb(0);
    s.absorb(0);
    assert_eq!(s.mean(), 0);
    let mut s = Summary::single(1);
    s.absorb(1);
    s.absorb(0);
    assert_eq!(s.mean(), 1);
    let mut s = Summary::single(-1);
    s.absorb(-1);
    s.absorb(0);
    assert_eq!(s.mean(), -1);
}

#[test]
fn mean_rounds_a_tie_away_from_zero() {
    let mut s = Summary::single(15);
    s.absorb(16);
    assert_eq!(s.mean(), 16);
    let mut s = Summary::single(-15);
    s.absorb(-16);
    assert_eq!(s.mean(), -16);
    let mut s = Summary::single(0);
    s.absorb(1);
    assert_eq!(s.mean(), 1);
    let mut s = Summary::single(0);
    s.absorb(-1);
    assert_eq!(s.mean(), -1);
}

#[test]
fn mean_lies_between_the_extrema() {
    let mut s = Summary::single(i64::MAX);
    s.absorb(i64::MAX);
    s.absorb(i64::MAX - 1);
    assert_eq!(s.mean(), i64::MAX);
    let mut s = Summary::single(i64::MIN);
    s.absorb(i64::MIN);
    s.absorb(i64::MIN + 1);
    assert_eq!(s.mean(), i64::MIN);
    let mut s = Summary::single(i64::MIN);
    s.absorb(i64::MAX);
    assert_eq!(s.mean(), -1);
}

#[test]
fn a_new_table_is_empty() {
    let t = Table::new();
    assert_eq!(t.len(), 0);
    assert_eq!(t.records(), 0);
    assert!(t.get(b"Paris").is_none());
}

#[test]
fn record_enters_and_updates() {
    let mut t = Table::new();
    t.record(b"Paris", 100);
    let s = t.get(b"Paris").unwrap();
    assert_eq!((s.min(), s.max(), s.sum(), s.count()), (100, 100, 100, 1));
    t.record(b"Paris", 200);
    t.record(b"Oslo", -35);
    let s = t.get(b"Paris").unwrap();
    assert_eq!((s.min(), s.max(), s.sum(), s.count()), (100, 200, 300, 2));
    let s = t.get(b"Oslo").unwrap();
    assert_eq!((s.min(), s.max(), s.sum(), s.count()), (-35, -35, -35, 1));
    assert_eq!(t.len(), 2);
    assert_eq!(t.records(), 3);
    assert!(t.get(b"Par").is_none());
    assert!(t.get(b"Paris ").is_none());
}

#[test]
fn a_table_keeps_its_stations_in_order() {
    let mut t = Table::new();
    for name in [&b"b"[..], b"a", b"ab", b"B", b"", b"abc", b"a", b"b"] {
        t.record(name, 1);
    }
    assert_eq!(t.len(), 6);
    let names: Vec<&[u8]> = (0..t.len()).map(|i| t.name_at(i)).collect();
    assert_eq!(names, vec![&b""[..], b"B", b"a", b"ab", b"abc", b"b"]);
    assert_eq!(t.summary_at(2).count(), 2);
    assert_eq!(t.summary_at(3).count(), 1);
    assert_eq!(t.summary_at(5).count(), 2);
    assert_eq!(t.records(), 8);
}

#[test]
fn merge_moves_new_stations_and_combines_known_ones() {
    let mut g = Table::new();
    g.record(b"A", 10);
    g.record(b"C", 30);
    let mut l = Table::new();
    l.record(b"B", 20);
    l.record(b"C", -30);
    l.record(b"C", 50);
    l.record(b"D", 40);
    assert!(g.merge(l).is_ok());
    assert_eq!(g.len(), 4);
    assert_eq!(g.records(), 6);
    let names: Vec<&[u8]> = (0..g.len()).map(|i| g.name_at(i)).collect();
    assert_eq!(names, vec![&b"A"[..], b"B", b"C", b"D"]);
    let c = g.get(b"C").unwrap();
    assert_eq!((c.min(), c.max(), c.sum(), c.count()), (-30, 50, 50, 3));
    let b = g.get(b"B").unwrap();
    assert_eq!((b.min(), b.max(), b.sum(), b.count()), (20, 20, 20, 1));
}

#[test]
fn merge_with_an_empty_table_changes_nothing() {
    let mut g = Table::new();
    g.record(b"A", 10);
    assert!(g.merge(Table::new()).is_ok());
    assert_eq!((g.len(), g.records()), (1, 1));
    let mut e = Table::new();
    assert!(e.merge(g).is_ok());
    assert_eq!((e.len(), e.records()), (1, 1));
    assert_eq!(e.get(b"A").unwrap().sum(), 10);
}

#[test]
fn merge_gives_the_same_table_in_any_order() {
    let parts: Vec<Vec<(&[u8], i64)>> = vec![
        vec![(b"A", 10), (b"B", 20)],
        vec![(b"B", -5), (b"C", 7)],
        vec![(b"A", 99), (b"C", -7), (b"D", 0)],
    ];
    let table_of = |part: &Vec<(&[u8], i64)>| {
        let mut t = Table::new();
        for (name, v) in part {
            t.record(name, *v);
        }
        t
    };
    let orders = [[0, 1, 2], [0, 2, 1], [1, 0, 2], [1, 2, 0], [2, 0, 1], [2, 1, 0]];
    for order in orders {
        let mut g = Table::new();
        for i in order {
            assert!(g.merge(table_of(&parts[i])).is_ok());
        }
        assert_eq!(g.len(), 4);
        assert_eq!(g.records(), 7);
        let a = g.get(b"A").unwrap();
        assert_eq!((a.min(), a.max(), a.sum(), a.count()), (10, 99, 109, 2));
        let b = g.get(b"B").unwrap();
        assert_eq!((b.min(), b.max(), b.sum(), b.count()), (-5, 20, 15, 2));
        let c = g.get(b"C").unwrap();
        assert_eq!((c.min(), c.max(), c.sum(), c.count()), (-7, 7, 0, 2));
        let d = g.get(b"D").unwrap();
        assert_eq!((d.min(), d.max(), d.sum(), d.count()), (0, 0, 0, 1));
    }
}

#[test]
fn a_clone_holds_the_same_stations() {
    let mut t = Table::new();
    t.record(b"A", 10);
    t.record(b"B", 20);
    let c = t.clone();
    t.record(b"A", 30);
    assert_eq!((c.len(), c.records()), (2, 2));
    assert_eq!(c.get(b"A").unwrap().sum(), 10);
    assert_eq!(c.name_at(1), b"B");
    assert_eq!(t.get(b"A").unwrap().sum(), 40);
}

#[test]
fn merge_gives_the_table_back_when_the_count_would_not_fit() {
    let mut t = Table::new();
    t.record(b"A", 10);
    t.record(b"B", -10);
    for _ in 0..62 {
        let c = t.clone();
        assert!(t.merge(c).is_ok());
    }
    assert_eq!(t.records(), 1 << 63);
    let a = t.get(b"A").unwrap();
    assert_eq!((a.min(), a.max(), a.sum(), a.count()), (10, 10, 10 << 62, 1 << 62));
    assert_eq!(a.mean(), 10);
    let c = t.clone();
    let back = t.merge(c).unwrap_err();
    assert_eq!(back.records(), 1 << 63);
    assert_eq!(back.get(b"B").unwrap().count(), 1 << 62);
    assert_eq!(t.records(), 1 << 63);
    assert_eq!(t.get(b"A").unwrap().count(), 1 << 62);
    let mut small = Table::new();
    small.record(b"A", 10);
    for _ in 0..62 {
        small.record(b"C", 1);
    }
    assert_eq!(small.records(), 63);
    let mut most = t.clone();
    assert!(most.merge(small).is_ok());
    assert_eq!(most.records(), (1 << 63) + 63);
}
