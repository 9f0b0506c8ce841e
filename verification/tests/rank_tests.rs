use wlines_run::catalog::{Program, SourceType};
use wlines_run::history::History;
use wlines_run::rank::{den_of, rank_programs};

fn prog(title: &str, abs: &str) -> Program {
    Program {
        title: String::from(title),
        source: SourceType::Path,
        abs_path: String::from(abs),
    }
}

fn titles(v: &[Program]) -> Vec<String> {
    v.iter().map(|p| p.title.clone()).collect()
}

#[test]
fn frecency_recent_high_rank_first() {
    // A: rank 5, last access 10 s ago; B: rank 1, last access 10000 s ago.
    let now: u64 = 100_000;
    let progs = vec![prog("b", "C:/b.exe"), prog("a", "C:/a.exe")];
    // Five launches leave rank 5; the last one fixes the access time.
    let mut h2 = History::new();
    h2.record_launch(&String::from("C:/b.exe"), now - 10_000);
    for _ in 0..4 {
        h2.record_launch(&String::from("C:/a.exe"), 0);
    }
    h2.record_launch(&String::from("C:/a.exe"), now - 10);
    let ranked = rank_programs(&progs, &h2, now);
    assert_eq!(titles(&ranked), vec![String::from("a"), String::from("b")]);
}

#[test]
fn history_outranks_no_history() {
    // C has no history; D has a single low-rank, old record.
    let now: u64 = 1_000_000;
    let progs = vec![prog("c", "C:/c.exe"), prog("d", "C:/d.exe")];
    let mut h = History::new();
    h.record_launch(&String::from("C:/d.exe"), 5);
    let ranked = rank_programs(&progs, &h, now);
    assert_eq!(titles(&ranked), vec![String::from("d"), String::from("c")]);
}

#[test]
fn no_history_sorts_by_title() {
    let progs = vec![prog("zeta", "C:/z.exe"), prog("alpha", "C:/a.exe"), prog("mid", "C:/m.exe")];
    let h = History::new();
    let ranked = rank_programs(&progs, &h, 42);
    assert_eq!(
        titles(&ranked),
        vec![String::from("alpha"), String::from("mid"), String::from("zeta")]
    );
}

#[test]
fn equal_scores_break_ties_deterministically() {
    // Same rank and same access time give the same score; titles decide.
    let now: u64 = 10_000;
    let progs = vec![prog("yy", "C:/y.exe"), prog("xx", "C:/x.exe")];
    let mut h = History::new();
    h.record_launch(&String::from("C:/y.exe"), now - 50);
    h.record_launch(&String::from("C:/x.exe"), now - 50);
    let first = rank_programs(&progs, &h, now);
    let second = rank_programs(&progs, &h, now);
    assert_eq!(titles(&first), vec![String::from("xx"), String::from("yy")]);
    assert_eq!(titles(&first), titles(&second));
}

#[test]
fn ranking_is_a_permutation() {
    let progs = vec![prog("a", "1"), prog("b", "2"), prog("c", "3")];
    let h = History::new();
    let ranked = rank_programs(&progs, &h, 0);
    assert_eq!(ranked.len(), 3);
    let mut t = titles(&ranked);
    t.sort();
    assert_eq!(t, vec![String::from("a"), String::from("b"), String::from("c")]);
}

#[test]
fn denominator_fixed_point_values() {
    // dt = 0: 2^31 * (sqrt(0) + 50).
    assert_eq!(den_of(5, 5), 50 << 31);
    // dt = 100: 2^31 * (sqrt(100) + 50) = 60 * 2^31, exactly.
    assert_eq!(den_of(1100, 1000), 60 << 31);
    // dt = 25: 2^31 * (sqrt(25) + 50) = 55 * 2^31, exactly.
    assert_eq!(den_of(30, 5), 55 << 31);
    // A future access time is clamped to dt = 0.
    assert_eq!(den_of(0, 10), 50 << 31);
}

#[test]
fn recency_decides_close_scores() {
    // Equal ranks, ages 10000 s and 10001 s: the real scores differ only
    // minutely, and the titles pull the other way; the more recent entry
    // must still sort strictly first.
    let now: u64 = 1_000_000;
    let progs = vec![prog("aa", "C:/old.exe"), prog("zz", "C:/new.exe")];
    let mut h = History::new();
    h.record_launch(&String::from("C:/old.exe"), now - 10_001);
    h.record_launch(&String::from("C:/new.exe"), now - 10_000);
    let ranked = rank_programs(&progs, &h, now);
    assert_eq!(titles(&ranked), vec![String::from("zz"), String::from("aa")]);
}

#[test]
fn higher_rank_decides_at_equal_age() {
    let now: u64 = 500_000;
    let progs = vec![prog("aa", "C:/once.exe"), prog("zz", "C:/twice.exe")];
    let mut h = History::new();
    h.record_launch(&String::from("C:/once.exe"), now - 300);
    h.record_launch(&String::from("C:/twice.exe"), 0);
    h.record_launch(&String::from("C:/twice.exe"), now - 300);
    let ranked = rank_programs(&progs, &h, now);
    assert_eq!(titles(&ranked), vec![String::from("zz"), String::from("aa")]);
}

#[test]
fn clock_skew_is_clamped() {
    // An access time in the future must not break the ordering call.
    let progs = vec![prog("a", "C:/a.exe"), prog("b", "C:/b.exe")];
    let mut h = History::new();
    h.record_launch(&String::from("C:/a.exe"), 5_000);
    let ranked = rank_programs(&progs, &h, 100);
    assert_eq!(titles(&ranked), vec![String::from("a"), String::from("b")]);
}
