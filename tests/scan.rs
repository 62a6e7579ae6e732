use kondo::stats::{Stats, NONTRIVIAL_SIZE};
use kondo::walk::Walk;

fn csv_string(stats: &Stats) -> String {
    String::from_utf8(stats.csv()).unwrap()
}

#[test]
fn one_large_and_one_small_file() {
    let mut w = Walk::new();
    w.enter_dir("root");
    assert_eq!(w.file("root/large", Some(60_000_000)), 60_000_000);
    assert_eq!(w.file("root/small", Some(10)), 10);
    assert_eq!(w.leave_dir(), 60_000_010);
    assert_eq!(w.depth(), 0);
    let stats = w.into_stats();
    assert_eq!(stats.num_files(), 2);
    assert_eq!(stats.num_dirs(), 1);
    assert_eq!(stats.num_errors(), 0);
    assert_eq!(stats.total_size(), 60_000_010);
    // the root totals 60,000,010 bytes, so it is nontrivial too
    assert_eq!(csv_string(&stats), "60000010,root\n60000000,root/large\n");
}

#[test]
fn small_root_is_left_out() {
    let mut w = Walk::new();
    w.enter_dir("root");
    w.file("root/large", Some(50_000_000));
    w.enter_dir("root/sub");
    w.file("root/sub/small", Some(10));
    assert_eq!(w.leave_dir(), 10);
    assert_eq!(w.leave_dir(), 50_000_010);
    let stats = w.into_stats();
    assert_eq!(csv_string(&stats), "50000010,root\n50000000,root/large\n");
}

#[test]
fn unreadable_subdirectory_is_recoverable() {
    let mut w = Walk::new();
    w.enter_dir("root");
    w.unreadable();
    assert_eq!(w.depth(), 1);
    w.file("root/big", Some(70_000_000));
    assert_eq!(w.leave_dir(), 70_000_000);
    let stats = w.into_stats();
    assert!(stats.num_errors() >= 1);
    assert_eq!(stats.num_errors(), 1);
    assert_eq!(stats.total_size(), 70_000_000);
    assert_eq!(csv_string(&stats), "70000000,root\n70000000,root/big\n");
}

#[test]
fn root_accumulates_from_descendants() {
    let mut w = Walk::new();
    w.enter_dir("root");
    w.enter_dir("root/a");
    w.file("root/a/x", Some(30_000_000));
    assert_eq!(w.leave_dir(), 30_000_000);
    w.enter_dir("root/b");
    w.file("root/b/y", Some(25_000_000));
    assert_eq!(w.leave_dir(), 25_000_000);
    assert_eq!(w.leave_dir(), 55_000_000);
    let stats = w.into_stats();
    assert_eq!(stats.num_dirs(), 3);
    assert_eq!(csv_string(&stats), "55000000,root\n");
}

#[test]
fn directory_size_is_sum_of_children() {
    let mut w = Walk::new();
    w.enter_dir("r");
    w.file("r/f1", Some(7));
    w.file("r/f2", None);
    w.unreadable();
    w.enter_dir("r/d");
    w.file("r/d/g", Some(11));
    w.file("r/d/h", Some(13));
    assert_eq!(w.leave_dir(), 24);
    assert_eq!(w.leave_dir(), 31);
    let stats = w.into_stats();
    assert_eq!(stats.num_errors(), 2);
    assert_eq!(stats.num_files(), 4);
    assert_eq!(stats.total_size(), 31);
}

#[test]
fn threshold_is_inclusive() {
    let mut s = Stats::new();
    s.log_path("exact", NONTRIVIAL_SIZE);
    s.log_path("below", NONTRIVIAL_SIZE - 1);
    assert_eq!(s.nontrivial_count(), 1);
    assert_eq!(csv_string(&s), "50000000,exact\n");
}

#[test]
fn duplicate_entries_kept_once() {
    let mut s = Stats::new();
    s.log_dir("same", 60_000_000);
    s.log_dir("same", 60_000_000);
    s.log_dir("same", 60_000_001);
    assert_eq!(s.num_dirs(), 3);
    assert_eq!(s.nontrivial_count(), 2);
    assert_eq!(csv_string(&s), "60000001,same\n60000000,same\n");
}

#[test]
fn report_sorted_by_size_then_path() {
    let mut s = Stats::new();
    s.log_path("b", 60_000_000);
    s.log_path("a", 60_000_000);
    s.log_path("B", 60_000_000);
    s.log_path("z", 90_000_000);
    s.log_path("ab", 60_000_000);
    s.log_path("c", 70_000_000);
    assert_eq!(
        csv_string(&s),
        "90000000,z\n70000000,c\n60000000,B\n60000000,a\n60000000,ab\n60000000,b\n"
    );
}

#[test]
fn total_ignores_threshold_and_failures() {
    let mut s = Stats::new();
    assert_eq!(s.log_file("f1", Some(1)), 1);
    assert_eq!(s.log_file("f2", None), 0);
    assert_eq!(s.log_file("f3", Some(80_000_000)), 80_000_000);
    assert_eq!(s.total_size(), 80_000_001);
    assert_eq!(s.num_files(), 3);
    assert_eq!(s.num_errors(), 1);
    assert_eq!(s.nontrivial_count(), 1);
}

#[test]
fn log_error_counts_only() {
    let mut s = Stats::new();
    s.log_error();
    s.log_error();
    assert_eq!(s.num_errors(), 2);
    assert_eq!(s.num_files(), 0);
    assert_eq!(s.total_size(), 0);
}

#[test]
fn progress_due_every_interval() {
    let mut s = Stats::new();
    let mut due = 0;
    for _ in 0..20_000 {
        s.log_file("f", Some(0));
        if s.progress_due() {
            due += 1;
        }
    }
    assert_eq!(due, 2);
}

#[test]
fn empty_report() {
    let s = Stats::new();
    assert_eq!(s.csv(), Vec::<u8>::new());
    assert_eq!(s.nontrivial_count(), 0);
}

#[test]
fn largest_size_written_in_full() {
    let mut s = Stats::new();
    s.log_path("max", u64::MAX);
    assert_eq!(csv_string(&s), "18446744073709551615,max\n");
}

#[test]
fn non_ascii_path_kept() {
    let mut s = Stats::new();
    s.log_path("é,x", 50_000_000);
    assert_eq!(csv_string(&s), "50000000,é,x\n");
}
