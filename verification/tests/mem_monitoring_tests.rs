use stack_analyser::asm_parsing::AsmFile;
use stack_analyser::mem_monitoring::{
    calculate_used_ram, cpu_monitor, percentile_of_sorted, AddrRange, RamSnapshot,
    RamSnapshotRecorder, ScanConfig, StatisticsError, UsedRange, scan_painted_stack,
    DEFAULT_ABORT_THRESHOLD, DEFAULT_MERGE_THRESHOLD, DEFAULT_SENTINEL,
};

#[test]
fn default_scan_config() {
    let cfg = ScanConfig::new();
    assert_eq!(cfg.sentinel, 0x55);
    assert_eq!(cfg.merge_threshold, 20);
    assert_eq!(cfg.abort_threshold, 128);
    assert_eq!(DEFAULT_SENTINEL, 0x55);
    assert_eq!(DEFAULT_MERGE_THRESHOLD, 20);
    assert_eq!(DEFAULT_ABORT_THRESHOLD, 128);
}

#[test]
fn used_range_closes_into_a_low_high_pair() {
    let open = UsedRange::new(0x2000);
    let r = open.complete(0x1ff0);
    assert_eq!(r, AddrRange { start: 0x1ff0, end: 0x2000 });
}

#[test]
fn scanner_merges_across_short_gaps_and_aborts_on_long_runs() {
    // sentinel 0x55, merge threshold 4, abort threshold 10; high-to-low bytes:
    // two touched bytes two sentinel bytes apart, then twelve sentinel bytes.
    let cfg = ScanConfig { sentinel: 0x55, merge_threshold: 4, abort_threshold: 10 };
    let mut bytes = vec![0x55, 0x55, 0x99, 0x55, 0x55, 0x99];
    bytes.extend(std::iter::repeat(0x55).take(12));
    let top: u32 = 0x1000;

    let res = scan_painted_stack(&bytes, top, &cfg);

    assert_eq!(res.used_bytes, 2);
    assert_eq!(res.ranges.len(), 1);
    // one span covering both touched bytes and the gap between them
    assert_eq!(res.ranges[0], AddrRange { start: top - 6, end: top - 2 });
    // the scan stops once the trailing run exceeds the abort threshold
    assert_eq!(res.consumed, 17);
}

#[test]
fn scanner_splits_spans_past_the_merge_threshold() {
    // gap of 5 > merge threshold 4: two separate spans, ascending order
    let cfg = ScanConfig { sentinel: 0x55, merge_threshold: 4, abort_threshold: 100 };
    let bytes = vec![0x01, 0x55, 0x55, 0x55, 0x55, 0x55, 0x02];
    let top: u32 = 0x100;

    let res = scan_painted_stack(&bytes, top, &cfg);

    assert_eq!(res.used_bytes, 2);
    assert_eq!(res.consumed, 7);
    assert_eq!(res.ranges.len(), 1);
    // only the first span is closed by the gap; the second stays open at the
    // end of the stream and is dropped as unconfirmed evidence
    assert_eq!(res.ranges[0], AddrRange { start: top - 1, end: top });
}

#[test]
fn scanner_on_untouched_memory_finds_nothing() {
    let cfg = ScanConfig { sentinel: 0x55, merge_threshold: 4, abort_threshold: 10 };
    let bytes = vec![0x55; 5];
    let res = scan_painted_stack(&bytes, 0x100, &cfg);
    assert_eq!(res.used_bytes, 0);
    assert_eq!(res.ranges.len(), 0);
    assert_eq!(res.consumed, 5);
}

#[test]
fn calculate_used_ram_builds_a_labelled_snapshot() {
    let lines = vec!["00000010 <main>:".to_string(), " 10:\tnop".to_string()];
    let index = AsmFile::from_file(&lines).unwrap();
    let top: u32 = 0x2000_8000;
    let bytes = vec![0x99, 0x55];
    let snap = calculate_used_ram(top, &bytes, top - 0x40, 0x10, &index);
    assert_eq!(snap.used_bytes, 1);
    assert_eq!(snap.stack_ptr_offset, 0x40);
    assert_eq!(snap.instr_ptr, 0x10);
    assert_eq!(snap.function.as_deref(), Some("main"));
}

#[test]
fn calculate_used_ram_degrades_to_unresolved() {
    let index = AsmFile::from_file(&Vec::new()).unwrap();
    let top: u32 = 0x2000_8000;
    let bytes = vec![0x55, 0x55];
    let snap = calculate_used_ram(top, &bytes, top, 0xdead, &index);
    assert_eq!(snap.used_bytes, 0);
    assert_eq!(snap.stack_ptr_offset, 0);
    assert_eq!(snap.function, None);
}

#[test]
fn cpu_monitor_reports_the_offset() {
    let s = cpu_monitor(0x2000_8000, 0x2000_7f00, 0x0800_1234);
    assert_eq!(s.stack_ptr_off, 0x100);
    assert_eq!(s.instr_ptr, 0x0800_1234);
}

fn snapshot(used: u32, off: u32, ranges: Vec<AddrRange>, ip: u32) -> RamSnapshot {
    RamSnapshot {
        used_bytes: used,
        stack_ptr_offset: off,
        ranges,
        instr_ptr: ip,
        function: None,
    }
}

#[test]
fn identical_keys_intern_to_one_variant_and_replay_in_order() {
    let mut rec = RamSnapshotRecorder::new(0x8000, 100);
    // same (touched-count, offset) key, three different range shapes
    rec.record(snapshot(8, 64, vec![AddrRange { start: 0x10, end: 0x20 }], 1));
    rec.record(snapshot(8, 64, vec![AddrRange { start: 0x30, end: 0x40 }], 2));
    rec.record(snapshot(8, 64, vec![], 3));

    let mut replay = rec.get_records();
    let first = replay.next().unwrap();
    let second = replay.next().unwrap();
    let third = replay.next().unwrap();
    assert!(replay.next().is_none());

    // all three samples replay as the interned variant: equal under the
    // recorder's key, and carrying the first sample's evidence
    assert!(first == second && second == third);
    assert_eq!(first.ranges, vec![AddrRange { start: 0x10, end: 0x20 }]);
    assert_eq!(second.ranges, vec![AddrRange { start: 0x10, end: 0x20 }]);
    assert_eq!(third.instr_ptr, 1);
}

#[test]
fn distinct_keys_become_distinct_variants() {
    let mut rec = RamSnapshotRecorder::new(0x8000, 100);
    rec.record(snapshot(8, 64, vec![], 1));
    rec.record(snapshot(8, 65, vec![], 2));
    rec.record(snapshot(9, 64, vec![], 3));

    let mut replay = rec.get_records();
    let a = replay.next().unwrap();
    let b = replay.next().unwrap();
    let c = replay.next().unwrap();
    assert!(replay.next().is_none());
    assert!(a != b && a != c && b != c);
    assert_eq!(b.instr_ptr, 2);
    assert_eq!(c.instr_ptr, 3);
}

#[test]
fn replay_is_restartable() {
    let mut rec = RamSnapshotRecorder::new(0x8000, 100);
    rec.record(snapshot(1, 2, vec![], 1));
    {
        let mut replay = rec.get_records();
        assert!(replay.next().is_some());
        assert!(replay.next().is_none());
    }
    let mut again = rec.get_records();
    assert!(again.next().is_some());
    assert!(again.next().is_none());
}

#[test]
fn median_interpolates_between_the_middle_samples() {
    // signal [10, 20, 30, 40]: rank 1.5, median between 20 and 30
    assert_eq!(percentile_of_sorted(&vec![10, 20, 30, 40], 50), 25);
}

#[test]
fn percentile_bounds_return_the_extremes() {
    assert_eq!(percentile_of_sorted(&vec![1, 5, 9], 0), 1);
    assert_eq!(percentile_of_sorted(&vec![1, 5, 9], 100), 9);
    assert_eq!(percentile_of_sorted(&vec![1, 5, 9], 50), 5);
}

#[test]
fn single_sample_median_needs_no_interpolation() {
    assert_eq!(percentile_of_sorted(&vec![7], 50), 7);
}

#[test]
fn statistics_of_a_recorded_series() {
    let mut rec = RamSnapshotRecorder::new(0x8000, 100);
    rec.record(snapshot(1, 10, vec![], 0));
    rec.record(snapshot(2, 20, vec![], 0));
    rec.record(snapshot(3, 30, vec![], 0));
    rec.record(snapshot(4, 40, vec![], 0));

    let stats = rec.calculate_statistics().unwrap();
    assert_eq!(stats.median_stack_ptr_off, 25);
    assert_eq!(stats.max_stack_ptr_off, 40);
    assert_eq!(stats.max_mem_usage, 4);
    assert_eq!(stats.stack_ptr_course, vec![10, 20, 30, 40]);
    assert_eq!(stats.mem_usage_course, vec![1, 2, 3, 4]);
}

#[test]
fn statistics_of_a_single_sample() {
    let mut rec = RamSnapshotRecorder::new(0x8000, 100);
    rec.record(snapshot(3, 7, vec![], 0));
    let stats = rec.calculate_statistics().unwrap();
    assert_eq!(stats.median_stack_ptr_off, 7);
    assert_eq!(stats.max_stack_ptr_off, 7);
    assert_eq!(stats.max_mem_usage, 3);
}

#[test]
fn statistics_keep_chronological_order_of_an_unsorted_signal() {
    let mut rec = RamSnapshotRecorder::new(0x8000, 100);
    rec.record(snapshot(5, 40, vec![], 0));
    rec.record(snapshot(1, 10, vec![], 0));
    rec.record(snapshot(9, 40, vec![], 0));

    let stats = rec.calculate_statistics().unwrap();
    assert_eq!(stats.stack_ptr_course, vec![40, 10, 40]);
    assert_eq!(stats.mem_usage_course, vec![5, 1, 9]);
    assert_eq!(stats.max_stack_ptr_off, 40);
    assert_eq!(stats.max_mem_usage, 9);
    // rank 1.0 over sorted [10, 40, 40]
    assert_eq!(stats.median_stack_ptr_off, 40);
}

#[test]
fn statistics_of_an_empty_recorder_fail_explicitly() {
    let rec = RamSnapshotRecorder::new(0x8000, 100);
    let err = rec.calculate_statistics().unwrap_err();
    assert_eq!(err, StatisticsError::NoSamples);
}

#[test]
fn snapshots_order_by_count_then_offset() {
    let a = snapshot(1, 9, vec![], 0);
    let b = snapshot(2, 1, vec![], 0);
    let c = snapshot(2, 5, vec![AddrRange { start: 1, end: 2 }], 7);
    let d = snapshot(2, 5, vec![], 0);
    assert!(a < b);
    assert!(b < c);
    assert_eq!(c.partial_cmp(&d), Some(std::cmp::Ordering::Equal));
}
