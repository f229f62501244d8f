use markymark_index::{parse_memory_snapshot, MemorySnapshot};

#[test]
fn parses_memory_snapshot_lines() {
    let output = r#"
  [memory] memory_after_index_100: 638 MiB resident, 653312 KB peak RSS
  [memory] alloc_count_index_100: 215837 heap allocations
"#;
    let snapshot = parse_memory_snapshot(output);
    assert_eq!(
        snapshot,
        MemorySnapshot {
            alloc_count: 215_837,
            resident_mib: 638,
            peak_rss_kb: 653_312
        }
    );
}

#[test]
fn memory_snapshot_defaults_to_zero() {
    let snapshot = parse_memory_snapshot("nothing to see here\n");
    assert_eq!(snapshot, MemorySnapshot::default());
    assert_eq!(snapshot.alloc_count, 0);
}

#[test]
fn memory_snapshot_later_line_wins() {
    let output = "alloc_count_index_100: 5\nalloc_count_index_100: 9\n";
    assert_eq!(parse_memory_snapshot(output).alloc_count, 9);
}

#[test]
fn memory_snapshot_alloc_needs_number_first() {
    // Only the first token after the marker is considered.
    let output = "alloc_count_index_100: about 12 allocations\n";
    assert_eq!(parse_memory_snapshot(output).alloc_count, 0);
}

#[test]
fn memory_snapshot_resident_takes_first_number() {
    // The resident part may have words before the number.
    let output = "memory_after_index_100: about 70 MiB, peak 80 KB\n";
    let s = parse_memory_snapshot(output);
    assert_eq!(s.resident_mib, 70);
    assert_eq!(s.peak_rss_kb, 80);
}

#[test]
fn memory_snapshot_accepts_plus_sign_and_crlf() {
    let output = "alloc_count_index_100: +33\r\nmemory_after_index_100: 1 MiB, 2 KB\r\n";
    assert_eq!(
        parse_memory_snapshot(output),
        MemorySnapshot {
            alloc_count: 33,
            resident_mib: 1,
            peak_rss_kb: 2
        }
    );
}

#[test]
fn memory_snapshot_ignores_overflowing_number() {
    let output = "alloc_count_index_100: 18446744073709551616\n";
    assert_eq!(parse_memory_snapshot(output).alloc_count, 0);
    let output = "alloc_count_index_100: 18446744073709551615\n";
    assert_eq!(parse_memory_snapshot(output).alloc_count, u64::MAX);
}

#[test]
fn memory_snapshot_without_comma_keeps_rss() {
    let output = "memory_after_index_100: 5 MiB resident\n";
    let s = parse_memory_snapshot(output);
    assert_eq!(s.resident_mib, 5);
    assert_eq!(s.peak_rss_kb, 0);
}
