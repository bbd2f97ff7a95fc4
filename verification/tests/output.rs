use std::path::PathBuf;

use there_can_only_be_one::dedupe::DupGroup;
use there_can_only_be_one::output::{
    empty_log_note, empty_log_text, groups_text, human_readable_bytes, log_text, report,
    scan_start_line, summary_line,
};

/// The same rendering by floating point.
fn by_floats(bytes: u64) -> String {
    let units = ["B", "KiB", "MiB", "GiB", "TiB", "PiB"];
    let mut size = bytes as f64;
    let mut unit = 0;
    while size >= 1024.0 && unit < units.len() - 1 {
        size /= 1024.0;
        unit += 1;
    }
    if unit == 0 {
        format!("{bytes} B")
    } else {
        format!("{size:.2} {}", units[unit])
    }
}

#[test]
fn formats_bytes_with_binary_units() {
    assert_eq!(human_readable_bytes(0), "0 B");
    assert_eq!(human_readable_bytes(512), "512 B");
    assert_eq!(human_readable_bytes(1023), "1023 B"); // stays in bytes below 1 KiB
    assert_eq!(human_readable_bytes(1024), "1.00 KiB"); // exact unit boundary
    assert_eq!(human_readable_bytes(1536), "1.50 KiB"); // 1.5 KiB
    assert_eq!(human_readable_bytes(1024 * 1024), "1.00 MiB");
    assert_eq!(human_readable_bytes(1_576_587_128), "1.47 GiB"); // the ~Pictures run
    assert_eq!(human_readable_bytes(5 * 1024_u64.pow(4)), "5.00 TiB");
}

#[test]
fn byte_counts_are_rounded_as_doubles_are() {
    let mut samples: Vec<u64> = vec![u64::MAX, u64::MAX - 1, 1 << 60, (1 << 60) - 1];
    for shift in 0..64u32 {
        let power = 1u64 << shift;
        for near in 0..2000u64 {
            samples.push(power.wrapping_add(near));
            samples.push(power.wrapping_sub(near));
            // Ties between hundredths, and their neighbours.
            samples.push(power.wrapping_add((power >> 3).wrapping_mul(near)));
            samples.push(power.wrapping_add((power >> 3).wrapping_mul(near)).wrapping_add(1));
            samples.push(power.wrapping_add((power >> 3).wrapping_mul(near)).wrapping_sub(1));
        }
    }
    let mut state: u64 = 88172645463325252;
    for _ in 0..200_000 {
        state ^= state << 13;
        state ^= state >> 7;
        state ^= state << 17;
        samples.push(state);
        samples.push(state >> (state % 61));
    }
    for bytes in samples {
        assert_eq!(human_readable_bytes(bytes), by_floats(bytes), "{bytes}");
    }
}

#[test]
fn ties_between_hundredths_go_to_the_even_one() {
    assert_eq!(human_readable_bytes(1152), "1.12 KiB"); // 1.125
    assert_eq!(human_readable_bytes(1408), "1.38 KiB"); // 1.375
    // One byte over a tie is lost to double precision.
    assert_eq!(human_readable_bytes((1 << 53) + (1 << 47) + 1), "8.12 PiB");
    assert_eq!(human_readable_bytes(u64::MAX), "16384.00 PiB");
}

#[test]
fn write_log_includes_duplicates_and_empties() {
    let groups = vec![DupGroup {
        size: 3,
        paths: vec!["/x/a".into(), "/x/b".into()],
    }];
    let empties = vec!["/x/empty1".into()];

    let contents = log_text(5, 2, "0.00ns", &groups, &empties);

    assert!(contents.contains("Duplicates (3 bytes each):"));
    assert!(contents.contains("/x/a"));
    assert!(contents.contains("/x/b")); // the duplicate group is in the log
    assert!(contents.contains("/x/empty1")); // and so are the empties
}

#[test]
fn the_log_holds_each_part_in_turn() {
    let groups = vec![DupGroup {
        size: 3,
        paths: vec!["/x/a".into(), "/x/b".into()],
    }];
    let empties: Vec<PathBuf> = vec!["/x/empty1".into()];
    assert_eq!(
        log_text(5, 2, "1.50s", &groups, &empties),
        "Found 5 file(s), skipping 1 empty; 2 share a size and will be hashed.\n\
         Duplicates (3 bytes each):\n  /x/a\n  /x/b\n\
         # 1 empty (0-byte) file(s) — trivially identical, excluded from hashing.\n/x/empty1\n\
         Done in 1.50s: 1 duplicate group(s) spanning 2 file(s); 3 B reclaimable (nothing \
         deleted).\n"
    );
    assert_eq!(
        log_text(0, 0, "1.50s", &[], &[]),
        "Found 0 file(s); 0 share a size and will be hashed.\n\
         Done in 1.50s: 0 duplicate group(s) spanning 0 file(s); 0 B reclaimable (nothing \
         deleted).\n"
    );
}

#[test]
fn progress_lines_note_empty_files() {
    assert_eq!(
        scan_start_line(1234, 20, 0),
        "Found 1234 file(s); 20 share a size and will be hashed."
    );
    assert_eq!(
        scan_start_line(1234, 20, 3),
        "Found 1234 file(s), skipping 3 empty; 20 share a size and will be hashed."
    );
}

#[test]
fn groups_are_listed_in_order() {
    let groups = vec![
        DupGroup { size: 10, paths: vec!["/x/a".into(), "/x/b".into()] },
        DupGroup { size: 2, paths: vec!["c".into(), "d".into(), "e".into()] },
    ];
    assert_eq!(
        groups_text(&groups),
        "Duplicates (10 bytes each):\n  /x/a\n  /x/b\n\
         Duplicates (2 bytes each):\n  c\n  d\n  e\n"
    );
    assert_eq!(groups_text(&[]), "");
}

#[test]
fn empty_files_are_listed_under_a_header() {
    let empties: Vec<PathBuf> = vec!["/x/e1".into(), "/x/é2".into()];
    assert_eq!(
        empty_log_text(&empties),
        "# 2 empty (0-byte) file(s) — trivially identical, excluded from hashing.\n/x/e1\n/x/é2\n"
    );
    assert_eq!(
        empty_log_text(&[]),
        "# 0 empty (0-byte) file(s) — trivially identical, excluded from hashing.\n"
    );
    let log = PathBuf::from("/x/tcobo.log");
    assert_eq!(
        empty_log_note(2, &log),
        Some("Wrote 2 empty-file path(s) to /x/tcobo.log.".to_string())
    );
    assert_eq!(empty_log_note(0, &log), None);
}

#[test]
fn the_summary_counts_groups_files_and_bytes() {
    let groups = vec![
        DupGroup { size: 1024, paths: vec!["a".into(), "b".into(), "c".into()] },
        DupGroup { size: 512, paths: vec!["d".into(), "e".into()] },
    ];
    assert_eq!(
        summary_line("12.34ms", &groups),
        "Done in 12.34ms: 2 duplicate group(s) spanning 5 file(s); 2.50 KiB reclaimable \
         (nothing deleted)."
    );
}

#[test]
fn reports_hold_plain_values() {
    let groups = vec![
        DupGroup { size: 100, paths: vec!["/x/a".into(), "/x/é".into()] },
        DupGroup { size: 10, paths: vec!["c".into(), "d".into(), "e".into()] },
    ];
    let report = report(9, 6, 1, 77, &groups);
    assert_eq!(report.scanned, 9);
    assert_eq!(report.candidates, 6);
    assert_eq!(report.empty_files, 1);
    assert_eq!(report.elapsed_ms, 77);
    assert_eq!(report.reclaimable_bytes, 120);
    assert_eq!(report.duplicate_files, 5);
    assert_eq!(report.groups.len(), 2);
    assert_eq!(report.groups[0].size, 100);
    assert_eq!(report.groups[0].paths, vec!["/x/a".to_string(), "/x/é".to_string()]);
    assert_eq!(report.groups[1].size, 10);
    assert_eq!(report.groups[1].paths.len(), 3);
}
