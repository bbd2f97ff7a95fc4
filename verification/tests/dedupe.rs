use std::cell::RefCell;
use std::collections::HashMap;
use std::path::PathBuf;

use there_can_only_be_one::dedupe::{
    assemble_groups, bucket_by_size, checked_duplicate_files, checked_reclaimable_bytes,
    chunk_hash, confirm_by_full_hash, count_candidates, count_files, duplicate_files, file_info,
    find_duplicates, full_jobs, is_selected, reclaimable_bytes, sample_jobs, sample_offset,
    scan_options, take_empty_files, DupGroup, FileInfo, FileMeta, FoundFile, HashJob, Sample,
    ScanOptions,
};
use there_can_only_be_one::digest::{hash_region, Digest};
use there_can_only_be_one::globs::{exclude_set, is_excluded, ExcludeError};
use there_can_only_be_one::platform::PhysicalId;

// ---- helpers ---------------------------------------------------------------

/// One file of a [`Dir`].
struct Entry {
    path: PathBuf,
    contents: Vec<u8>,
    id: Option<PhysicalId>,
    block_size: Option<u64>,
    is_link: bool,
}

/// A directory held in memory.
struct Dir {
    entries: Vec<Entry>,
    reads: RefCell<Vec<PathBuf>>,
}

fn tempdir() -> Dir {
    Dir { entries: Vec::new(), reads: RefCell::new(Vec::new()) }
}

impl Dir {
    /// Walk the directory.
    fn walk(&self, opts: &ScanOptions) -> Vec<FoundFile> {
        let mut found = Vec::new();
        for entry in &self.entries {
            let is_file = !entry.is_link || opts.follow_symlinks;
            if is_selected(is_file, &entry.path, opts) {
                let meta = FileMeta {
                    size: entry.contents.len() as u64,
                    block_size: entry.block_size,
                    id: entry.id,
                };
                found.push(file_info(entry.path.clone(), Some(meta)).unwrap());
            }
        }
        found
    }

    /// Hash a region of one file.
    fn read(&self, job: &HashJob) -> Option<Digest> {
        let entry = self.entries.iter().find(|entry| &entry.path == job.info.path())?;
        self.reads.borrow_mut().push(entry.path.clone());
        Some(hash_region(&entry.contents, job.offset, job.len))
    }
}

/// Add a file to the directory, with an identity of its own.
fn write(dir: &mut Dir, name: &str, contents: &[u8]) {
    let id = (1, dir.entries.len() as u64);
    dir.entries.push(Entry {
        path: PathBuf::from("/scanned").join(name),
        contents: contents.to_vec(),
        id: Some(id),
        block_size: Some(4096),
        is_link: false,
    });
}

/// Bucket `dir` by size with default options.
fn buckets(dir: &Dir) -> HashMap<u64, Vec<FileInfo>> {
    let opts = ScanOptions::default();
    bucket_by_size(dir.walk(&opts), &opts)
}

/// Find duplicates in `dir`.
fn find(dir: &Dir, opts: &ScanOptions) -> Vec<DupGroup> {
    find_duplicates(dir.walk(opts), opts, &|job: &HashJob| dir.read(job))
}

/// Find duplicates in `dir` with default options.
fn dups(dir: &Dir) -> Vec<DupGroup> {
    find(dir, &ScanOptions::default())
}

/// The file names in each group, for easy assertions.
fn names(groups: &[DupGroup]) -> Vec<Vec<String>> {
    groups
        .iter()
        .map(|g| {
            g.paths
                .iter()
                .map(|p| p.file_name().unwrap().to_string_lossy().into_owned())
                .collect()
        })
        .collect()
}

/// Sorted lengths of every bucket.
fn bucket_lens<K, V>(buckets: &[(K, Vec<V>)]) -> Vec<usize> {
    let mut lens: Vec<usize> = buckets.iter().map(|(_, files)| files.len()).collect();
    lens.sort_unstable();
    lens
}

/// Total number of files in a map of buckets.
fn total<K, V>(map: &HashMap<K, Vec<V>>) -> usize {
    map.values().map(Vec::len).sum()
}

/// A pair of equal-sized buffers with an identical leading chunk that differ
/// only near the end, so they collide in the sampling pass but not in the full
/// pass.
fn prefix_colliding_pair() -> (Vec<u8>, Vec<u8>) {
    let a = vec![0u8; 256 * 1024];
    let mut b = a.clone();
    b[200 * 1024] = 1; // differ well past any block-sized chunk
    (a, b)
}

// ---- find_duplicates (end to end) ------------------------------------------

#[test]
fn finds_identical_files() {
    let mut dir = tempdir();
    write(&mut dir, "a", b"hello world");
    write(&mut dir, "b", b"hello world");
    write(&mut dir, "c", b"something else");

    let groups = dups(&dir);
    assert_eq!(groups.len(), 1);
    assert_eq!(names(&groups), vec![vec!["a".to_string(), "b".to_string()]]);
}

#[test]
fn same_size_different_content_is_not_a_duplicate() {
    let mut dir = tempdir();
    write(&mut dir, "a", b"aaaaaaaa");
    write(&mut dir, "b", b"bbbbbbbb"); // same length, different bytes

    assert!(dups(&dir).is_empty());
}

#[test]
fn large_files_beyond_the_chunk_are_confirmed_by_full_hash() {
    let mut dir = tempdir();
    let (a, b) = prefix_colliding_pair();
    write(&mut dir, "a", &a);
    write(&mut dir, "b", &b);
    write(&mut dir, "c", &a); // true duplicate of a

    let groups = dups(&dir);
    assert_eq!(groups.len(), 1);
    assert_eq!(names(&groups), vec![vec!["a".to_string(), "c".to_string()]]);
}

#[test]
fn empty_files_are_grouped_together() {
    let mut dir = tempdir();
    write(&mut dir, "a", b"");
    write(&mut dir, "b", b"");

    let groups = dups(&dir);
    assert_eq!(groups.len(), 1);
    assert_eq!(groups[0].paths.len(), 2);
}

// ---- bucket_by_size (pass 1) -----------------------------------------------

#[test]
fn bucket_by_size_groups_by_size_and_recurses_into_subdirs() {
    let mut dir = tempdir();
    write(&mut dir, "a", b"12345"); // size 5
    write(&mut dir, "b", b"67890"); // size 5, different content
    write(&mut dir, "d", b"xy"); // size 2
    write(&mut dir, "sub/c", b"xyz"); // size 3, nested

    let buckets = buckets(&dir);

    assert_eq!(total(&buckets), 4);
    assert_eq!(buckets[&5].len(), 2); // both size-5 files bucketed together
    assert!(buckets.contains_key(&3)); // the nested file
    assert!(buckets.contains_key(&2));
}

#[test]
fn bucket_by_size_collects_empty_files_under_the_zero_key() {
    let mut dir = tempdir();
    write(&mut dir, "e1", b"");
    write(&mut dir, "e2", b"");
    write(&mut dir, "nonempty", b"x");

    let buckets = buckets(&dir);
    assert_eq!(buckets[&0].len(), 2);
    assert_eq!(buckets[&1].len(), 1);
}

#[test]
fn bucket_by_size_deduplicates_hardlinks() {
    let mut dir = tempdir();
    write(&mut dir, "orig", b"hello"); // size 5
    write(&mut dir, "link", b"hello");
    dir.entries[1].id = dir.entries[0].id;
    write(&mut dir, "other", b"world"); // size 5, distinct inode

    let buckets = buckets(&dir);

    // orig and link share an inode, so only one of them is retained.
    assert_eq!(total(&buckets), 2);
    assert_eq!(buckets[&5].len(), 2);
}

#[test]
fn the_last_name_of_a_physical_file_survives() {
    let mut dir = tempdir();
    write(&mut dir, "first", b"hello");
    write(&mut dir, "other", b"world");
    write(&mut dir, "second", b"hello");
    write(&mut dir, "third", b"hello");
    dir.entries[2].id = dir.entries[0].id;
    dir.entries[3].id = dir.entries[0].id;

    let buckets = buckets(&dir);
    let kept: Vec<&PathBuf> = buckets[&5].iter().map(|info| info.path()).collect();
    assert_eq!(kept, vec![&dir.entries[1].path, &dir.entries[3].path]);
}

#[test]
fn hard_links_are_not_reported() {
    let mut dir = tempdir();
    write(&mut dir, "orig", b"hello");
    write(&mut dir, "link", b"hello");
    dir.entries[1].id = dir.entries[0].id;
    assert!(dups(&dir).is_empty());

    // A copy of its own is reported with the name that was kept.
    write(&mut dir, "copy", b"hello");
    assert_eq!(names(&dups(&dir)), vec![vec!["copy".to_string(), "link".to_string()]]);
}

#[test]
fn equal_inodes_on_other_devices_are_other_files() {
    let mut dir = tempdir();
    write(&mut dir, "a", b"hello");
    write(&mut dir, "b", b"hello");
    dir.entries[0].id = Some((1, 7));
    dir.entries[1].id = Some((2, 7));

    assert_eq!(names(&dups(&dir)), vec![vec!["a".to_string(), "b".to_string()]]);
}

#[test]
fn files_without_an_identity_are_all_kept() {
    let mut dir = tempdir();
    write(&mut dir, "a", b"hello");
    write(&mut dir, "b", b"hello");
    dir.entries[0].id = None;
    dir.entries[1].id = None;

    assert_eq!(names(&dups(&dir)), vec![vec!["a".to_string(), "b".to_string()]]);
}

#[test]
fn metadata_that_cannot_be_read_leaves_the_file_out() {
    assert!(file_info(PathBuf::from("/scanned/a"), None).is_none());
}

#[test]
fn file_info_carries_path_and_identity() {
    let meta = FileMeta { size: 3, block_size: None, id: Some((1, 2)) };
    let (id, info) = file_info(PathBuf::from("/scanned/a"), Some(meta)).unwrap();
    assert_eq!(id, Some((1, 2)));
    assert_eq!(info.path(), &PathBuf::from("/scanned/a"));
    assert_eq!(info.into_path(), PathBuf::from("/scanned/a"));
}

// ---- filters ---------------------------------------------------------------

#[test]
fn min_size_skips_small_files() {
    let mut dir = tempdir();
    write(&mut dir, "small_a", b"hi"); // size 2 duplicate pair
    write(&mut dir, "small_b", b"hi");
    write(&mut dir, "big_a", &[b'A'; 100]); // size 100 duplicate pair
    write(&mut dir, "big_b", &[b'A'; 100]);

    let opts = ScanOptions { min_size: 50, ..Default::default() };
    let groups = find(&dir, &opts);

    // Only the 100-byte pair survives the size floor.
    assert_eq!(groups.len(), 1);
    assert_eq!(groups[0].size, 100);
}

#[test]
fn the_size_floor_itself_is_kept() {
    let mut dir = tempdir();
    write(&mut dir, "a", b"12345");
    write(&mut dir, "b", b"1234");

    let opts = ScanOptions { min_size: 5, ..Default::default() };
    let buckets = bucket_by_size(dir.walk(&opts), &opts);
    assert_eq!(buckets[&5].len(), 1);
    assert!(!buckets.contains_key(&4));
}

#[test]
fn exclude_glob_skips_matching_paths() {
    let mut dir = tempdir();
    write(&mut dir, "keep_a", b"same"); // duplicate pair we want reported
    write(&mut dir, "keep_b", b"same");
    write(&mut dir, "skip/dup", b"same"); // identical, but excluded

    let opts = ScanOptions {
        exclude: exclude_set(&vec!["**/skip/**".to_string()]).ok().unwrap(),
        ..Default::default()
    };
    let groups = find(&dir, &opts);

    // The excluded copy is never scanned, so only the two kept files group.
    assert_eq!(groups.len(), 1);
    assert_eq!(names(&groups), vec![vec!["keep_a".to_string(), "keep_b".to_string()]]);
}

#[test]
fn any_one_of_the_globs_excludes() {
    let set = exclude_set(&vec!["*.tmp".to_string(), "**/cache/**".to_string()]).ok().unwrap();
    assert!(is_excluded(&set, &PathBuf::from("a.tmp")));
    assert!(is_excluded(&set, &PathBuf::from("/x/cache/y")));
    assert!(!is_excluded(&set, &PathBuf::from("/x/y")));
    let opts = ScanOptions::default();
    assert!(!is_excluded(&opts.exclude, &PathBuf::from("a.tmp")));
    assert!(is_selected(true, &PathBuf::from("a.tmp"), &opts));
    assert!(!is_selected(false, &PathBuf::from("a.tmp"), &opts));
}

#[test]
fn scan_options_carry_the_arguments() {
    let patterns = vec!["*.tmp".to_string()];
    let opts = scan_options(true, 7, &patterns, Sample::End).ok().unwrap();
    assert!(opts.follow_symlinks);
    assert_eq!(opts.min_size, 7);
    assert_eq!(opts.sample, Sample::End);
    assert!(is_excluded(&opts.exclude, &PathBuf::from("a.tmp")));

    let none = scan_options(false, 0, &vec![], Sample::default()).ok().unwrap();
    assert!(!none.follow_symlinks);
    assert_eq!(none.sample, Sample::Start);
    assert!(!is_excluded(&none.exclude, &PathBuf::from("a.tmp")));
}

#[test]
fn a_malformed_glob_is_refused() {
    let patterns = vec!["*.tmp".to_string(), "[".to_string(), "{".to_string()];
    match scan_options(false, 0, &patterns, Sample::Start) {
        Err(ExcludeError::Pattern(at, _)) => assert_eq!(at, 1),
        Err(ExcludeError::Unbuildable(_)) => panic!("the pattern at fault is known"),
        Ok(_) => panic!("the pattern is malformed"),
    }
}

#[test]
fn globs_match_by_their_pattern() {
    let set = |pattern: &str| exclude_set(&vec![pattern.to_string()]).ok().unwrap();
    assert!(is_excluded(&set("*.{tmp,bak}"), &PathBuf::from("/x/a.bak")));
    assert!(!is_excluded(&set("*.{tmp,bak}"), &PathBuf::from("/x/a.txt")));
    // A long literal is never compiled, so it always builds.
    assert!(exclude_set(&vec!["a".repeat(1_000_000)]).is_ok());
}

#[test]
fn globs_that_grow_too_large_are_refused() {
    let patterns = vec!["?".repeat(1_000_000)];
    assert!(matches!(exclude_set(&patterns), Err(ExcludeError::Unbuildable(_))));
    assert!(matches!(
        scan_options(false, 0, &patterns, Sample::Start),
        Err(ExcludeError::Unbuildable(_))
    ));
}

// ---- symlink policy --------------------------------------------------------

#[test]
fn follow_symlinks_controls_whether_linked_files_are_scanned() {
    let mut dir = tempdir();
    write(&mut dir, "copy", b"shared contents"); // distinct inode, same bytes
    write(&mut dir, "lnk", b"shared contents");
    dir.entries[1].is_link = true;

    // Without following, the symlink is skipped: "copy" stands alone.
    assert!(find(&dir, &ScanOptions::default()).is_empty());

    // Following resolves the link to a real, distinct-inode file, revealing the
    // duplicate.
    let opts = ScanOptions { follow_symlinks: true, ..Default::default() };
    let groups = find(&dir, &opts);
    assert_eq!(groups.len(), 1);
    assert_eq!(groups[0].paths.len(), 2);
}

// ---- reporting helpers -----------------------------------------------------

#[test]
fn take_empty_files_removes_the_zero_bucket() {
    let mut dir = tempdir();
    write(&mut dir, "e1", b"");
    write(&mut dir, "e2", b"");
    write(&mut dir, "nonempty", b"x");

    let mut b = buckets(&dir);
    let empties = take_empty_files(&mut b);

    assert_eq!(empties.len(), 2);
    assert!(empties.iter().all(|p| p.extension().is_none())); // e1, e2
    assert!(!b.contains_key(&0)); // zero bucket removed
    assert!(b.contains_key(&1)); // other sizes untouched

    assert!(take_empty_files(&mut b).is_empty());
}

#[test]
fn reclaimable_and_duplicate_files_counts() {
    let groups = vec![
        DupGroup {
            size: 100,
            paths: vec!["a".into(), "b".into(), "c".into()], // 3 files, 2 redundant
        },
        DupGroup {
            size: 10,
            paths: vec!["d".into(), "e".into()], // 2 files, 1 redundant
        },
    ];

    // Reclaimable = 100*2 + 10*1; files spanned = 3 + 2.
    assert_eq!(reclaimable_bytes(&groups), 210);
    assert_eq!(duplicate_files(&groups), 5);
    assert_eq!(reclaimable_bytes(&[]), 0);
    assert_eq!(duplicate_files(&[]), 0);
}

#[test]
fn totals_that_do_not_fit_are_refused() {
    let pair = |size: u64| DupGroup { size, paths: vec!["a".into(), "b".into()] };
    let triple = DupGroup { size: u64::MAX, paths: vec!["a".into(), "b".into(), "c".into()] };
    let empty = DupGroup { size: 1, paths: vec![] };
    assert_eq!(checked_reclaimable_bytes(&[pair(u64::MAX - 1), pair(1)]), Some(u64::MAX));
    assert_eq!(checked_reclaimable_bytes(&[pair(u64::MAX), pair(1)]), None);
    assert_eq!(checked_reclaimable_bytes(&[triple]), None);
    assert_eq!(checked_reclaimable_bytes(&[pair(1), empty]), None);
    assert_eq!(checked_duplicate_files(&[pair(1), pair(2)]), Some(4));
}

#[test]
fn files_and_candidates_are_counted() {
    let mut dir = tempdir();
    write(&mut dir, "a", b"12345");
    write(&mut dir, "b", b"67890");
    write(&mut dir, "lone", b"123");
    write(&mut dir, "e1", b"");
    write(&mut dir, "e2", b"");

    let mut b = buckets(&dir);
    assert_eq!(count_files(&b), Some(5));
    assert_eq!(count_candidates(&b), Some(4));
    let empties = take_empty_files(&mut b);
    assert_eq!(count_files(&b).unwrap() + empties.len(), 5);
    assert_eq!(count_candidates(&b), Some(2));
    assert_eq!(sample_jobs(b, Sample::Start).len(), 2);
}

// ---- chunk_hash (pass 2) ---------------------------------------------------

#[test]
fn chunk_hash_drops_lonely_sizes_and_groups_by_prefix() {
    let mut dir = tempdir();
    write(&mut dir, "dup1", b"identical"); // size 9
    write(&mut dir, "dup2", b"identical"); // size 9, same content
    write(&mut dir, "diff", b"different"); // size 9, different content
    write(&mut dir, "unique", b"a-size-of-its-own"); // lone size

    let chunks = chunk_hash(buckets(&dir), Sample::Start, &|job: &HashJob| dir.read(job));

    // The lone-size file is never hashed; the two identical files share a
    // (size, digest) bucket, the odd one out sits alone.
    assert_eq!(bucket_lens(&chunks).iter().sum::<usize>(), 3);
    assert_eq!(bucket_lens(&chunks), vec![1, 2]);
    assert!(chunks.iter().all(|(key, _)| key.size == 9));
    let lone = &dir.entries[3].path;
    assert!(dir.reads.borrow().iter().all(|path| path != lone));
}

#[test]
fn files_that_cannot_be_read_are_skipped() {
    let mut dir = tempdir();
    write(&mut dir, "a", b"hello world");
    write(&mut dir, "b", b"hello world");
    write(&mut dir, "broken", b"hello world");

    let opts = ScanOptions::default();
    let broken = dir.entries[2].path.clone();
    let read = |job: &HashJob| if job.info.path() == &broken { None } else { dir.read(job) };
    let groups = find_duplicates(dir.walk(&opts), &opts, &read);
    assert_eq!(names(&groups), vec![vec!["a".to_string(), "b".to_string()]]);
}

#[test]
fn files_that_fail_in_the_full_pass_are_skipped() {
    let mut dir = tempdir();
    let (a, _) = prefix_colliding_pair();
    write(&mut dir, "a", &a);
    write(&mut dir, "b", &a);
    write(&mut dir, "broken", &a);

    let opts = ScanOptions::default();
    let broken = dir.entries[2].path.clone();
    let read = |job: &HashJob| {
        if job.info.path() == &broken && job.len == u64::MAX {
            None
        } else {
            dir.read(job)
        }
    };
    let groups = find_duplicates(dir.walk(&opts), &opts, &read);
    assert_eq!(names(&groups), vec![vec!["a".to_string(), "b".to_string()]]);
}

// ---- sample strategy -------------------------------------------------------

#[test]
fn sample_strategy_changes_which_bytes_are_read() {
    // Two same-size files that are identical except for a single byte at the
    // exact center. The prefix (and suffix) are byte-for-byte the same.
    let mut dir = tempdir();
    let size = 512 * 1024;
    let mut a = vec![0u8; size];
    let mut b = vec![0u8; size];
    a[size / 2] = 1;
    b[size / 2] = 2;
    write(&mut dir, "a", &a);
    write(&mut dir, "b", &b);

    // Sampling the start reads the identical prefix, so they collide...
    let start = chunk_hash(buckets(&dir), Sample::Start, &|job: &HashJob| dir.read(job));
    assert_eq!(bucket_lens(&start), vec![2]);

    // ...but sampling the middle reads the differing center byte and splits them.
    let middle = chunk_hash(buckets(&dir), Sample::Middle, &|job: &HashJob| dir.read(job));
    assert_eq!(bucket_lens(&middle), vec![1, 1]);
}

#[test]
fn sampling_the_end_reads_the_last_bytes() {
    let mut dir = tempdir();
    let a = vec![0u8; 100_000];
    let mut b = a.clone();
    b[100_000 - 4096] = 1; // the first byte of the sample
    write(&mut dir, "a", &a);
    write(&mut dir, "b", &b);

    let end = chunk_hash(buckets(&dir), Sample::End, &|job: &HashJob| dir.read(job));
    assert_eq!(bucket_lens(&end), vec![1, 1]);
    let middle = chunk_hash(buckets(&dir), Sample::Middle, &|job: &HashJob| dir.read(job));
    assert_eq!(bucket_lens(&middle), vec![2]);
}

#[test]
fn duplicates_are_found_under_every_sample_strategy() {
    // Sampling location is a performance knob; it must never change results.
    for sample in [Sample::Start, Sample::Middle, Sample::End] {
        let mut dir = tempdir();
        write(&mut dir, "a", b"the very same contents");
        write(&mut dir, "b", b"the very same contents");
        write(&mut dir, "c", b"something else entirely");

        let opts = ScanOptions { sample, ..Default::default() };
        let groups = find(&dir, &opts);
        assert_eq!(groups.len(), 1, "strategy {sample:?}");
        assert_eq!(names(&groups), vec![vec!["a".to_string(), "b".to_string()]]);
    }
}

#[test]
fn large_duplicates_are_found_under_every_sample_strategy() {
    let mut dir = tempdir();
    let (a, b) = prefix_colliding_pair();
    write(&mut dir, "a", &a);
    write(&mut dir, "b", &b);
    write(&mut dir, "c", &a);
    write(&mut dir, "d", &b);
    write(&mut dir, "small_a", b"hi");
    write(&mut dir, "small_b", b"hi");
    let mut seen = Vec::new();
    for sample in [Sample::Start, Sample::Middle, Sample::End] {
        let opts = ScanOptions { sample, ..Default::default() };
        seen.push(names(&find(&dir, &opts)));
    }
    let expected: Vec<Vec<String>> = vec![
        vec!["a".to_string(), "c".to_string()],
        vec!["b".to_string(), "d".to_string()],
        vec!["small_a".to_string(), "small_b".to_string()],
    ];
    assert_eq!(seen, vec![expected.clone(), expected.clone(), expected]);
}

#[test]
fn identical_files_on_two_file_systems_are_found() {
    // The file systems have block sizes of their own.
    let mut dir = tempdir();
    write(&mut dir, "a", &vec![7u8; 100_000]);
    write(&mut dir, "b", &vec![7u8; 100_000]);
    dir.entries[1].block_size = Some(512);
    for sample in [Sample::Start, Sample::Middle, Sample::End] {
        let opts = ScanOptions { sample, ..Default::default() };
        assert_eq!(names(&find(&dir, &opts)), vec![vec!["a".to_string(), "b".to_string()]]);
    }
}

#[test]
fn the_sample_never_changes_the_report_across_file_systems() {
    // Of four files of one size the first two are identical; the others share
    // their first bytes, or their last.
    let mut dir = tempdir();
    let a = vec![0u8; 100_000];
    let mut c = a.clone();
    let mut d = a.clone();
    c[99_999] = 1;
    d[0] = 1;
    write(&mut dir, "a", &a);
    write(&mut dir, "b", &a);
    write(&mut dir, "c", &c);
    write(&mut dir, "d", &d);
    dir.entries[1].block_size = Some(512);
    dir.entries[2].block_size = Some(1 << 20);
    for sample in [Sample::Start, Sample::Middle, Sample::End] {
        let opts = ScanOptions { sample, ..Default::default() };
        assert_eq!(names(&find(&dir, &opts)), vec![vec!["a".to_string(), "b".to_string()]]);
    }
}

#[test]
fn files_of_one_size_are_sampled_to_the_largest_length() {
    let mut dir = tempdir();
    write(&mut dir, "a", &[1u8; 10_000]);
    write(&mut dir, "b", &[2u8; 10_000]);
    write(&mut dir, "c", &[3u8; 9_000]);
    write(&mut dir, "d", &[4u8; 9_000]);
    dir.entries[0].block_size = Some(512);
    dir.entries[1].block_size = Some(8192);
    dir.entries[2].block_size = Some(512);
    dir.entries[3].block_size = Some(512);
    let jobs = sample_jobs(buckets(&dir), Sample::End);
    let lens: Vec<(u64, u64)> = jobs.iter().map(|job| (job.len, job.offset)).collect();
    assert_eq!(lens, vec![(512, 8_488), (512, 8_488), (8_192, 1_808), (8_192, 1_808)]);
}

#[test]
fn copies_on_two_file_systems_are_one_group() {
    let mut dir = tempdir();
    for name in ["a", "b", "c", "d"] {
        write(&mut dir, name, &vec![7u8; 100_000]);
    }
    dir.entries[1].block_size = Some(512);
    dir.entries[2].block_size = Some(512);
    let names = names(&dups(&dir));
    assert_eq!(names.len(), 1);
    assert_eq!(names[0], vec!["a", "b", "c", "d"]);
}

#[test]
fn small_copies_on_two_file_systems_are_found() {
    let mut dir = tempdir();
    write(&mut dir, "a", &[7u8; 100]);
    write(&mut dir, "b", &[7u8; 100]);
    dir.entries[1].block_size = Some(512);
    assert_eq!(names(&dups(&dir)).len(), 1);
}

#[test]
fn sample_offsets() {
    assert_eq!(sample_offset(Sample::Start, 10_000, 4096), 0);
    assert_eq!(sample_offset(Sample::Middle, 10_000, 4096), 2952);
    assert_eq!(sample_offset(Sample::Middle, 10_001, 4096), 2952);
    assert_eq!(sample_offset(Sample::End, 10_000, 4096), 5904);
    for sample in [Sample::Start, Sample::Middle, Sample::End] {
        assert_eq!(sample_offset(sample, 4096, 4096), 0);
        assert_eq!(sample_offset(sample, 10, 4096), 0);
    }
}

// ---- confirm_by_full_hash (pass 3) -----------------------------------------

#[test]
fn confirm_by_full_hash_splits_prefix_collisions() {
    let mut dir = tempdir();
    let (a, b) = prefix_colliding_pair();
    write(&mut dir, "a", &a);
    write(&mut dir, "b", &b);
    write(&mut dir, "c", &a); // true duplicate of a

    // All three collide in the sampling pass (identical leading chunk)...
    let chunks = chunk_hash(buckets(&dir), Sample::Start, &|job: &HashJob| dir.read(job));
    assert_eq!(bucket_lens(&chunks), vec![3]);

    // ...but the full hash separates b out, leaving a+c together.
    let by_hash = confirm_by_full_hash(chunks, &|job: &HashJob| dir.read(job));
    assert_eq!(bucket_lens(&by_hash), vec![1, 2]);
}

#[test]
fn files_covered_by_their_sample_are_read_once() {
    let mut dir = tempdir();
    write(&mut dir, "a", &[1u8; 4096]);
    write(&mut dir, "b", &[1u8; 4096]);
    write(&mut dir, "c", &[2u8; 4097]);
    write(&mut dir, "d", &[2u8; 4097]);

    assert_eq!(dups(&dir).len(), 2);
    let reads = dir.reads.borrow();
    let times = |at: usize| reads.iter().filter(|path| **path == dir.entries[at].path).count();
    assert_eq!((times(0), times(1), times(2), times(3)), (1, 1, 2, 2));
}

#[test]
fn the_full_pass_asks_for_whole_files() {
    let mut dir = tempdir();
    write(&mut dir, "a", &[1u8; 5000]);
    write(&mut dir, "b", &[1u8; 5000]);
    write(&mut dir, "c", b"x");
    write(&mut dir, "d", b"x");

    let chunks = chunk_hash(buckets(&dir), Sample::End, &|job: &HashJob| dir.read(job));
    let (chunks, jobs) = full_jobs(chunks);
    assert_eq!(chunks, vec![0, 0, 1, 1]);
    assert_eq!(jobs.len(), 4);
    assert!(jobs.iter().all(|job| job.offset == 0 && job.len == u64::MAX));
    assert_eq!(jobs.iter().filter(|job| job.known.is_some()).count(), 2);
}

#[test]
fn confirmation_stays_within_a_chunk_bucket() {
    // Files of different sizes whose digests are all answered to be the same.
    let mut dir = tempdir();
    write(&mut dir, "a", b"x");
    write(&mut dir, "b", b"y");
    write(&mut dir, "c", b"xx");
    write(&mut dir, "d", b"yy");
    let same = hash_region(b"same", 0, 4);
    let read = |_: &HashJob| Some(same);

    let chunks = chunk_hash(buckets(&dir), Sample::Start, &read);
    assert_eq!(bucket_lens(&chunks), vec![2, 2]);
    let by_hash = confirm_by_full_hash(chunks, &read);
    assert_eq!(bucket_lens(&by_hash), vec![2, 2]);
    let groups = assemble_groups(by_hash);
    let sizes: Vec<u64> = groups.iter().map(|group| group.size).collect();
    assert_eq!(sizes, vec![2, 1]);
    assert_eq!(
        names(&groups),
        vec![
            vec!["c".to_string(), "d".to_string()],
            vec!["a".to_string(), "b".to_string()],
        ]
    );
}

// ---- assemble_groups (pass 4) ----------------------------------------------

#[test]
fn assemble_groups_drops_singletons_and_orders_by_size() {
    let mut dir = tempdir();
    // Two real duplicate pairs of different sizes.
    write(&mut dir, "big_b", &[b'A'; 300]);
    write(&mut dir, "big_a", &[b'A'; 300]);
    write(&mut dir, "small_a", b"hi");
    write(&mut dir, "small_b", b"hi");
    // A prefix-colliding-but-distinct pair: survives to `by_hash` as two
    // singleton buckets, which assemble_groups must drop.
    let (a, b) = prefix_colliding_pair();
    write(&mut dir, "lonely1", &a);
    write(&mut dir, "lonely2", &b);

    let read = |job: &HashJob| dir.read(job);
    let by_hash = confirm_by_full_hash(chunk_hash(buckets(&dir), Sample::Start, &read), &read);
    // Sanity check the input actually contains singletons to drop.
    assert!(bucket_lens(&by_hash).contains(&1));

    let groups = assemble_groups(by_hash);

    // Singletons gone; groups ordered largest-first; paths sorted within.
    assert_eq!(groups.len(), 2);
    assert_eq!(groups[0].size, 300);
    assert_eq!(names(&groups)[0], vec!["big_a".to_string(), "big_b".to_string()]);
    assert_eq!(groups[1].size, 2);
    assert_eq!(names(&groups)[1], vec!["small_a".to_string(), "small_b".to_string()]);
}

#[test]
fn groups_of_one_size_are_ordered_by_their_first_path() {
    let mut dir = tempdir();
    write(&mut dir, "z1", b"one");
    write(&mut dir, "m", b"two");
    write(&mut dir, "b", b"one");
    write(&mut dir, "a", b"two");
    assert_eq!(
        names(&dups(&dir)),
        vec![
            vec!["a".to_string(), "m".to_string()],
            vec!["b".to_string(), "z1".to_string()],
        ]
    );
}

#[test]
fn paths_sort_component_by_component() {
    let mut dir = tempdir();
    let mut expected: Vec<PathBuf> = Vec::new();
    for name in ["a.b", "a/b", "a", "a/b/c", "a-", "Z", "..", "./x", "a//b2", "é", "a/../q"] {
        write(&mut dir, name, b"same");
        expected.push(PathBuf::from("/scanned").join(name));
    }
    for name in ["rel", "./rel2", "../rel3"] {
        write(&mut dir, "", b"same");
        dir.entries.last_mut().unwrap().path = PathBuf::from(name);
        expected.push(PathBuf::from(name));
    }
    expected.sort();
    let groups = dups(&dir);
    assert_eq!(groups.len(), 1);
    assert_eq!(groups[0].paths, expected);
}

#[test]
fn the_order_of_the_walk_does_not_matter() {
    let mut dir = tempdir();
    for (name, contents) in
        [("a", "x"), ("b", "y"), ("c", "x"), ("d", "y"), ("e", "zz"), ("f", "zz"), ("g", "x")]
    {
        write(&mut dir, name, contents.as_bytes());
    }
    let forward: Vec<Vec<PathBuf>> = dups(&dir).into_iter().map(|g| g.paths).collect();
    dir.entries.reverse();
    let backward: Vec<Vec<PathBuf>> = dups(&dir).into_iter().map(|g| g.paths).collect();
    dir.entries.swap(1, 4);
    let swapped: Vec<Vec<PathBuf>> = dups(&dir).into_iter().map(|g| g.paths).collect();
    assert_eq!(forward.len(), 3);
    assert_eq!(forward, backward);
    assert_eq!(forward, swapped);
}
