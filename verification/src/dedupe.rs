//! The duplicate-detection engine.
//!
//! Runs in passes: bucket by size, hash a sample of the files that share a
//! size to rule out obvious mismatches cheaply, then hash what is left in full
//! to confirm. The engine plans what has to be read and sorts what came back;
//! reading the files is up to the caller.

use std::collections::{HashMap, HashSet};
use std::path::PathBuf;

use globset::GlobSet;
use vstd::prelude::*;

use crate::digest::Digest;
use crate::globs::{
    are_globs, exclude_set, excludes, glob_set_patterns, globs_build, is_excluded, is_glob, texts,
    ExcludeError,
};
use crate::order::{lemma_lex_total, lemma_lex_transitive, Ranked};
use crate::paths::{components, lemma_part_order, part_order, path_at_most, path_key, PathKey};
use crate::platform::{chunk_size, sampled_bytes, PhysicalId};
use crate::sort::{
    bucket_by_key, is_bucketing, is_order, is_sorted_copy, lemma_bucket_source,
    lemma_sorted_shown, sort_by_key,
};

verus! {

broadcast use vstd::std_specs::hash::group_hash_axioms;

/// A candidate file, carrying the metadata gathered during the walk so that it
/// never has to be queried again.
pub struct FileInfo {
    path: PathBuf,
    size: u64,
    chunk_size: u64,
}

impl FileInfo {
    /// Where the file is.
    pub closed spec fn file_path(self) -> PathBuf {
        self.path
    }

    /// The size of the file in bytes.
    pub closed spec fn file_size(self) -> u64 {
        self.size
    }

    /// How many bytes of the file are sampled.
    pub closed spec fn sample_len(self) -> u64 {
        self.chunk_size
    }

    /// This file, sampled to another length.
    pub closed spec fn sampled_to(self, len: u64) -> FileInfo {
        FileInfo { path: self.path, size: self.size, chunk_size: len }
    }

    /// The path to this file.
    pub fn path(&self) -> (path: &PathBuf)
        ensures
            *path == self.file_path(),
    {
        &self.path
    }

    /// Consume this `FileInfo`, returning its path.
    pub fn into_path(self) -> (path: PathBuf)
        ensures
            path == self.file_path(),
    {
        self.path
    }
}

/// Where in each file the sampling pass takes its bytes.
///
/// Sampling the start is cheapest, but files that share a large fixed prefix
/// collide there and fall through to the full hash. Sampling the middle or the
/// end skips such prefixes, at the cost of a seek.
#[derive(Clone, Copy, Debug, PartialEq, Eq, Structural)]
pub enum Sample {
    /// The first bytes of the file.
    Start,
    /// A window centered in the file.
    Middle,
    /// The last bytes of the file.
    End,
}

impl Default for Sample {
    /// Sample the start.
    fn default() -> (sample: Sample)
        ensures
            sample == Sample::Start,
    {
        Sample::Start
    }
}

/// Options controlling a scan.
pub struct ScanOptions {
    /// Follow symbolic links while walking (default: `false`).
    pub follow_symlinks: bool,
    /// Ignore files smaller than this many bytes (default: `0`).
    pub min_size: u64,
    /// Skip any path matching this glob set (default: matches nothing).
    pub exclude: GlobSet,
    /// Where the sampling pass samples each file (default: [`Sample::Start`]).
    pub sample: Sample,
}

impl Default for ScanOptions {
    /// No symbolic links, no size floor, no exclude globs, samples from the
    /// start.
    fn default() -> (opts: ScanOptions)
        ensures
            !opts.follow_symlinks,
            opts.min_size == 0,
            glob_set_patterns(opts.exclude) == Seq::<Seq<char>>::empty(),
            opts.sample == Sample::Start,
    {
        ScanOptions {
            follow_symlinks: false,
            min_size: 0,
            exclude: GlobSet::empty(),
            sample: Sample::Start,
        }
    }
}

/// Build the scan options from plain arguments: symbolic link following, size
/// floor, exclude patterns, and where to sample.
pub fn scan_options(
    follow_symlinks: bool,
    min_size: u64,
    exclude: &Vec<String>,
    sample: Sample,
) -> (built: Result<ScanOptions, ExcludeError>)
    ensures
        built is Ok <==> are_globs(exclude@) && globs_build(texts(exclude@)),
        exclude.len() == 0 ==> built is Ok,
        match built {
            Ok(opts) => {
                &&& opts.follow_symlinks == follow_symlinks
                &&& opts.min_size == min_size
                &&& opts.sample == sample
                &&& glob_set_patterns(opts.exclude) == texts(exclude@)
            },
            Err(ExcludeError::Pattern(at, _)) => {
                &&& at < exclude.len()
                &&& !is_glob(exclude[at as int]@)
                &&& forall|i: int| 0 <= i < at ==> is_glob((#[trigger] exclude[i])@)
            },
            Err(ExcludeError::Unbuildable(_)) => {
                &&& are_globs(exclude@)
                &&& !globs_build(texts(exclude@))
            },
        },
{
    match exclude_set(exclude) {
        Ok(set) => Ok(ScanOptions { follow_symlinks, min_size, exclude: set, sample }),
        Err(error) => Err(error),
    }
}

/// A group of files that are byte-for-byte identical.
pub struct DupGroup {
    /// The size, in bytes, of every file in the group.
    pub size: u64,
    /// The paths of the identical files, sorted.
    pub paths: Vec<PathBuf>,
}

/// What a [`DupGroup`] says.
pub struct GroupView {
    pub size: u64,
    pub paths: Seq<PathBuf>,
}

impl View for DupGroup {
    type V = GroupView;

    open spec fn view(&self) -> GroupView {
        GroupView { size: self.size, paths: self.paths@ }
    }
}

// ---- Pass 1: bucket by size --------------------------------------------------

/// What the file system reports about one file.
pub struct FileMeta {
    /// The size in bytes.
    pub size: u64,
    /// The block size of the file system, where the platform exposes it.
    pub block_size: Option<u64>,
    /// The physical identity, where the platform provides one.
    pub id: Option<PhysicalId>,
}

/// A file that the walk came upon, with its physical identity where the
/// platform provides one.
pub type FoundFile = (Option<PhysicalId>, FileInfo);

/// Whether the walk should look at this entry: it is a file, and no exclude
/// glob matches its path.
pub fn is_selected(is_file: bool, path: &PathBuf, opts: &ScanOptions) -> (r: bool)
    ensures
        r == (is_file && !excludes(opts.exclude, *path)),
{
    is_file && !is_excluded(&opts.exclude, path)
}

/// Build the record of one walked file from its metadata; `None` where the
/// metadata could not be read.
pub fn file_info(path: PathBuf, meta: Option<FileMeta>) -> (found: Option<FoundFile>)
    ensures
        found is Some <==> meta is Some,
        found matches Some((id, info)) ==> {
            &&& id == meta->Some_0.id
            &&& info.file_path() == path
            &&& info.file_size() == meta->Some_0.size
            &&& info.sample_len() == sampled_bytes(meta->Some_0.block_size)
        },
{
    match meta {
        None => None,
        Some(meta) => {
            let info = FileInfo { path, size: meta.size, chunk_size: chunk_size(meta.block_size) };
            Some((meta.id, info))
        },
    }
}

/// Whether a later name for the same physical file, itself large enough,
/// takes the place of the first one.
pub open spec fn first_superseded(found: Seq<FoundFile>, min_size: u64) -> bool {
    exists|j: int|
        0 < j < found.len() && (#[trigger] found[j]).0 is Some && found[j].0 == found[0].0
            && found[j].1.file_size() >= min_size
}

/// The files of a walk that are large enough, and of several names for one
/// physical file the last, in the order of the walk.
pub open spec fn last_names(found: Seq<FoundFile>, min_size: u64) -> Seq<FileInfo>
    decreases found.len(),
{
    if found.len() == 0 {
        Seq::empty()
    } else {
        let rest = last_names(found.drop_first(), min_size);
        if found[0].1.file_size() >= min_size && !first_superseded(found, min_size) {
            seq![found[0].1] + rest
        } else {
            rest
        }
    }
}

/// The length to which all files of this size are sampled: the largest sample
/// length of any of them.
pub open spec fn common_sample(files: Seq<FileInfo>, size: u64) -> u64
    decreases files.len(),
{
    if files.len() == 0 {
        0
    } else {
        let rest = common_sample(files.drop_last(), size);
        let last = files.last();
        if last.file_size() == size && last.sample_len() > rest {
            last.sample_len()
        } else {
            rest
        }
    }
}

/// The files, those of one size sampled to one length.
pub open spec fn leveled(files: Seq<FileInfo>) -> Seq<FileInfo> {
    files.map_values(
        |file: FileInfo| file.sampled_to(common_sample(files, file.file_size())),
    )
}

/// The files that pass 1 keeps, in the order of the walk, those of one size
/// sampled to one length: only then do identical files have identical samples.
pub open spec fn kept(found: Seq<FoundFile>, min_size: u64) -> Seq<FileInfo> {
    leveled(last_names(found, min_size))
}

/// Sampling files of one size to one length changes nothing else of them.
pub proof fn lemma_leveled(files: Seq<FileInfo>)
    ensures
        leveled(files).len() == files.len(),
        forall|i: int|
            0 <= i < files.len() ==> {
                &&& (#[trigger] leveled(files)[i]).file_path() == files[i].file_path()
                &&& leveled(files)[i].file_size() == files[i].file_size()
                &&& leveled(files)[i].sample_len() == common_sample(files, files[i].file_size())
            },
{
}

/// The test for files of this size.
pub open spec fn sized(size: u64) -> spec_fn(FileInfo) -> bool {
    |file: FileInfo| file.file_size() == size
}

/// Whether `buckets` holds the files by size, each bucket in their order.
pub open spec fn is_by_size(buckets: Map<u64, Vec<FileInfo>>, files: Seq<FileInfo>) -> bool {
    forall|size: u64|
        {
            &&& #[trigger] buckets.contains_key(size) <==> files.filter(sized(size)).len() > 0
            &&& buckets.contains_key(size) ==> buckets[size]@ == files.filter(sized(size))
        }
}

/// Whether the identity has been noted.
spec fn is_noted(seen: Map<u64, HashSet<u64>>, id: PhysicalId) -> bool {
    seen.contains_key(id.0) && seen[id.0]@.contains(id.1)
}

/// Note an identity, and say whether it is new.
fn note(seen: &mut HashMap<u64, HashSet<u64>>, id: PhysicalId) -> (fresh: bool)
    ensures
        fresh == !is_noted(old(seen)@, id),
        forall|other: PhysicalId| #[trigger]
            is_noted(final(seen)@, other) <==> is_noted(old(seen)@, other) || other == id,
{
    let inodes = seen.entry(id.0).or_insert(HashSet::new());
    inodes.insert(id.1)
}

/// Whether the walk found this identity, on a file that is large enough, at or
/// after position `from`.
spec fn found_from(found: Seq<FoundFile>, from: int, id: PhysicalId, min_size: u64) -> bool {
    exists|j: int|
        from <= j < found.len() && (#[trigger] found[j]).0 == Some(id) && found[j].1.file_size()
            >= min_size
}

proof fn lemma_first_superseded(found: Seq<FoundFile>, at: int, min_size: u64)
    requires
        0 <= at < found.len(),
    ensures
        first_superseded(found.skip(at), min_size) <==> (found[at].0 matches Some(id)
            && found_from(found, at + 1, id, min_size)),
{
    let tail = found.skip(at);
    assert(tail[0] == found[at]);
    if first_superseded(tail, min_size) {
        let j = choose|j: int|
            0 < j < tail.len() && (#[trigger] tail[j]).0 is Some && tail[j].0 == tail[0].0
                && tail[j].1.file_size() >= min_size;
        assert(found[at + j].0 == found[at].0);
    }
    if let Some(id) = found[at].0 {
        if found_from(found, at + 1, id, min_size) {
            let j = choose|j: int|
                at + 1 <= j < found.len() && (#[trigger] found[j]).0 == Some(id)
                    && found[j].1.file_size() >= min_size;
            assert(tail[j - at].0 == tail[0].0);
        }
    }
}

/// Drop files below the size floor, and of several names for one physical file
/// all but the last. What is kept comes out last first.
fn keep(found: Vec<FoundFile>, min_size: u64) -> (backward: Vec<FileInfo>)
    ensures
        backward@.reverse() == last_names(found@, min_size),
{
    let ghost all = found@;
    let mut found = found;
    let mut backward: Vec<FileInfo> = Vec::new();
    let mut seen: HashMap<u64, HashSet<u64>> = HashMap::new();
    assert(all.skip(all.len() as int) == Seq::<FoundFile>::empty());
    while found.len() > 0
        invariant
            found.len() <= all.len(),
            found@ == all.take(found.len() as int),
            backward@.reverse() == last_names(all.skip(found.len() as int), min_size),
            forall|id: PhysicalId| #[trigger]
                is_noted(seen@, id) <==> found_from(all, found.len() as int, id, min_size),
        decreases found.len(),
    {
        let ghost at = found.len() - 1;
        let ghost seen0 = seen@;
        let ghost backward0 = backward@;
        match found.pop() {
            Some((id, info)) => {
                proof {
                    assert(all.skip(at).drop_first() == all.skip(at + 1));
                    assert(all[at] == (id, info));
                    lemma_first_superseded(all, at, min_size);
                }
                if info.size >= min_size {
                    let fresh = match id {
                        None => true,
                        Some(id) => note(&mut seen, id),
                    };
                    if fresh {
                        backward.push(info);
                        assert(backward@.reverse() == seq![info] + backward0.reverse());
                    }
                }
                assert forall|other: PhysicalId| #[trigger]
                    is_noted(seen@, other) <==> found_from(all, at, other, min_size) by {
                    assert(is_noted(seen0, other) <==> found_from(all, at + 1, other, min_size));
                    if found_from(all, at + 1, other, min_size) {
                        let j = choose|j: int|
                            at + 1 <= j < all.len() && (#[trigger] all[j]).0 == Some(other)
                                && all[j].1.file_size() >= min_size;
                        assert(all[j].0 == Some(other));
                    }
                    if id == Some(other) && info.file_size() >= min_size {
                        assert(all[at].0 == Some(other));
                    }
                }
            },
            None => {},
        }
    }
    assert(all.skip(0) == all);
    backward
}

/// Sample files of one size to one length. The files come last first, and go
/// out first first.
fn level(backward: Vec<FileInfo>) -> (files: Vec<FileInfo>)
    ensures
        files@ == leveled(backward@.reverse()),
{
    let ghost all = backward@.reverse();
    let mut largest: HashMap<u64, u64> = HashMap::new();
    let mut left: usize = backward.len();
    while left > 0
        invariant
            left <= backward.len(),
            all == backward@.reverse(),
            forall|size: u64|
                #![trigger largest@.contains_key(size)]
                common_sample(all.take(backward.len() - left), size)
                    == if largest@.contains_key(size) {
                    largest@[size]
                } else {
                    0
                },
        decreases left,
    {
        let ghost done = backward.len() - left;
        left = left - 1;
        let info = &backward[left];
        let known = match largest.get(&info.size) {
            Some(len) => *len,
            None => 0,
        };
        proof {
            assert(all[done] == info);
            assert(all.take(done + 1).drop_last() == all.take(done));
            assert(largest@.contains_key(info.size) || !largest@.contains_key(info.size));
        }
        if info.chunk_size > known {
            largest.insert(info.size, info.chunk_size);
        }
    }
    assert(all.take(all.len() as int) == all);
    let mut backward = backward;
    let mut files: Vec<FileInfo> = Vec::new();
    while backward.len() > 0
        invariant
            files.len() + backward.len() == all.len(),
            backward@ == all.skip(files.len() as int).reverse(),
            files@ == leveled(all).take(files.len() as int),
            forall|size: u64|
                #![trigger largest@.contains_key(size)]
                common_sample(all, size) == if largest@.contains_key(size) {
                    largest@[size]
                } else {
                    0
                },
        decreases backward.len(),
    {
        let ghost before = backward@;
        let ghost done = files.len() as int;
        match backward.pop() {
            Some(info) => {
                proof {
                    assert(before.last() == all.skip(done)[0]);
                    assert(info == all[done]);
                    assert(backward@ == all.skip(done + 1).reverse());
                    assert(leveled(all).take(done + 1) == leveled(all).take(done).push(
                        leveled(all)[done],
                    ));
                    assert(largest@.contains_key(info.size) || !largest@.contains_key(info.size));
                }
                let chunk_size = match largest.get(&info.size) {
                    Some(len) => *len,
                    None => 0,
                };
                files.push(FileInfo { path: info.path, size: info.size, chunk_size });
            },
            None => {},
        }
    }
    assert(leveled(all).take(all.len() as int) == leveled(all));
    files
}

/// Pass 1: bucket the files of a walk by size, honoring the size floor.
///
/// Hard links are collapsed: of several names for one physical file the last
/// one found survives, so that two names for the same bytes are never reported.
/// Files without a physical identity are all kept. All files of one size are
/// sampled to one length, the largest of any of them, so that identical files
/// have identical samples wherever they lie.
pub fn bucket_by_size(found: Vec<FoundFile>, opts: &ScanOptions) -> (buckets: HashMap<
    u64,
    Vec<FileInfo>,
>)
    ensures
        is_by_size(buckets@, kept(found@, opts.min_size)),
{
    let files = level(keep(found, opts.min_size));
    let ghost all = files@;
    let mut buckets: HashMap<u64, Vec<FileInfo>> = HashMap::new();
    proof {
        assert(all == kept(found@, opts.min_size));
        reveal(Seq::filter);
    }
    for info in it: files
        invariant
            it.seq() == all,
            is_by_size(buckets@, all.take(it.index())),
    {
        let ghost before = all.take(it.index());
        let ghost buckets0 = buckets@;
        let size = info.size;
        let bucket = buckets.entry(size).or_insert(Vec::new());
        bucket.push(info);
        proof {
            assert(all.take(it.index() + 1) == before.push(info));
            assert forall|k: u64|
                {
                    &&& #[trigger] buckets@.contains_key(k) <==> before.push(info).filter(
                        sized(k),
                    ).len() > 0
                    &&& buckets@.contains_key(k) ==> buckets@[k]@ == before.push(info).filter(
                        sized(k),
                    )
                } by {
                reveal(Seq::filter);
                assert(before.push(info).drop_last() == before);
                assert(buckets0.contains_key(k) <==> before.filter(sized(k)).len() > 0);
                if k == size && !buckets0.contains_key(k) {
                    assert(before.filter(sized(k)) == Seq::<FileInfo>::empty());
                }
            }
        }
    }
    assert(all.take(all.len() as int) == all);
    buckets
}

/// Remove and return the paths of empty (0-byte) files from `size_buckets`.
///
/// Empty files are trivially identical, so callers usually set them aside and
/// report them separately rather than hashing them into one giant group.
pub fn take_empty_files(size_buckets: &mut HashMap<u64, Vec<FileInfo>>) -> (paths: Vec<PathBuf>)
    ensures
        final(size_buckets)@ == old(size_buckets)@.remove(0),
        paths@ == if old(size_buckets)@.contains_key(0) {
            old(size_buckets)@[0]@.map_values(|file: FileInfo| file.file_path())
        } else {
            Seq::empty()
        },
{
    let mut paths: Vec<PathBuf> = Vec::new();
    match size_buckets.remove(&0) {
        Some(files) => {
            let ghost all = files@;
            for file in it: files
                invariant
                    it.seq() == all,
                    paths@ == all.take(it.index()).map_values(|file: FileInfo| file.file_path()),
            {
                paths.push(file.into_path());
                assert(all.take(it.index() + 1) == all.take(it.index()).push(file));
            }
            assert(all.take(all.len() as int) == all);
        },
        None => {},
    }
    paths
}

/// Whether `sizes` lists the sizes of the buckets in ascending order.
pub open spec fn is_size_list(buckets: Map<u64, Vec<FileInfo>>, sizes: Seq<u64>) -> bool {
    &&& forall|i: int, j: int|
        0 <= i < j < sizes.len() ==> #[trigger] sizes[i] < #[trigger] sizes[j]
    &&& forall|size: u64| #[trigger] buckets.contains_key(size) <==> sizes.contains(size)
}

/// The sizes of the buckets in ascending order.
fn list_sizes(buckets: &HashMap<u64, Vec<FileInfo>>) -> (sizes: Vec<u64>)
    ensures
        is_size_list(buckets@, sizes@),
{
    let mut unordered: Vec<(u64, u64)> = Vec::new();
    let ghost keys = vstd::std_specs::iter::IteratorSpec::remaining(&buckets.keys()).unref();
    for size in it: buckets.keys()
        invariant
            it.seq().unref() == keys,
            unordered.len() == it.index(),
            forall|i: int| 0 <= i < it.index() ==> #[trigger] unordered[i] == (keys[i], keys[i]),
    {
        unordered.push((*size, *size));
    }
    let ghost listed = unordered@;
    let ordered = sort_by_key(unordered);
    let ghost ranked = ordered@;
    let mut sizes: Vec<u64> = Vec::new();
    for pair in it: ordered
        invariant
            it.seq() == ranked,
            sizes.len() == it.index(),
            forall|i: int| 0 <= i < it.index() ==> #[trigger] sizes[i] == ranked[i].0,
    {
        sizes.push(pair.0);
    }
    proof {
        broadcast use vstd::seq_lib::to_multiset_contains;

        assert(keys.to_set() == buckets@.dom());
        assert(keys.no_duplicates());
        assert(listed.no_duplicates());
        listed.lemma_multiset_has_no_duplicates();
        ranked.lemma_multiset_has_no_duplicates_conv();
        assert forall|i: int| 0 <= i < ranked.len() implies keys.contains(
            (#[trigger] ranked[i]).0,
        ) && ranked[i].0 == ranked[i].1 by {
            assert(ranked.contains(ranked[i]));
            assert(listed.to_multiset().count(ranked[i]) > 0);
            assert(listed.contains(ranked[i]));
            let n = choose|n: int| 0 <= n < listed.len() && listed[n] == ranked[i];
            assert(keys[n] == ranked[i].0);
        }
        assert forall|i: int, j: int| 0 <= i < j < sizes@.len() implies #[trigger] sizes@[i]
            < #[trigger] sizes@[j] by {
            assert(ranked[i].0.at_most(ranked[j].0));
            assert(ranked[i] != ranked[j]);
        }
        assert forall|size: u64| #[trigger] buckets@.contains_key(size) <==> sizes@.contains(
            size,
        ) by {
            if buckets@.contains_key(size) {
                assert(keys.to_set().contains(size));
                let i = choose|i: int| 0 <= i < keys.len() && keys[i] == size;
                assert(listed[i] == (size, size));
                assert(listed.contains((size, size)));
                assert(ranked.to_multiset().count((size, size)) > 0);
                let j = choose|j: int| 0 <= j < ranked.len() && ranked[j] == (size, size);
                assert(sizes@[j] == size);
            }
            if sizes@.contains(size) {
                let j = choose|j: int| 0 <= j < sizes@.len() && sizes@[j] == size;
                assert(keys.contains(ranked[j].0));
                assert(keys.to_set().contains(size));
            }
        }
    }
    sizes
}

/// How many files are in the buckets of these sizes.
pub open spec fn file_count(buckets: Map<u64, Vec<FileInfo>>, sizes: Seq<u64>) -> nat
    decreases sizes.len(),
{
    if sizes.len() == 0 {
        0
    } else {
        file_count(buckets, sizes.drop_last()) + buckets[sizes.last()]@.len()
    }
}

proof fn lemma_file_count_grows(buckets: Map<u64, Vec<FileInfo>>, sizes: Seq<u64>, n: int)
    requires
        0 <= n <= sizes.len(),
    ensures
        file_count(buckets, sizes.take(n)) <= file_count(buckets, sizes),
    decreases sizes.len(),
{
    if n < sizes.len() {
        lemma_file_count_grows(buckets, sizes.drop_last(), n);
        assert(sizes.drop_last().take(n) == sizes.take(n));
    } else {
        assert(sizes.take(n) == sizes);
    }
}

/// How many files the buckets hold in all; `None` where the count does not fit.
pub fn count_files(size_buckets: &HashMap<u64, Vec<FileInfo>>) -> (count: Option<usize>)
    ensures
        exists|sizes: Seq<u64>| #[trigger]
            is_size_list(size_buckets@, sizes) && match count {
                Some(n) => n == file_count(size_buckets@, sizes),
                None => file_count(size_buckets@, sizes) > usize::MAX,
            },
{
    let sizes = list_sizes(size_buckets);
    let mut count: usize = 0;
    let mut at: usize = 0;
    assert(is_size_list(size_buckets@, sizes@));
    while at < sizes.len()
        invariant
            at <= sizes.len(),
            is_size_list(size_buckets@, sizes@),
            count == file_count(size_buckets@, sizes@.take(at as int)),
        decreases sizes.len() - at,
    {
        proof {
            assert(sizes@.contains(sizes@[at as int]));
            assert(sizes@.take(at + 1).drop_last() == sizes@.take(at as int));
            lemma_file_count_grows(size_buckets@, sizes@, at + 1);
        }
        match size_buckets.get(&sizes[at]) {
            Some(files) => match count.checked_add(files.len()) {
                Some(sum) => {
                    count = sum;
                },
                None => {
                    return None;
                },
            },
            None => {},
        }
        at = at + 1;
    }
    assert(sizes@.take(at as int) == sizes@);
    Some(count)
}

// ---- Pass 2: sample the files that share a size --------------------------------

/// The files in buckets of more than one, bucket after bucket.
pub open spec fn sharing(buckets: Map<u64, Vec<FileInfo>>, sizes: Seq<u64>) -> Seq<FileInfo>
    decreases sizes.len(),
{
    if sizes.len() == 0 {
        Seq::empty()
    } else {
        let rest = sharing(buckets, sizes.drop_last());
        let last = buckets[sizes.last()]@;
        if last.len() > 1 {
            rest + last
        } else {
            rest
        }
    }
}

proof fn lemma_sharing_grows(buckets: Map<u64, Vec<FileInfo>>, sizes: Seq<u64>, n: int)
    requires
        0 <= n <= sizes.len(),
    ensures
        sharing(buckets, sizes.take(n)).len() <= sharing(buckets, sizes).len(),
    decreases sizes.len(),
{
    if n < sizes.len() {
        lemma_sharing_grows(buckets, sizes.drop_last(), n);
        assert(sizes.drop_last().take(n) == sizes.take(n));
    } else {
        assert(sizes.take(n) == sizes);
    }
}

/// How many files share their size with another, and so have to be read;
/// `None` where the count does not fit.
pub fn count_candidates(size_buckets: &HashMap<u64, Vec<FileInfo>>) -> (count: Option<usize>)
    ensures
        exists|sizes: Seq<u64>| #[trigger]
            is_size_list(size_buckets@, sizes) && match count {
                Some(n) => n == sharing(size_buckets@, sizes).len(),
                None => sharing(size_buckets@, sizes).len() > usize::MAX,
            },
{
    let sizes = list_sizes(size_buckets);
    let mut count: usize = 0;
    let mut at: usize = 0;
    assert(is_size_list(size_buckets@, sizes@));
    while at < sizes.len()
        invariant
            at <= sizes.len(),
            is_size_list(size_buckets@, sizes@),
            count == sharing(size_buckets@, sizes@.take(at as int)).len(),
        decreases sizes.len() - at,
    {
        proof {
            assert(sizes@.contains(sizes@[at as int]));
            assert(sizes@.take(at + 1).drop_last() == sizes@.take(at as int));
            lemma_sharing_grows(size_buckets@, sizes@, at + 1);
        }
        match size_buckets.get(&sizes[at]) {
            Some(files) => {
                if files.len() > 1 {
                    match count.checked_add(files.len()) {
                        Some(sum) => {
                            count = sum;
                        },
                        None => {
                            return None;
                        },
                    }
                }
            },
            None => {},
        }
        at = at + 1;
    }
    assert(sizes@.take(at as int) == sizes@);
    Some(count)
}

/// A region of a file whose digest is wanted.
pub struct HashJob {
    /// The file.
    pub info: FileInfo,
    /// Where the region starts.
    pub offset: u64,
    /// How long the region is; `u64::MAX` stands for the rest of the file.
    pub len: u64,
    /// The digest, where an earlier pass has computed it: the file need not be
    /// read again.
    pub known: Option<Digest>,
}

/// A file, and the digest of a region of it; `None` where it could not be read.
pub type HashedFile = (FileInfo, Option<Digest>);

/// Where a sample of `chunk` bytes starts in a file of `size` bytes: a file no
/// larger than the sample is taken whole.
pub open spec fn sample_start(sample: Sample, size: int, chunk: int) -> int {
    let spare = if size > chunk {
        size - chunk
    } else {
        0
    };
    match sample {
        Sample::Start => 0,
        Sample::Middle => spare / 2,
        Sample::End => spare,
    }
}

/// The offset at which a file of `size` bytes is sampled, given the length of
/// the sample and where to take it. Zero for a file no larger than the sample,
/// which is then sampled whole.
pub fn sample_offset(sample: Sample, size: u64, chunk: u64) -> (offset: u64)
    ensures
        offset == sample_start(sample, size as int, chunk as int),
{
    let spare = size.saturating_sub(chunk);
    match sample {
        Sample::Start => 0,
        Sample::Middle => spare / 2,
        Sample::End => spare,
    }
}

/// The region that is sampled of a file.
pub open spec fn sample_job(info: FileInfo, sample: Sample) -> HashJob {
    HashJob {
        info,
        offset: sample_start(sample, info.file_size() as int, info.sample_len() as int) as u64,
        len: info.sample_len(),
        known: None,
    }
}

/// Whether `jobs` asks for a sample of every file that shares its size with
/// another, in ascending order of size, and of nothing else.
pub open spec fn are_sample_jobs(
    buckets: Map<u64, Vec<FileInfo>>,
    sample: Sample,
    jobs: Seq<HashJob>,
) -> bool {
    exists|sizes: Seq<u64>| #[trigger]
        is_size_list(buckets, sizes) && jobs == sharing(buckets, sizes).map_values(
            |info: FileInfo| sample_job(info, sample),
        )
}

/// Plan pass 2: what to read of which files. A file whose size is its own is
/// not read at all.
pub fn sample_jobs(size_buckets: HashMap<u64, Vec<FileInfo>>, sample: Sample) -> (jobs: Vec<
    HashJob,
>)
    ensures
        are_sample_jobs(size_buckets@, sample, jobs@),
{
    let ghost all = size_buckets@;
    let ghost to_job = |info: FileInfo| sample_job(info, sample);
    let mut size_buckets = size_buckets;
    let sizes = list_sizes(&size_buckets);
    let mut jobs: Vec<HashJob> = Vec::new();
    let mut at: usize = 0;
    while at < sizes.len()
        invariant
            at <= sizes.len(),
            is_size_list(all, sizes@),
            forall|i: int|
                at <= i < sizes.len() ==> size_buckets@.contains_key(#[trigger] sizes[i])
                    && size_buckets@[sizes[i]] == all[sizes[i]],
            to_job == (|info: FileInfo| sample_job(info, sample)),
            jobs@ == sharing(all, sizes@.take(at as int)).map_values(to_job),
        decreases sizes.len() - at,
    {
        let size = sizes[at];
        let ghost rest = sharing(all, sizes@.take(at as int));
        assert(sizes@.take(at + 1).drop_last() == sizes@.take(at as int));
        match size_buckets.remove(&size) {
            Some(files) => {
                let ghost bucket = files@;
                if files.len() > 1 {
                    let ghost before = jobs@;
                    for info in it: files
                        invariant
                            it.seq() == bucket,
                            to_job == (|info: FileInfo| sample_job(info, sample)),
                            jobs@ == before + bucket.take(it.index()).map_values(to_job),
                    {
                        let offset = sample_offset(sample, info.size, info.chunk_size);
                        let len = info.chunk_size;
                        assert(bucket.take(it.index() + 1) == bucket.take(it.index()).push(info));
                        jobs.push(HashJob { info, offset, len, known: None });
                    }
                    assert(bucket.take(bucket.len() as int) == bucket);
                    assert(jobs@ == (rest + bucket).map_values(to_job));
                }
            },
            None => {},
        }
        at = at + 1;
    }
    assert(sizes@.take(at as int) == sizes@);
    assert(is_size_list(all, sizes@));
    jobs
}

/// Whether `hashed` is what reading came to, job by job: the digest that was
/// known, or what `read` returned for the job.
pub open spec fn are_answers<R: Fn(&HashJob) -> Option<Digest>>(
    read: R,
    jobs: Seq<HashJob>,
    hashed: Seq<HashedFile>,
) -> bool {
    &&& hashed.len() == jobs.len()
    &&& forall|i: int|
        0 <= i < jobs.len() ==> {
            &&& (#[trigger] hashed[i]).0 == jobs[i].info
            &&& jobs[i].known is Some ==> hashed[i].1 == jobs[i].known
            &&& jobs[i].known is None ==> call_ensures(read, (&jobs[i],), hashed[i].1)
        }
}

/// Carry out the jobs one by one; `read` is not called for a digest that is
/// known.
fn run_jobs<R: Fn(&HashJob) -> Option<Digest>>(jobs: Vec<HashJob>, read: &R) -> (hashed: Vec<
    HashedFile,
>)
    requires
        forall|job: &HashJob| #[trigger] call_requires(*read, (job,)),
    ensures
        are_answers(*read, jobs@, hashed@),
{
    let ghost all = jobs@;
    let mut hashed: Vec<HashedFile> = Vec::new();
    for job in it: jobs
        invariant
            it.seq() == all,
            forall|job: &HashJob| #[trigger] call_requires(*read, (job,)),
            are_answers(*read, all.take(it.index()), hashed@),
    {
        let digest = match job.known {
            Some(digest) => Some(digest),
            None => read(&job),
        };
        assert(all.take(it.index() + 1) == all.take(it.index()).push(job));
        hashed.push((job.info, digest));
    }
    assert(all.take(all.len() as int) == all);
    hashed
}

/// What pass 2 buckets by: the size of the file and the digest of its sample.
#[derive(Clone, Copy, Debug)]
pub struct ChunkKey {
    /// The size of the file.
    pub size: u64,
    /// The digest of its sample.
    pub digest: Digest,
}

impl Ranked for ChunkKey {
    open spec fn at_most(self, other: ChunkKey) -> bool {
        self.size < other.size || (self.size == other.size && self.digest.at_most(other.digest))
    }

    proof fn lemma_total(a: ChunkKey, b: ChunkKey) {
        Digest::lemma_total(a.digest, b.digest);
    }

    proof fn lemma_transitive(a: ChunkKey, b: ChunkKey, c: ChunkKey) {
        if a.size == b.size && b.size == c.size {
            Digest::lemma_transitive(a.digest, b.digest, c.digest);
        }
    }

    fn is_at_most(&self, other: &ChunkKey) -> (r: bool) {
        self.size < other.size || (self.size == other.size && self.digest.is_at_most(
            &other.digest,
        ))
    }
}

/// The files that could be read, each with its size and digest as key.
pub open spec fn by_chunk(hashed: Seq<HashedFile>) -> Seq<(ChunkKey, FileInfo)>
    decreases hashed.len(),
{
    if hashed.len() == 0 {
        Seq::empty()
    } else {
        let rest = by_chunk(hashed.drop_last());
        match hashed.last().1 {
            Some(digest) => rest.push(
                (ChunkKey { size: hashed.last().0.file_size(), digest }, hashed.last().0),
            ),
            None => rest,
        }
    }
}

/// Bucket sampled files by size and digest; a file that could not be read is
/// left out.
pub fn bucket_by_chunk(hashed: Vec<HashedFile>) -> (buckets: Vec<(ChunkKey, Vec<FileInfo>)>)
    ensures
        is_bucketing(by_chunk(hashed@), buckets@),
{
    let ghost all = hashed@;
    let mut keyed: Vec<(ChunkKey, FileInfo)> = Vec::new();
    for file in it: hashed
        invariant
            it.seq() == all,
            keyed@ == by_chunk(all.take(it.index())),
    {
        assert(all.take(it.index() + 1).drop_last() == all.take(it.index()));
        match file.1 {
            Some(digest) => {
                let size = file.0.size;
                keyed.push((ChunkKey { size, digest }, file.0));
            },
            None => {},
        }
    }
    assert(all.take(all.len() as int) == all);
    bucket_by_key(keyed)
}

/// Pass 2: sample every file that shares its size with another, through
/// `read`, then bucket by size and digest of the sample. Only files of the same
/// size with the same sample can be duplicates.
pub fn chunk_hash<R: Fn(&HashJob) -> Option<Digest>>(
    size_buckets: HashMap<u64, Vec<FileInfo>>,
    sample: Sample,
    read: &R,
) -> (buckets: Vec<(ChunkKey, Vec<FileInfo>)>)
    requires
        forall|job: &HashJob| #[trigger] call_requires(*read, (job,)),
    ensures
        exists|jobs: Seq<HashJob>, hashed: Seq<HashedFile>|
            {
                &&& #[trigger] are_sample_jobs(size_buckets@, sample, jobs)
                &&& #[trigger] are_answers(*read, jobs, hashed)
                &&& is_bucketing(by_chunk(hashed), buckets@)
            },
{
    let jobs = sample_jobs(size_buckets, sample);
    let ghost asked = jobs@;
    let hashed = run_jobs(jobs, read);
    let ghost answers = hashed@;
    let buckets = bucket_by_chunk(hashed);
    assert(are_sample_jobs(size_buckets@, sample, asked));
    assert(are_answers(*read, asked, answers));
    buckets
}

// ---- Pass 3: confirm by the full hash -------------------------------------------

/// What pass 3 asks of a file with this sample: nothing where the sample
/// covered the whole file, else the digest of all of it.
pub open spec fn full_job(key: ChunkKey, info: FileInfo) -> HashJob {
    HashJob {
        info,
        offset: 0,
        len: u64::MAX,
        known: if info.file_size() <= info.sample_len() {
            Some(key.digest)
        } else {
            None
        },
    }
}

/// The jobs of pass 3: one for each file in a bucket of more than one, bucket
/// after bucket.
pub open spec fn full_jobs_of(buckets: Seq<(ChunkKey, Vec<FileInfo>)>) -> Seq<HashJob>
    decreases buckets.len(),
{
    if buckets.len() == 0 {
        Seq::empty()
    } else {
        let rest = full_jobs_of(buckets.drop_last());
        let (key, files) = buckets.last();
        if files@.len() > 1 {
            rest + files@.map_values(|info: FileInfo| full_job(key, info))
        } else {
            rest
        }
    }
}

/// The bucket of pass 2 that each job of pass 3 is about a member of.
pub open spec fn full_chunks_of(buckets: Seq<(ChunkKey, Vec<FileInfo>)>) -> Seq<usize>
    decreases buckets.len(),
{
    if buckets.len() == 0 {
        Seq::empty()
    } else {
        let rest = full_chunks_of(buckets.drop_last());
        let members = buckets.last().1@;
        if members.len() > 1 {
            rest + Seq::new(members.len(), |m: int| (buckets.len() - 1) as usize)
        } else {
            rest
        }
    }
}

/// Plan pass 3: which files to hash in full, and for each the position of the
/// bucket that it comes from.
pub fn full_jobs(chunk_buckets: Vec<(ChunkKey, Vec<FileInfo>)>) -> (planned: (
    Vec<usize>,
    Vec<HashJob>,
))
    ensures
        planned.0@ == full_chunks_of(chunk_buckets@),
        planned.1@ == full_jobs_of(chunk_buckets@),
        planned.0.len() == planned.1.len(),
{
    let ghost all = chunk_buckets@;
    let count = chunk_buckets.len();
    let mut chunks: Vec<usize> = Vec::new();
    let mut jobs: Vec<HashJob> = Vec::new();
    let mut at: usize = 0;
    for bucket in it: chunk_buckets
        invariant
            it.seq() == all,
            count == all.len(),
            at == it.index(),
            chunks.len() == jobs.len(),
            chunks@ == full_chunks_of(all.take(it.index())),
            jobs@ == full_jobs_of(all.take(it.index())),
    {
        assert(all.take(it.index() + 1).drop_last() == all.take(it.index()));
        let (key, files) = bucket;
        let ghost members = files@;
        let ghost before = jobs@;
        let ghost chunks0 = chunks@;
        let ghost to_job = |info: FileInfo| full_job(key, info);
        if files.len() > 1 {
            for info in inner: files
                invariant
                    inner.seq() == members,
                    to_job == (|info: FileInfo| full_job(key, info)),
                    chunks.len() == jobs.len(),
                    chunks@ == chunks0 + Seq::new(inner.index() as nat, |m: int| at),
                    jobs@ == before + members.take(inner.index()).map_values(to_job),
            {
                let known = if info.size <= info.chunk_size {
                    Some(key.digest)
                } else {
                    None
                };
                assert(members.take(inner.index() + 1) == members.take(inner.index()).push(info));
                chunks.push(at);
                jobs.push(HashJob { info, offset: 0, len: u64::MAX, known });
            }
            assert(members.take(members.len() as int) == members);
        }
        at = at + 1;
    }
    assert(all.take(all.len() as int) == all);
    (chunks, jobs)
}

/// Every job of pass 3 is about a member of the bucket of pass 2 that it comes
/// from.
pub proof fn lemma_full_job_source(buckets: Seq<(ChunkKey, Vec<FileInfo>)>, n: int) -> (m: int)
    requires
        0 <= n < full_jobs_of(buckets).len(),
        buckets.len() <= usize::MAX,
    ensures
        full_chunks_of(buckets).len() == full_jobs_of(buckets).len(),
        ({
            let c = full_chunks_of(buckets)[n] as int;
            &&& 0 <= c < buckets.len()
            &&& 0 <= m < buckets[c].1@.len()
            &&& full_jobs_of(buckets)[n] == full_job(buckets[c].0, buckets[c].1@[m])
        }),
    decreases buckets.len(),
{
    let rest = buckets.drop_last();
    lemma_full_lengths(rest);
    lemma_full_lengths(buckets);
    if n < full_jobs_of(rest).len() {
        let m = lemma_full_job_source(rest, n);
        let c = full_chunks_of(rest)[n] as int;
        assert(buckets[c] == rest[c]);
        m
    } else {
        n - full_jobs_of(rest).len()
    }
}

/// There is one position for each job of pass 3.
pub proof fn lemma_full_lengths(buckets: Seq<(ChunkKey, Vec<FileInfo>)>)
    ensures
        full_chunks_of(buckets).len() == full_jobs_of(buckets).len(),
    decreases buckets.len(),
{
    if buckets.len() > 0 {
        lemma_full_lengths(buckets.drop_last());
    }
}

/// What pass 3 buckets by: the digest of all that a file holds, and the bucket
/// of pass 2 that the file comes from.
#[derive(Clone, Copy, Debug)]
pub struct FullKey {
    /// The digest of the whole file.
    pub digest: Digest,
    /// The position of the bucket of pass 2.
    pub chunk: usize,
}

impl Ranked for FullKey {
    open spec fn at_most(self, other: FullKey) -> bool {
        self.digest.at_most(other.digest) && (other.digest.at_most(self.digest) ==> self.chunk
            <= other.chunk)
    }

    proof fn lemma_total(a: FullKey, b: FullKey) {
        Digest::lemma_total(a.digest, b.digest);
    }

    proof fn lemma_transitive(a: FullKey, b: FullKey, c: FullKey) {
        Digest::lemma_transitive(a.digest, b.digest, c.digest);
        if c.digest.at_most(a.digest) {
            Digest::lemma_transitive(c.digest, a.digest, b.digest);
            Digest::lemma_transitive(b.digest, c.digest, a.digest);
        }
    }

    fn is_at_most(&self, other: &FullKey) -> (r: bool) {
        self.digest.is_at_most(&other.digest) && (!other.digest.is_at_most(&self.digest)
            || self.chunk <= other.chunk)
    }
}

/// The files that could be read, each with its digest and the bucket that it
/// comes from as key.
pub open spec fn by_digest(chunks: Seq<usize>, hashed: Seq<HashedFile>) -> Seq<(FullKey, FileInfo)>
    decreases hashed.len(),
{
    if hashed.len() == 0 {
        Seq::empty()
    } else {
        let rest = by_digest(chunks, hashed.drop_last());
        match hashed.last().1 {
            Some(digest) => rest.push(
                (FullKey { digest, chunk: chunks[hashed.len() - 1] }, hashed.last().0),
            ),
            None => rest,
        }
    }
}

/// A keyed item of pass 3 is one of the files that were hashed, with the bucket
/// that it comes from.
pub proof fn lemma_digest_source(chunks: Seq<usize>, hashed: Seq<HashedFile>, n: int) -> (k: int)
    requires
        0 <= n < by_digest(chunks, hashed).len(),
    ensures
        0 <= k < hashed.len(),
        hashed[k].0 == by_digest(chunks, hashed)[n].1,
        hashed[k].1 == Some(by_digest(chunks, hashed)[n].0.digest),
        chunks[k] == by_digest(chunks, hashed)[n].0.chunk,
    decreases hashed.len(),
{
    let rest = hashed.drop_last();
    if n < by_digest(chunks, rest).len() {
        lemma_digest_source(chunks, rest, n)
    } else {
        hashed.len() - 1
    }
}

/// Bucket files by the digest of all they hold, apart for each bucket of pass 2
/// that they come from; a file that could not be read is left out.
pub fn bucket_by_digest(chunks: Vec<usize>, hashed: Vec<HashedFile>) -> (buckets: Vec<
    (FullKey, Vec<FileInfo>),
>)
    requires
        chunks.len() == hashed.len(),
    ensures
        is_bucketing(by_digest(chunks@, hashed@), buckets@),
{
    let ghost all = hashed@;
    let mut keyed: Vec<(FullKey, FileInfo)> = Vec::new();
    let mut at: usize = 0;
    for file in it: hashed
        invariant
            it.seq() == all,
            chunks.len() == all.len(),
            at == it.index(),
            keyed@ == by_digest(chunks@, all.take(it.index())),
    {
        assert(all.take(it.index() + 1).drop_last() == all.take(it.index()));
        match file.1 {
            Some(digest) => {
                keyed.push((FullKey { digest, chunk: chunks[at] }, file.0));
            },
            None => {},
        }
        at = at + 1;
    }
    assert(all.take(all.len() as int) == all);
    bucket_by_key(keyed)
}

/// Whether all these files were in the bucket of pass 2 that the key names.
pub open spec fn is_within(
    chunk_buckets: Seq<(ChunkKey, Vec<FileInfo>)>,
    key: FullKey,
    files: Seq<FileInfo>,
) -> bool {
    &&& key.chunk < chunk_buckets.len()
    &&& forall|m: int|
        0 <= m < files.len() ==> chunk_buckets[key.chunk as int].1@.contains(#[trigger] files[m])
}

/// Files of one bucket of pass 3 were in one bucket of pass 2.
pub proof fn lemma_within<R: Fn(&HashJob) -> Option<Digest>>(
    read: R,
    chunk_buckets: Seq<(ChunkKey, Vec<FileInfo>)>,
    hashed: Seq<HashedFile>,
    buckets: Seq<(FullKey, Vec<FileInfo>)>,
    b: int,
)
    requires
        chunk_buckets.len() <= usize::MAX,
        are_answers(read, full_jobs_of(chunk_buckets), hashed),
        is_bucketing(by_digest(full_chunks_of(chunk_buckets), hashed), buckets),
        0 <= b < buckets.len(),
    ensures
        is_within(chunk_buckets, buckets[b].0, buckets[b].1@),
{
    let chunks = full_chunks_of(chunk_buckets);
    let keyed = by_digest(chunks, hashed);
    let key = buckets[b].0;
    let files = buckets[b].1@;
    assert forall|m: int| 0 <= m < files.len() implies key.chunk < chunk_buckets.len()
        && chunk_buckets[key.chunk as int].1@.contains(#[trigger] files[m]) by {
        let n = lemma_bucket_source(keyed, buckets, b, m);
        let k = lemma_digest_source(chunks, hashed, n);
        assert(hashed[k].0 == full_jobs_of(chunk_buckets)[k].info);
        let at = lemma_full_job_source(chunk_buckets, k);
        assert(chunk_buckets[key.chunk as int].1@[at] == files[m]);
    }
    assert(files.len() > 0);
    assert(chunk_buckets[key.chunk as int].1@.contains(files[0]));
}

/// Pass 3: hash the files that are left in full, through `read`, and bucket by
/// that digest within each bucket of pass 2. A file that its sample covered is
/// not read a second time.
pub fn confirm_by_full_hash<R: Fn(&HashJob) -> Option<Digest>>(
    chunk_buckets: Vec<(ChunkKey, Vec<FileInfo>)>,
    read: &R,
) -> (buckets: Vec<(FullKey, Vec<FileInfo>)>)
    requires
        forall|job: &HashJob| #[trigger] call_requires(*read, (job,)),
    ensures
        exists|hashed: Seq<HashedFile>|
            {
                &&& #[trigger] are_answers(*read, full_jobs_of(chunk_buckets@), hashed)
                &&& is_bucketing(by_digest(full_chunks_of(chunk_buckets@), hashed), buckets@)
            },
        forall|b: int|
            0 <= b < buckets.len() ==> is_within(
                chunk_buckets@,
                (#[trigger] buckets[b]).0,
                buckets[b].1@,
            ),
{
    assert(chunk_buckets.len() <= usize::MAX);
    let ghost before = chunk_buckets@;
    let (chunks, jobs) = full_jobs(chunk_buckets);
    let hashed = run_jobs(jobs, read);
    let ghost answers = hashed@;
    let buckets = bucket_by_digest(chunks, hashed);
    proof {
        assert(are_answers(*read, full_jobs_of(before), answers));
        assert forall|b: int| 0 <= b < buckets.len() implies is_within(
            before,
            (#[trigger] buckets[b]).0,
            buckets[b].1@,
        ) by {
            lemma_within(*read, before, answers, buckets@, b);
        }
    }
    buckets
}

// ---- Pass 4: assemble the report ------------------------------------------------

/// The order of files by path.
pub open spec fn file_order() -> spec_fn(FileInfo, FileInfo) -> bool {
    |a: FileInfo, b: FileInfo| path_at_most(a.file_path(), b.file_path())
}

/// The order of groups in the report: largest files first, then by first path.
pub open spec fn group_order() -> spec_fn(GroupView, GroupView) -> bool {
    |a: GroupView, b: GroupView|
        a.size > b.size || (a.size == b.size && path_at_most(a.paths[0], b.paths[0]))
}

/// Files compare by path.
pub proof fn lemma_file_order()
    ensures
        is_order(file_order()),
{
    lemma_part_order();
    let order = file_order();
    assert forall|a: FileInfo, b: FileInfo| #[trigger] order(a, b) || #[trigger] order(b, a) by {
        lemma_lex_total(components(a.file_path()), components(b.file_path()), part_order());
    }
    assert forall|a: FileInfo, b: FileInfo, c: FileInfo| #[trigger]
        order(a, b) && #[trigger] order(b, c) implies order(a, c) by {
        lemma_lex_transitive(
            components(a.file_path()),
            components(b.file_path()),
            components(c.file_path()),
            part_order(),
        );
    }
}

/// Groups compare by size and first path.
pub proof fn lemma_group_order()
    ensures
        is_order(group_order()),
{
    lemma_part_order();
    let order = group_order();
    assert forall|a: GroupView, b: GroupView| #[trigger] order(a, b) || #[trigger] order(b, a) by {
        lemma_lex_total(components(a.paths[0]), components(b.paths[0]), part_order());
    }
    assert forall|a: GroupView, b: GroupView, c: GroupView| #[trigger]
        order(a, b) && #[trigger] order(b, c) implies order(a, c) by {
        if a.size == b.size && b.size == c.size {
            lemma_lex_transitive(
                components(a.paths[0]),
                components(b.paths[0]),
                components(c.paths[0]),
                part_order(),
            );
        }
    }
}

/// Whether `group` reports these files: their paths in order, and the size of
/// the first.
pub open spec fn is_group_of(files: Seq<FileInfo>, group: GroupView) -> bool {
    exists|sorted: Seq<FileInfo>|
        {
            &&& #[trigger] is_sorted_copy(files, sorted, file_order())
            &&& group.size == sorted[0].file_size()
            &&& group.paths == sorted.map_values(|file: FileInfo| file.file_path())
        }
}

/// The buckets of more than one file, in their order.
pub open spec fn crowded(buckets: Seq<(FullKey, Vec<FileInfo>)>) -> Seq<Seq<FileInfo>>
    decreases buckets.len(),
{
    if buckets.len() == 0 {
        Seq::empty()
    } else {
        let rest = crowded(buckets.drop_last());
        if buckets.last().1@.len() > 1 {
            rest.push(buckets.last().1@)
        } else {
            rest
        }
    }
}

/// What the groups say.
pub open spec fn group_views(groups: Seq<DupGroup>) -> Seq<GroupView> {
    groups.map_values(|group: DupGroup| group@)
}

/// Whether `groups` is the report on these sets of files: one group for each,
/// the groups in order.
pub open spec fn is_report(sets: Seq<Seq<FileInfo>>, groups: Seq<GroupView>) -> bool {
    exists|unordered: Seq<GroupView>|
        {
            &&& unordered.len() == sets.len()
            &&& forall|i: int|
                0 <= i < sets.len() ==> is_group_of(#[trigger] sets[i], unordered[i])
            &&& #[trigger] is_sorted_copy(unordered, groups, group_order())
        }
}

/// What groups are sorted by.
struct GroupKey {
    size: u64,
    first: PathKey,
}

impl Ranked for GroupKey {
    closed spec fn at_most(self, other: GroupKey) -> bool {
        self.size > other.size || (self.size == other.size && self.first.at_most(other.first))
    }

    proof fn lemma_total(a: GroupKey, b: GroupKey) {
        PathKey::lemma_total(a.first, b.first);
    }

    proof fn lemma_transitive(a: GroupKey, b: GroupKey, c: GroupKey) {
        if a.size == b.size && b.size == c.size {
            PathKey::lemma_transitive(a.first, b.first, c.first);
        }
    }

    fn is_at_most(&self, other: &GroupKey) -> (r: bool) {
        self.size > other.size || (self.size == other.size && self.first.is_at_most(&other.first))
    }
}

/// Report one set of files as a group.
fn group_of(files: Vec<FileInfo>) -> (group: DupGroup)
    requires
        files.len() > 0,
    ensures
        is_group_of(files@, group@),
        group.paths.len() == files.len(),
{
    let ghost all = files@;
    let mut keyed: Vec<(PathKey, FileInfo)> = Vec::new();
    for file in it: files
        invariant
            it.seq() == all,
            keyed.len() == it.index(),
            forall|i: int|
                0 <= i < it.index() ==> (#[trigger] keyed[i]).1 == all[i] && keyed[i].0@
                    == components(all[i].file_path()),
    {
        let key = path_key(&file.path);
        keyed.push((key, file));
    }
    let ghost show = |item: (PathKey, FileInfo)| item.1;
    let ghost input = keyed@;
    let sorted = sort_by_key(keyed);
    let ghost ranked = sorted@;
    let ghost listed = ranked.map_values(show);
    proof {
        lemma_file_order();
        lemma_sorted_shown(input, ranked, show, file_order());
        assert(input.map_values(show) == all);
        assert(is_sorted_copy(all, listed, file_order()));
    }
    let size = sorted[0].1.size;
    let mut paths: Vec<PathBuf> = Vec::new();
    for item in it: sorted
        invariant
            it.seq() == ranked,
            paths.len() == it.index(),
            forall|i: int|
                0 <= i < it.index() ==> #[trigger] paths[i] == ranked[i].1.file_path(),
    {
        paths.push(item.1.into_path());
    }
    assert(paths@ == listed.map_values(|file: FileInfo| file.file_path()));
    DupGroup { size, paths }
}

/// Pass 4: turn the buckets of pass 3 into the reported groups. Buckets of one are
/// dropped, paths are sorted within each group, and the groups are ordered
/// largest first, then by path.
pub fn assemble_groups(by_hash: Vec<(FullKey, Vec<FileInfo>)>) -> (groups: Vec<DupGroup>)
    ensures
        is_report(crowded(by_hash@), group_views(groups@)),
{
    let ghost all = by_hash@;
    let ghost show = |item: (GroupKey, DupGroup)| item.1@;
    let mut keyed: Vec<(GroupKey, DupGroup)> = Vec::new();
    for bucket in it: by_hash
        invariant
            it.seq() == all,
            keyed.len() == crowded(all.take(it.index())).len(),
            forall|i: int|
                0 <= i < keyed.len() ==> {
                    &&& is_group_of(crowded(all.take(it.index()))[i], (#[trigger] keyed[i]).1@)
                    &&& keyed[i].0.size == keyed[i].1.size
                    &&& keyed[i].0.first@ == components(keyed[i].1.paths[0])
                },
    {
        assert(all.take(it.index() + 1).drop_last() == all.take(it.index()));
        let (_key, files) = bucket;
        if files.len() > 1 {
            let group = group_of(files);
            let key = GroupKey { size: group.size, first: path_key(&group.paths[0]) };
            keyed.push((key, group));
        }
    }
    assert(all.take(all.len() as int) == all);
    let ghost input = keyed@;
    let sorted = sort_by_key(keyed);
    let ghost ranked = sorted@;
    proof {
        lemma_group_order();
        lemma_sorted_shown(input, ranked, show, group_order());
    }
    let mut groups: Vec<DupGroup> = Vec::new();
    for item in it: sorted
        invariant
            it.seq() == ranked,
            groups.len() == it.index(),
            forall|i: int| 0 <= i < it.index() ==> #[trigger] groups[i] == ranked[i].1,
    {
        groups.push(item.1);
    }
    assert(group_views(groups@) == ranked.map_values(show));
    assert(is_sorted_copy(input.map_values(show), group_views(groups@), group_order()));
    groups
}

// ---- The whole scan ------------------------------------------------------------

/// How one scan went, from the files that the walk found to the report.
pub struct ScanTrace {
    /// The buckets of pass 1.
    pub by_size: Map<u64, Vec<FileInfo>>,
    /// What pass 2 asked for.
    pub sample_jobs: Seq<HashJob>,
    /// What reading the samples came to.
    pub sampled: Seq<HashedFile>,
    /// The buckets of pass 2.
    pub by_chunk: Seq<(ChunkKey, Vec<FileInfo>)>,
    /// What reading files in full came to.
    pub confirmed: Seq<HashedFile>,
    /// The buckets of pass 3.
    pub by_digest: Seq<(FullKey, Vec<FileInfo>)>,
}

/// Whether the passes follow one another as they should, whatever reading came
/// to.
pub open spec fn is_scan(
    found: Seq<FoundFile>,
    min_size: u64,
    sample: Sample,
    trace: ScanTrace,
    groups: Seq<GroupView>,
) -> bool {
    &&& is_by_size(trace.by_size, kept(found, min_size))
    &&& are_sample_jobs(trace.by_size, sample, trace.sample_jobs)
    &&& is_bucketing(by_chunk(trace.sampled), trace.by_chunk)
    &&& trace.by_chunk.len() <= usize::MAX
    &&& is_bucketing(by_digest(full_chunks_of(trace.by_chunk), trace.confirmed), trace.by_digest)
    &&& is_report(crowded(trace.by_digest), groups)
}

/// Whether `groups` is what a scan reports on the files that a walk found,
/// where the files are read through `read`.
pub open spec fn is_outcome<R: Fn(&HashJob) -> Option<Digest>>(
    read: R,
    found: Seq<FoundFile>,
    min_size: u64,
    sample: Sample,
    groups: Seq<GroupView>,
) -> bool {
    exists|trace: ScanTrace|
        {
            &&& #[trigger] is_scan(found, min_size, sample, trace, groups)
            &&& are_answers(read, trace.sample_jobs, trace.sampled)
            &&& are_answers(read, full_jobs_of(trace.by_chunk), trace.confirmed)
        }
}

/// Report groups of files with identical contents among those that a walk
/// found, reading them through `read`.
pub fn find_duplicates<R: Fn(&HashJob) -> Option<Digest>>(
    found: Vec<FoundFile>,
    opts: &ScanOptions,
    read: &R,
) -> (groups: Vec<DupGroup>)
    requires
        forall|job: &HashJob| #[trigger] call_requires(*read, (job,)),
    ensures
        is_outcome(*read, found@, opts.min_size, opts.sample, group_views(groups@)),
{
    let size_buckets = bucket_by_size(found, opts);
    let ghost sizes = size_buckets@;
    let chunk_buckets = chunk_hash(size_buckets, opts.sample, read);
    let ghost chunks = chunk_buckets@;
    assert(chunk_buckets.len() <= usize::MAX);
    let by_hash = confirm_by_full_hash(chunk_buckets, read);
    let ghost hashes = by_hash@;
    let groups = assemble_groups(by_hash);
    proof {
        let (jobs, sampled) = choose|jobs: Seq<HashJob>, sampled: Seq<HashedFile>|
            {
                &&& #[trigger] are_sample_jobs(sizes, opts.sample, jobs)
                &&& #[trigger] are_answers(*read, jobs, sampled)
                &&& is_bucketing(by_chunk(sampled), chunks)
            };
        let confirmed = choose|confirmed: Seq<HashedFile>|
            {
                &&& #[trigger] are_answers(*read, full_jobs_of(chunks), confirmed)
                &&& is_bucketing(by_digest(full_chunks_of(chunks), confirmed), hashes)
            };
        let trace = ScanTrace {
            by_size: sizes,
            sample_jobs: jobs,
            sampled,
            by_chunk: chunks,
            confirmed,
            by_digest: hashes,
        };
        assert(is_scan(found@, opts.min_size, opts.sample, trace, group_views(groups@)));
    }
    groups
}

// ---- Totals --------------------------------------------------------------------

/// Total bytes reclaimable by keeping one file of each group.
pub open spec fn reclaimable(groups: Seq<DupGroup>) -> int
    decreases groups.len(),
{
    if groups.len() == 0 {
        0
    } else {
        reclaimable(groups.drop_last()) + groups.last().size * (groups.last().paths@.len() - 1)
    }
}

/// Total number of files in all groups.
pub open spec fn grouped(groups: Seq<DupGroup>) -> nat
    decreases groups.len(),
{
    if groups.len() == 0 {
        0
    } else {
        grouped(groups.drop_last()) + groups.last().paths@.len()
    }
}

/// Whether every group holds at least one file.
pub open spec fn no_empty_group(groups: Seq<DupGroup>) -> bool {
    forall|i: int| 0 <= i < groups.len() ==> (#[trigger] groups[i]).paths@.len() > 0
}

proof fn lemma_totals_grow(groups: Seq<DupGroup>, n: int)
    requires
        0 <= n <= groups.len(),
    ensures
        no_empty_group(groups) ==> 0 <= reclaimable(groups.take(n)) <= reclaimable(groups),
        grouped(groups.take(n)) <= grouped(groups),
    decreases groups.len(),
{
    if groups.len() == 0 {
        assert(groups.take(n) == groups);
    } else {
        let rest = groups.drop_last();
        let last = groups.last();
        let m = if n < groups.len() {
            n
        } else {
            n - 1
        };
        lemma_totals_grow(rest, m);
        assert(n < groups.len() ==> rest.take(m) == groups.take(n));
        assert(n == groups.len() ==> rest.take(m) == rest && groups.take(n) == groups);
        if no_empty_group(groups) {
            assert forall|i: int| 0 <= i < rest.len() implies (#[trigger] rest[i]).paths@.len()
                > 0 by {
                assert(groups[i].paths@.len() > 0);
            }
            assert(groups[groups.len() - 1].paths@.len() > 0);
            assert(0 <= last.size * (last.paths@.len() - 1)) by (nonlinear_arith)
                requires
                    last.paths@.len() > 0,
            ;
        }
    }
}

/// Total bytes reclaimable by keeping a single copy of each duplicate group;
/// `None` where a group is empty or the total does not fit.
pub fn checked_reclaimable_bytes(groups: &[DupGroup]) -> (total: Option<u64>)
    ensures
        total is Some <==> no_empty_group(groups@) && reclaimable(groups@) <= u64::MAX,
        total matches Some(n) ==> n == reclaimable(groups@),
{
    let mut total: u64 = 0;
    let mut at: usize = 0;
    while at < groups.len()
        invariant
            at <= groups.len(),
            forall|i: int| 0 <= i < at ==> (#[trigger] groups@[i]).paths@.len() > 0,
            total == reclaimable(groups@.take(at as int)),
        decreases groups.len() - at,
    {
        let group = &groups[at];
        proof {
            assert(groups@.take(at + 1).drop_last() == groups@.take(at as int));
            lemma_totals_grow(groups@, at + 1);
        }
        if group.paths.len() == 0 {
            return None;
        }
        match group.size.checked_mul((group.paths.len() - 1) as u64) {
            Some(bytes) => match total.checked_add(bytes) {
                Some(sum) => {
                    total = sum;
                },
                None => {
                    return None;
                },
            },
            None => {
                return None;
            },
        }
        at = at + 1;
    }
    assert(groups@.take(at as int) == groups@);
    Some(total)
}

/// Total bytes reclaimable by keeping a single copy of each duplicate group.
pub fn reclaimable_bytes(groups: &[DupGroup]) -> (total: u64)
    requires
        no_empty_group(groups@),
        reclaimable(groups@) <= u64::MAX,
    ensures
        total == reclaimable(groups@),
{
    match checked_reclaimable_bytes(groups) {
        Some(total) => total,
        None => 0,
    }
}

/// Total number of files spanned by all duplicate groups; `None` where it does
/// not fit.
pub fn checked_duplicate_files(groups: &[DupGroup]) -> (total: Option<usize>)
    ensures
        total is Some <==> grouped(groups@) <= usize::MAX,
        total matches Some(n) ==> n == grouped(groups@),
{
    let mut total: usize = 0;
    let mut at: usize = 0;
    while at < groups.len()
        invariant
            at <= groups.len(),
            total == grouped(groups@.take(at as int)),
        decreases groups.len() - at,
    {
        proof {
            assert(groups@.take(at + 1).drop_last() == groups@.take(at as int));
            lemma_totals_grow(groups@, at + 1);
        }
        match total.checked_add(groups[at].paths.len()) {
            Some(sum) => {
                total = sum;
            },
            None => {
                return None;
            },
        }
        at = at + 1;
    }
    assert(groups@.take(at as int) == groups@);
    Some(total)
}

/// Total number of files spanned by all duplicate groups.
pub fn duplicate_files(groups: &[DupGroup]) -> (total: usize)
    requires
        grouped(groups@) <= usize::MAX,
    ensures
        total == grouped(groups@),
{
    match checked_duplicate_files(groups) {
        Some(total) => total,
        None => 0,
    }
}

} // verus!
