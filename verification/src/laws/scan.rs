//! What holds of a scan as a whole.

use std::path::PathBuf;

use vstd::prelude::*;

use crate::dedupe::{
    are_answers, are_sample_jobs, by_chunk, by_digest, crowded, full_chunks_of, full_job,
    full_jobs_of, is_by_size, is_group_of, is_outcome, is_scan, is_size_list, kept,
    lemma_full_job_source, lemma_within, sample_job, sample_start, sharing, sized, ChunkKey,
    FileInfo, FoundFile, FullKey, GroupView, HashJob, HashedFile, Sample, ScanTrace,
};
use crate::digest::{blake3_hash, lemma_same_digest, region, Digest};
use crate::laws::report::{
    law_group_lists_its_files, law_report_is_unique, lemma_crowded_apart, lemma_crowded_lists,
    lemma_crowded_source, lemma_report_has, lemma_report_pair, lemma_report_source,
};
use crate::laws::walk::{
    is_last_name, kept_places, law_files_of_one_size_are_sampled_alike, law_last_names_are_kept,
};
use crate::order::{precedes, same_rank, Ranked};
use crate::sort::{
    has_bucket, lemma_bucket_source, lemma_filter_agree, lemma_filter_members, lemma_filter_none,
    lemma_shown_of_rank, values, with_rank,
};

verus! {

/// What stands at each path; `None` where it cannot be read.
pub type Contents = spec_fn(PathBuf) -> Option<Seq<u8>>;

/// The test for files that can be read.
pub open spec fn readable(contents: Contents) -> spec_fn(FileInfo) -> bool {
    |file: FileInfo| contents(file.file_path()) is Some
}

/// What a readable file holds.
pub open spec fn content(contents: Contents, file: FileInfo) -> Seq<u8> {
    contents(file.file_path())->Some_0
}

/// The hash of all that a file holds.
pub open spec fn full_hash(contents: Contents, file: FileInfo) -> Seq<u8> {
    blake3_hash(content(contents, file))
}

/// The hash of the sample of a file.
pub open spec fn sample_hash(contents: Contents, sample: Sample, file: FileInfo) -> Seq<u8> {
    let job = sample_job(file, sample);
    blake3_hash(region(content(contents, file), job.offset as int, job.len as int))
}

/// Whether every job was answered by the digest that was known, or else, where
/// the file can be read, by the hash of its region.
pub open spec fn is_faithful(
    contents: Contents,
    jobs: Seq<HashJob>,
    hashed: Seq<HashedFile>,
) -> bool {
    &&& hashed.len() == jobs.len()
    &&& forall|i: int|
        0 <= i < jobs.len() ==> {
            &&& (#[trigger] hashed[i]).0 == jobs[i].info
            &&& jobs[i].known is Some ==> hashed[i].1 == jobs[i].known
            &&& jobs[i].known is None ==> {
                &&& hashed[i].1 is Some <==> readable(contents)(jobs[i].info)
                &&& hashed[i].1 is Some ==> (hashed[i].1->Some_0)@ == blake3_hash(
                    region(
                        content(contents, jobs[i].info),
                        jobs[i].offset as int,
                        jobs[i].len as int,
                    ),
                )
            }
        }
}

/// The kept files that can be read, in the order of the walk.
pub open spec fn readable_files(
    contents: Contents,
    found: Seq<FoundFile>,
    min_size: u64,
) -> Seq<FileInfo> {
    kept(found, min_size).filter(readable(contents))
}

/// Whether the recorded sizes are those of the files.
pub open spec fn sizes_hold(contents: Contents, files: Seq<FileInfo>) -> bool {
    forall|i: int|
        0 <= i < files.len() ==> content(contents, #[trigger] files[i]).len()
            == files[i].file_size()
}

/// Whether no two of the files hash alike without being alike.
pub open spec fn no_collisions(contents: Contents, files: Seq<FileInfo>) -> bool {
    forall|i: int, j: int|
        0 <= i < files.len() && 0 <= j < files.len() && full_hash(contents, #[trigger] files[i])
            == full_hash(contents, #[trigger] files[j]) ==> content(contents, files[i]) == content(
            contents,
            files[j],
        )
}

/// The test for files that hold `bytes`.
pub open spec fn holding(contents: Contents, bytes: Seq<u8>) -> spec_fn(FileInfo) -> bool {
    |file: FileInfo| content(contents, file) == bytes
}

/// The files that hold the same as the one at `i`, itself among them.
pub open spec fn twins(contents: Contents, files: Seq<FileInfo>, i: int) -> Seq<FileInfo> {
    files.filter(holding(contents, content(contents, files[i])))
}

/// One scan: what stands at each path, what the walk found, the options, how
/// the scan went, and what it reported.
pub struct Scan {
    pub contents: Contents,
    pub found: Seq<FoundFile>,
    pub min_size: u64,
    pub sample: Sample,
    pub trace: ScanTrace,
    pub groups: Seq<GroupView>,
}

impl Scan {
    /// The kept files that can be read.
    pub open spec fn files(self) -> Seq<FileInfo> {
        readable_files(self.contents, self.found, self.min_size)
    }

    /// Whether every read was faithful and the sizes are those of the files.
    pub open spec fn is_faithful(self) -> bool {
        &&& is_scan(self.found, self.min_size, self.sample, self.trace, self.groups)
        &&& is_faithful(self.contents, self.trace.sample_jobs, self.trace.sampled)
        &&& is_faithful(self.contents, full_jobs_of(self.trace.by_chunk), self.trace.confirmed)
        &&& sizes_hold(self.contents, self.files())
    }

    /// The hash of the sample of a file.
    pub open spec fn sample_hash(self, file: FileInfo) -> Seq<u8> {
        sample_hash(self.contents, self.sample, file)
    }

    /// The hash of all that a file holds.
    pub open spec fn full_hash(self, file: FileInfo) -> Seq<u8> {
        full_hash(self.contents, file)
    }

    /// Whether two files agree in size and in the hashes of sample and contents.
    pub open spec fn agree(self, a: FileInfo, b: FileInfo) -> bool {
        &&& a.file_size() == b.file_size()
        &&& self.sample_hash(a) == self.sample_hash(b)
        &&& self.full_hash(a) == self.full_hash(b)
    }

    /// The files that pass 3 looks at.
    spec fn confirmed_files(self) -> Seq<FileInfo> {
        infos(full_jobs_of(self.trace.by_chunk))
    }

    /// The test for readable files of this size whose sample has this hash.
    spec fn chunked(self, size: u64, hash: Seq<u8>) -> spec_fn(FileInfo) -> bool {
        chunked(self.contents, self.sample, size, hash)
    }

    /// The test for readable files that belong into a bucket of pass 2.
    spec fn in_chunk(self, c: int) -> spec_fn(FileInfo) -> bool {
        let key = self.trace.by_chunk[c].0;
        self.chunked(key.size, key.digest@)
    }

    /// The test for readable files that belong into a bucket of pass 3.
    spec fn confirming(self, key: FullKey) -> spec_fn(FileInfo) -> bool {
        |file: FileInfo|
            self.in_chunk(key.chunk as int)(file) && self.full_hash(file) == key.digest@
    }
}

// ---- Samples -------------------------------------------------------------------

/// A file no larger than its sample is sampled whole, wherever the sample is
/// taken.
pub proof fn law_small_files_are_sampled_whole(
    contents: Seq<u8>,
    sample: Sample,
    size: int,
    chunk: int,
)
    requires
        contents.len() == size,
        size <= chunk,
    ensures
        sample_start(sample, size, chunk) == 0,
        region(contents, sample_start(sample, size, chunk), chunk) == contents,
{
    assert(region(contents, 0, chunk) == contents);
}

/// A sample of a larger file lies within the file and is of full length; in
/// the middle, what is left out before and after it differs by a byte at most.
pub proof fn law_samples_lie_within_the_file(
    contents: Seq<u8>,
    sample: Sample,
    size: int,
    chunk: int,
)
    requires
        contents.len() == size,
        0 < chunk < size,
    ensures
        0 <= sample_start(sample, size, chunk) <= size - chunk,
        region(contents, sample_start(sample, size, chunk), chunk).len() == chunk,
        sample == Sample::Start ==> sample_start(sample, size, chunk) == 0,
        sample == Sample::Middle ==> {
            let before = sample_start(sample, size, chunk);
            let after = size - chunk - before;
            0 <= after - before <= 1
        },
        sample == Sample::End ==> sample_start(sample, size, chunk) + chunk == size,
{
}

/// Identical files have the same sample, wherever it is taken, where equally
/// many bytes are sampled of each.
pub proof fn law_identical_files_have_identical_samples(
    contents: Contents,
    sample: Sample,
    a: FileInfo,
    b: FileInfo,
)
    requires
        content(contents, a) == content(contents, b),
        a.file_size() == b.file_size(),
        a.sample_len() == b.sample_len(),
    ensures
        sample_hash(contents, sample, a) == sample_hash(contents, sample, b),
{
}

/// Kept files that hold the same have the same size and the same sample,
/// wherever they lie and wherever the sample is taken.
pub proof fn law_twins_have_identical_samples(
    contents: Contents,
    found: Seq<FoundFile>,
    min_size: u64,
    sample: Sample,
    i: int,
    j: int,
)
    requires
        sizes_hold(contents, readable_files(contents, found, min_size)),
        0 <= i < readable_files(contents, found, min_size).len(),
        0 <= j < readable_files(contents, found, min_size).len(),
        content(contents, readable_files(contents, found, min_size)[i]) == content(
            contents,
            readable_files(contents, found, min_size)[j],
        ),
    ensures
        ({
            let files = readable_files(contents, found, min_size);
            &&& files[i].file_size() == files[j].file_size()
            &&& sample_hash(contents, sample, files[i]) == sample_hash(contents, sample, files[j])
        }),
{
    let all = kept(found, min_size);
    let files = readable_files(contents, found, min_size);
    lemma_filter_members(all, readable(contents), i);
    lemma_filter_members(all, readable(contents), j);
    let x = choose|x: int| 0 <= x < all.len() && all[x] == files[i];
    let y = choose|y: int| 0 <= y < all.len() && all[y] == files[j];
    law_files_of_one_size_are_sampled_alike(found, min_size);
    assert(content(contents, files[i]).len() == files[i].file_size());
    assert(content(contents, files[j]).len() == files[j].file_size());
    assert(all[x].sample_len() == all[y].sample_len());
    law_identical_files_have_identical_samples(contents, sample, files[i], files[j]);
}

// ---- Steps ---------------------------------------------------------------------

/// Filtering twice is filtering once by both tests.
proof fn lemma_filter_twice<T>(items: Seq<T>, a: spec_fn(T) -> bool, b: spec_fn(T) -> bool)
    requires
        forall|item: T| #[trigger] b(item) ==> a(item),
    ensures
        items.filter(a).filter(b) == items.filter(b),
    decreases items.len(),
{
    reveal(Seq::filter);
    if items.len() > 0 {
        lemma_filter_twice(items.drop_last(), a, b);
        let rest = items.drop_last().filter(a);
        if a(items.last()) {
            assert(rest.push(items.last()).drop_last() == rest);
        }
    }
}

/// A test that keeps fewer items keeps no more of them.
proof fn lemma_filter_narrower<T>(items: Seq<T>, a: spec_fn(T) -> bool, b: spec_fn(T) -> bool)
    requires
        forall|item: T| #[trigger] b(item) ==> a(item),
    ensures
        items.filter(b).len() <= items.filter(a).len(),
{
    lemma_filter_twice(items, a, b);
    items.filter(a).lemma_filter_len(b);
}

/// The infos that the jobs are about.
spec fn infos(jobs: Seq<HashJob>) -> Seq<FileInfo> {
    jobs.map_values(|job: HashJob| job.info)
}

/// What a test that looks at one size alone keeps of the files that share a
/// size.
pub proof fn lemma_sharing_filter(
    buckets: Map<u64, Vec<FileInfo>>,
    files: Seq<FileInfo>,
    sizes: Seq<u64>,
    size: u64,
    test: spec_fn(FileInfo) -> bool,
)
    requires
        is_by_size(buckets, files),
        forall|i: int, j: int|
            0 <= i < j < sizes.len() ==> #[trigger] sizes[i] < #[trigger] sizes[j],
        forall|i: int| 0 <= i < sizes.len() ==> buckets.contains_key(#[trigger] sizes[i]),
        forall|file: FileInfo| #[trigger] test(file) ==> file.file_size() == size,
    ensures
        sharing(buckets, sizes).filter(test) == if sizes.contains(size) && files.filter(
            sized(size),
        ).len() > 1 {
            files.filter(test)
        } else {
            Seq::<FileInfo>::empty()
        },
    decreases sizes.len(),
{
    if sizes.len() == 0 {
        reveal(Seq::filter);
    } else {
        let rest = sizes.drop_last();
        let last = sizes.last();
        lemma_sharing_filter(buckets, files, rest, size, test);
        assert(buckets.contains_key(sizes[sizes.len() - 1]));
        let members = buckets[last]@;
        assert(members == files.filter(sized(last)));
        assert(sizes.contains(last)) by {
            assert(sizes[sizes.len() - 1] == last);
        }
        assert(rest.contains(size) ==> sizes.contains(size)) by {
            if rest.contains(size) {
                let i = choose|i: int| 0 <= i < rest.len() && rest[i] == size;
                assert(sizes[i] == size);
            }
        }
        assert(sizes.contains(size) && size != last ==> rest.contains(size)) by {
            if sizes.contains(size) && size != last {
                let i = choose|i: int| 0 <= i < sizes.len() && sizes[i] == size;
                assert(rest[i] == size);
            }
        }
        Seq::filter_distributes_over_add(sharing(buckets, rest), members, test);
        if last == size {
            assert(!rest.contains(size)) by {
                if rest.contains(size) {
                    let i = choose|i: int| 0 <= i < rest.len() && rest[i] == size;
                    assert(sizes[i] < sizes[sizes.len() - 1]);
                }
            }
            lemma_filter_twice(files, sized(size), test);
            assert(Seq::<FileInfo>::empty() + files.filter(test) == files.filter(test));
        } else {
            assert forall|i: int| 0 <= i < members.len() implies !test(#[trigger] members[i]) by {
                lemma_filter_members(files, sized(last), i);
            }
            lemma_filter_none(members, test);
            assert(sharing(buckets, rest).filter(test) + Seq::<FileInfo>::empty() == sharing(
                buckets,
                rest,
            ).filter(test));
        }
    }
}

/// A file that shares its size is one of the files.
proof fn lemma_sharing_members(
    buckets: Map<u64, Vec<FileInfo>>,
    files: Seq<FileInfo>,
    sizes: Seq<u64>,
    n: int,
)
    requires
        is_by_size(buckets, files),
        forall|i: int| 0 <= i < sizes.len() ==> buckets.contains_key(#[trigger] sizes[i]),
        0 <= n < sharing(buckets, sizes).len(),
    ensures
        files.contains(sharing(buckets, sizes)[n]),
        files.filter(sized(sharing(buckets, sizes)[n].file_size())).len() > 1,
    decreases sizes.len(),
{
    let rest = sizes.drop_last();
    assert(buckets.contains_key(sizes[sizes.len() - 1]));
    if n < sharing(buckets, rest).len() {
        lemma_sharing_members(buckets, files, rest, n);
    } else {
        lemma_filter_members(files, sized(sizes.last()), n - sharing(buckets, rest).len());
    }
}

/// The test for readable files of this size whose sample has this hash.
spec fn chunked(
    contents: Contents,
    sample: Sample,
    size: u64,
    hash: Seq<u8>,
) -> spec_fn(FileInfo) -> bool {
    |file: FileInfo|
        readable(contents)(file) && file.file_size() == size && sample_hash(contents, sample, file)
            == hash
}

/// Two keys of pass 2 have the same rank where size and digest are equal.
proof fn lemma_same_chunk(a: ChunkKey, b: ChunkKey)
    ensures
        same_rank(a, b) <==> a.size == b.size && a.digest@ == b.digest@,
{
    lemma_same_digest(a.digest, b.digest);
}

/// The keys of pass 2 belong to the files that can be read.
proof fn lemma_sampled_keys(
    contents: Contents,
    sample: Sample,
    shared: Seq<FileInfo>,
    sampled: Seq<HashedFile>,
)
    requires
        is_faithful(
            contents,
            shared.map_values(|info: FileInfo| sample_job(info, sample)),
            sampled,
        ),
    ensures
        ({
            let legible = shared.filter(readable(contents));
            let keyed = by_chunk(sampled);
            &&& keyed.len() == legible.len()
            &&& forall|i: int|
                0 <= i < legible.len() ==> {
                    &&& (#[trigger] keyed[i]).1 == legible[i]
                    &&& keyed[i].0.size == legible[i].file_size()
                    &&& keyed[i].0.digest@ == sample_hash(contents, sample, legible[i])
                    &&& readable(contents)(legible[i])
                }
        }),
    decreases shared.len(),
{
    reveal(Seq::filter);
    let to_job = |info: FileInfo| sample_job(info, sample);
    let jobs = shared.map_values(to_job);
    if shared.len() > 0 {
        let last = shared.len() - 1;
        let rest = shared.drop_last();
        let answers = sampled.drop_last();
        assert forall|i: int| 0 <= i < rest.len() implies {
            let job = rest.map_values(to_job)[i];
            &&& (#[trigger] answers[i]).0 == job.info
            &&& job.known is None
            &&& answers[i].1 is Some <==> readable(contents)(job.info)
            &&& answers[i].1 is Some ==> (answers[i].1->Some_0)@ == blake3_hash(
                region(content(contents, job.info), job.offset as int, job.len as int),
            )
        } by {
            assert(sampled[i].0 == jobs[i].info);
        }
        lemma_sampled_keys(contents, sample, rest, answers);
        assert(sampled[last].0 == jobs[last].info);
        assert(jobs[last] == sample_job(shared[last], sample));
    }
}

/// The files that share a size, and what is known of them.
proof fn lemma_shared_files(s: Scan) -> (sizes: Seq<u64>)
    requires
        s.is_faithful(),
    ensures
        is_size_list(s.trace.by_size, sizes),
        is_faithful(
            s.contents,
            sharing(s.trace.by_size, sizes).map_values(
                |info: FileInfo| sample_job(info, s.sample),
            ),
            s.trace.sampled,
        ),
        forall|i: int| 0 <= i < sizes.len() ==> s.trace.by_size.contains_key(#[trigger] sizes[i]),
{
    let sizes = choose|sizes: Seq<u64>| #[trigger]
        is_size_list(s.trace.by_size, sizes) && s.trace.sample_jobs == sharing(
            s.trace.by_size,
            sizes,
        ).map_values(|info: FileInfo| sample_job(info, s.sample));
    assert forall|i: int| 0 <= i < sizes.len() implies s.trace.by_size.contains_key(
        #[trigger] sizes[i],
    ) by {
        assert(sizes.contains(sizes[i]));
    }
    sizes
}

/// What a bucket of pass 2 holds.
proof fn lemma_chunk_bucket(s: Scan, sizes: Seq<u64>, c: int)
    requires
        s.is_faithful(),
        is_faithful(
            s.contents,
            sharing(s.trace.by_size, sizes).map_values(
                |info: FileInfo| sample_job(info, s.sample),
            ),
            s.trace.sampled,
        ),
        0 <= c < s.trace.by_chunk.len(),
    ensures
        s.trace.by_chunk[c].1@ == sharing(s.trace.by_size, sizes).filter(s.in_chunk(c)),
{
    let shared = sharing(s.trace.by_size, sizes);
    let legible = shared.filter(readable(s.contents));
    lemma_sampled_keys(s.contents, s.sample, shared, s.trace.sampled);
    let keyed = by_chunk(s.trace.sampled);
    let key = s.trace.by_chunk[c].0;
    let show = |item: (ChunkKey, FileInfo)| item.1;
    let test = s.in_chunk(c);
    assert forall|i: int| 0 <= i < keyed.len() implies same_rank((#[trigger] keyed[i]).0, key)
        == test(show(keyed[i])) by {
        lemma_same_chunk(keyed[i].0, key);
        assert(keyed[i].1 == legible[i]);
    }
    lemma_shown_of_rank(keyed, key, show, test);
    assert(keyed.map_values(show) == legible);
    assert(values(with_rank(keyed, key)) == with_rank(keyed, key).map_values(show));
    lemma_filter_twice(shared, readable(s.contents), test);
}

/// Every readable file that shares its size has a bucket in pass 2.
proof fn lemma_has_chunk_bucket(s: Scan, sizes: Seq<u64>, file: FileInfo) -> (c: int)
    requires
        s.is_faithful(),
        is_faithful(
            s.contents,
            sharing(s.trace.by_size, sizes).map_values(
                |info: FileInfo| sample_job(info, s.sample),
            ),
            s.trace.sampled,
        ),
        sharing(s.trace.by_size, sizes).contains(file),
        readable(s.contents)(file),
    ensures
        0 <= c < s.trace.by_chunk.len(),
        s.trace.by_chunk[c].0.size == file.file_size(),
        s.trace.by_chunk[c].0.digest@ == s.sample_hash(file),
{
    let buckets = s.trace.by_chunk;
    let shared = sharing(s.trace.by_size, sizes);
    let legible = shared.filter(readable(s.contents));
    lemma_sampled_keys(s.contents, s.sample, shared, s.trace.sampled);
    let x = choose|x: int| 0 <= x < shared.len() && shared[x] == file;
    shared.lemma_filter_contains(readable(s.contents), x);
    let i = choose|i: int| 0 <= i < legible.len() && legible[i] == file;
    let keyed = by_chunk(s.trace.sampled);
    assert(keyed[i].1 == file);
    assert(has_bucket(keyed[i].0, buckets));
    let c = choose|c: int|
        0 <= c < buckets.len() && same_rank(keyed[i].0, (#[trigger] buckets[c]).0);
    lemma_same_chunk(keyed[i].0, buckets[c].0);
    c
}

/// A file belongs into one bucket of pass 2 at most.
proof fn lemma_one_chunk(s: Scan, c: int, d: int, file: FileInfo)
    requires
        s.is_faithful(),
        0 <= c < s.trace.by_chunk.len(),
        0 <= d < s.trace.by_chunk.len(),
        s.in_chunk(c)(file),
        s.in_chunk(d)(file),
    ensures
        c == d,
{
    let buckets = s.trace.by_chunk;
    lemma_same_chunk(buckets[c].0, buckets[d].0);
    if c < d {
        assert(precedes(buckets[c].0, buckets[d].0));
    } else if d < c {
        assert(precedes(buckets[d].0, buckets[c].0));
    }
}

/// A member of a bucket of pass 2 is a readable kept file that belongs there.
proof fn lemma_chunk_member(s: Scan, c: int, m: int)
    requires
        s.is_faithful(),
        0 <= c < s.trace.by_chunk.len(),
        0 <= m < s.trace.by_chunk[c].1@.len(),
    ensures
        s.in_chunk(c)(s.trace.by_chunk[c].1@[m]),
        s.files().contains(s.trace.by_chunk[c].1@[m]),
{
    let all = kept(s.found, s.min_size);
    let file = s.trace.by_chunk[c].1@[m];
    let sizes = lemma_shared_files(s);
    let shared = sharing(s.trace.by_size, sizes);
    lemma_chunk_bucket(s, sizes, c);
    lemma_filter_members(shared, s.in_chunk(c), m);
    let x = choose|x: int| 0 <= x < shared.len() && shared[x] == file;
    lemma_sharing_members(s.trace.by_size, all, sizes, x);
    let y = choose|y: int| 0 <= y < all.len() && all[y] == file;
    all.lemma_filter_contains(readable(s.contents), y);
}

/// What a test that looks at one bucket of pass 2 alone keeps of the files of
/// pass 3; `b` is that bucket, or no index at all.
proof fn lemma_full_filter(
    contents: Contents,
    sample: Sample,
    buckets: Seq<(ChunkKey, Vec<FileInfo>)>,
    size: u64,
    hash: Seq<u8>,
    test: spec_fn(FileInfo) -> bool,
    b: int,
)
    requires
        forall|j: int, m: int|
            0 <= j < buckets.len() && 0 <= m < buckets[j].1@.len() ==> chunked(
                contents,
                sample,
                buckets[j].0.size,
                buckets[j].0.digest@,
            )(#[trigger] buckets[j].1@[m]),
        forall|j: int|
            0 <= j < buckets.len() && j != b ==> (#[trigger] buckets[j]).0.size != size
                || buckets[j].0.digest@ != hash,
        forall|file: FileInfo| #[trigger]
            test(file) ==> chunked(contents, sample, size, hash)(file),
    ensures
        infos(full_jobs_of(buckets)).filter(test) == if 0 <= b < buckets.len()
            && buckets[b].1@.len() > 1 {
            buckets[b].1@.filter(test)
        } else {
            Seq::<FileInfo>::empty()
        },
    decreases buckets.len(),
{
    if buckets.len() == 0 {
        reveal(Seq::filter);
        assert(infos(full_jobs_of(buckets)).filter(test) == Seq::<FileInfo>::empty());
    } else {
        let rest = buckets.drop_last();
        let last = buckets.len() - 1;
        let members = buckets[last].1@;
        assert forall|j: int, m: int|
            0 <= j < rest.len() && 0 <= m < rest[j].1@.len() implies chunked(
            contents,
            sample,
            rest[j].0.size,
            rest[j].0.digest@,
        )(#[trigger] rest[j].1@[m]) by {
            assert(chunked(contents, sample, buckets[j].0.size, buckets[j].0.digest@)(
                buckets[j].1@[m],
            ));
        }
        lemma_full_filter(contents, sample, rest, size, hash, test, b);
        if b < last {
            assert(0 <= b ==> rest[b] == buckets[b]);
        }
        if members.len() > 1 {
            let key = buckets[last].0;
            let tail = members.map_values(|info: FileInfo| full_job(key, info));
            assert(infos(full_jobs_of(rest) + tail) == infos(full_jobs_of(rest)) + members);
            Seq::filter_distributes_over_add(infos(full_jobs_of(rest)), members, test);
            if b == last {
                assert(Seq::<FileInfo>::empty() + members.filter(test) == members.filter(test));
            } else {
                assert forall|m: int| 0 <= m < members.len() implies !test(
                    #[trigger] members[m],
                ) by {
                    assert(chunked(contents, sample, buckets[last].0.size, buckets[last].0.digest@)(
                        buckets[last].1@[m],
                    ));
                }
                lemma_filter_none(members, test);
                assert(infos(full_jobs_of(rest)).filter(test) + Seq::<FileInfo>::empty() == infos(
                    full_jobs_of(rest),
                ).filter(test));
            }
        }
    }
}

/// Pass 3 learns the full hash of every file it looks at, and looks at readable
/// kept files alone.
proof fn lemma_confirmed(s: Scan, n: int)
    requires
        s.is_faithful(),
        0 <= n < s.confirmed_files().len(),
    ensures
        s.trace.confirmed.len() == s.confirmed_files().len(),
        s.trace.confirmed[n].0 == s.confirmed_files()[n],
        s.trace.confirmed[n].1 is Some,
        (s.trace.confirmed[n].1->Some_0)@ == s.full_hash(s.confirmed_files()[n]),
        s.files().contains(s.confirmed_files()[n]),
        full_chunks_of(s.trace.by_chunk).len() == s.confirmed_files().len(),
        full_chunks_of(s.trace.by_chunk)[n] < s.trace.by_chunk.len(),
        s.in_chunk(full_chunks_of(s.trace.by_chunk)[n] as int)(s.confirmed_files()[n]),
{
    let files = s.files();
    let jobs = full_jobs_of(s.trace.by_chunk);
    let m = lemma_full_job_source(s.trace.by_chunk, n);
    let c = full_chunks_of(s.trace.by_chunk)[n] as int;
    let file = s.trace.by_chunk[c].1@[m];
    lemma_chunk_member(s, c, m);
    let f = choose|f: int| 0 <= f < files.len() && files[f] == file;
    assert(content(s.contents, files[f]).len() == files[f].file_size());
    assert(jobs[n].info == file);
    assert(s.trace.confirmed[n].0 == jobs[n].info);
    let whole = content(s.contents, file);
    if file.file_size() <= file.sample_len() {
        law_small_files_are_sampled_whole(
            whole,
            s.sample,
            file.file_size() as int,
            file.sample_len() as int,
        );
    } else {
        assert(region(whole, 0, u64::MAX as int) == whole);
    }
}

/// The keys of pass 3 where every file was read.
proof fn lemma_by_digest(chunks: Seq<usize>, hashed: Seq<HashedFile>)
    requires
        forall|i: int| 0 <= i < hashed.len() ==> (#[trigger] hashed[i]).1 is Some,
    ensures
        by_digest(chunks, hashed).len() == hashed.len(),
        forall|i: int|
            0 <= i < hashed.len() ==> {
                &&& (#[trigger] by_digest(chunks, hashed)[i]).1 == hashed[i].0
                &&& by_digest(chunks, hashed)[i].0.digest == hashed[i].1->Some_0
                &&& by_digest(chunks, hashed)[i].0.chunk == chunks[i]
            },
    decreases hashed.len(),
{
    if hashed.len() > 0 {
        let rest = hashed.drop_last();
        assert forall|i: int| 0 <= i < rest.len() implies (#[trigger] rest[i]).1 is Some by {
            assert(hashed[i].1 is Some);
        }
        lemma_by_digest(chunks, rest);
        assert(hashed[hashed.len() - 1].1 is Some);
        assert forall|i: int| 0 <= i < hashed.len() implies {
            &&& (#[trigger] by_digest(chunks, hashed)[i]).1 == hashed[i].0
            &&& by_digest(chunks, hashed)[i].0.digest == hashed[i].1->Some_0
            &&& by_digest(chunks, hashed)[i].0.chunk == chunks[i]
        } by {
            if i < rest.len() {
                assert(by_digest(chunks, rest)[i].1 == rest[i].0);
            }
        }
    }
}

/// Two keys of pass 3 have the same rank where bucket and digest are equal.
proof fn lemma_same_full(a: FullKey, b: FullKey)
    ensures
        same_rank(a, b) <==> a.chunk == b.chunk && a.digest@ == b.digest@,
{
    lemma_same_digest(a.digest, b.digest);
}

/// The keys of pass 3 in a faithful scan.
proof fn lemma_confirmed_keys(s: Scan)
    requires
        s.is_faithful(),
    ensures
        ({
            let keyed = by_digest(full_chunks_of(s.trace.by_chunk), s.trace.confirmed);
            &&& keyed.len() == s.confirmed_files().len()
            &&& forall|n: int|
                0 <= n < keyed.len() ==> {
                    &&& (#[trigger] keyed[n]).1 == s.confirmed_files()[n]
                    &&& keyed[n].0.chunk < s.trace.by_chunk.len()
                    &&& s.confirming(keyed[n].0)(keyed[n].1)
                }
        }),
{
    let chunks = full_chunks_of(s.trace.by_chunk);
    let hashed = s.trace.confirmed;
    let keyed = by_digest(chunks, hashed);
    assert forall|n: int| 0 <= n < hashed.len() implies (#[trigger] hashed[n]).1 is Some by {
        lemma_confirmed(s, n);
    }
    lemma_by_digest(chunks, hashed);
    assert forall|n: int| 0 <= n < keyed.len() implies {
        &&& (#[trigger] keyed[n]).1 == s.confirmed_files()[n]
        &&& keyed[n].0.chunk < s.trace.by_chunk.len()
        &&& s.confirming(keyed[n].0)(keyed[n].1)
    } by {
        lemma_confirmed(s, n);
    }
}

/// What a bucket of pass 3 holds.
proof fn lemma_digest_bucket(s: Scan, b: int)
    requires
        s.is_faithful(),
        0 <= b < s.trace.by_digest.len(),
    ensures
        s.trace.by_digest[b].0.chunk < s.trace.by_chunk.len(),
        s.trace.by_digest[b].1@ == s.confirmed_files().filter(
            s.confirming(s.trace.by_digest[b].0),
        ),
        s.trace.by_digest[b].1@.len() > 0,
{
    let keyed = by_digest(full_chunks_of(s.trace.by_chunk), s.trace.confirmed);
    let key = s.trace.by_digest[b].0;
    lemma_confirmed_keys(s);
    assert(s.trace.by_digest[b].1@.len() > 0);
    let first = lemma_bucket_source(keyed, s.trace.by_digest, b, 0);
    lemma_same_full(keyed[first].0, key);
    let show = |item: (FullKey, FileInfo)| item.1;
    let test = s.confirming(key);
    assert forall|i: int| 0 <= i < keyed.len() implies same_rank((#[trigger] keyed[i]).0, key)
        == test(show(keyed[i])) by {
        lemma_same_full(keyed[i].0, key);
        assert(s.confirming(keyed[i].0)(keyed[i].1));
        if test(keyed[i].1) {
            lemma_one_chunk(s, keyed[i].0.chunk as int, key.chunk as int, keyed[i].1);
        }
    }
    lemma_shown_of_rank(keyed, key, show, test);
    assert(keyed.map_values(show) == s.confirmed_files());
    assert(values(with_rank(keyed, key)) == with_rank(keyed, key).map_values(show));
}

/// Every file that pass 3 looks at has a bucket there.
proof fn lemma_has_digest_bucket(s: Scan, file: FileInfo) -> (b: int)
    requires
        s.is_faithful(),
        s.confirmed_files().contains(file),
    ensures
        0 <= b < s.trace.by_digest.len(),
        s.confirming(s.trace.by_digest[b].0)(file),
{
    let keyed = by_digest(full_chunks_of(s.trace.by_chunk), s.trace.confirmed);
    lemma_confirmed_keys(s);
    let n = choose|n: int| 0 <= n < s.confirmed_files().len() && s.confirmed_files()[n] == file;
    assert(keyed[n].1 == file);
    assert(has_bucket(keyed[n].0, s.trace.by_digest));
    let b = choose|b: int|
        0 <= b < s.trace.by_digest.len() && same_rank(
            keyed[n].0,
            (#[trigger] s.trace.by_digest[b]).0,
        );
    lemma_same_full(keyed[n].0, s.trace.by_digest[b].0);
    assert(s.confirming(keyed[n].0)(file));
    b
}

/// Pass 3 looks at all the readable kept files of one size and sample where
/// there are several, and at none where there is one.
proof fn lemma_survivors(s: Scan, i: int)
    requires
        s.is_faithful(),
        0 <= i < s.files().len(),
    ensures
        ({
            let test = s.chunked(s.files()[i].file_size(), s.sample_hash(s.files()[i]));
            s.confirmed_files().filter(test) == if s.files().filter(test).len() > 1 {
                s.files().filter(test)
            } else {
                Seq::<FileInfo>::empty()
            }
        }),
{
    let all = kept(s.found, s.min_size);
    let files = s.files();
    let size = files[i].file_size();
    let hash = s.sample_hash(files[i]);
    let test = s.chunked(size, hash);
    let buckets = s.trace.by_chunk;
    let sizes = lemma_shared_files(s);
    let shared = sharing(s.trace.by_size, sizes);
    lemma_filter_twice(all, readable(s.contents), test);
    assert(files.filter(test) == all.filter(test));
    lemma_sharing_filter(s.trace.by_size, all, sizes, size, test);
    assert(sizes.contains(size)) by {
        lemma_filter_members(all, readable(s.contents), i);
        let x = choose|x: int| 0 <= x < all.len() && all[x] == files[i];
        assert(sized(size)(all[x]));
        all.lemma_filter_contains(sized(size), x);
        assert(all.filter(sized(size)).len() > 0);
        assert(s.trace.by_size.contains_key(size));
    }
    lemma_filter_narrower(all, sized(size), test);
    assert forall|j: int, m: int|
        0 <= j < buckets.len() && 0 <= m < buckets[j].1@.len() implies chunked(
        s.contents,
        s.sample,
        buckets[j].0.size,
        buckets[j].0.digest@,
    )(#[trigger] buckets[j].1@[m]) by {
        lemma_chunk_member(s, j, m);
    }
    let fits = |b: int|
        0 <= b < buckets.len() && buckets[b].0.size == size && buckets[b].0.digest@ == hash;
    let b = if exists|b: int| #[trigger] fits(b) {
        choose|b: int| #[trigger] fits(b)
    } else {
        -1
    };
    assert forall|j: int| 0 <= j < buckets.len() && j != b implies (#[trigger] buckets[j]).0.size
        != size || buckets[j].0.digest@ != hash by {
        if fits(j) {
            assert(fits(b));
            lemma_same_chunk(buckets[j].0, buckets[b].0);
            if j < b {
                assert(precedes(buckets[j].0, buckets[b].0));
            } else {
                assert(precedes(buckets[b].0, buckets[j].0));
            }
        }
    }
    lemma_full_filter(s.contents, s.sample, buckets, size, hash, test, b);
    if b >= 0 {
        assert(fits(b));
        lemma_chunk_bucket(s, sizes, b);
        lemma_filter_twice(shared, test, test);
    }
    if files.filter(test).len() > 1 {
        lemma_filter_members(shared, test, 0);
        let file = shared.filter(test)[0];
        let c = lemma_has_chunk_bucket(s, sizes, file);
        assert(fits(c));
    }
}

/// A bucket of pass 3 into which a readable kept file belongs holds all such
/// files.
proof fn lemma_whole_bucket(s: Scan, b: int, i: int)
    requires
        s.is_faithful(),
        0 <= b < s.trace.by_digest.len(),
        0 <= i < s.files().len(),
        s.confirming(s.trace.by_digest[b].0)(s.files()[i]),
    ensures
        s.trace.by_digest[b].1@ == s.files().filter(s.confirming(s.trace.by_digest[b].0)),
{
    let key = s.trace.by_digest[b].0;
    let seen = s.confirmed_files();
    let files = s.files();
    let test = s.chunked(files[i].file_size(), s.sample_hash(files[i]));
    let confirming = s.confirming(key);
    lemma_digest_bucket(s, b);
    lemma_survivors(s, i);
    assert forall|file: FileInfo| #[trigger] confirming(file) implies test(file) by {
        assert(s.in_chunk(key.chunk as int)(file));
        assert(s.in_chunk(key.chunk as int)(files[i]));
    }
    lemma_filter_twice(seen, test, confirming);
    lemma_filter_twice(files, test, confirming);
    if files.filter(test).len() <= 1 {
        reveal(Seq::filter);
        assert(seen.filter(confirming) == Seq::<FileInfo>::empty());
    }
}

/// A member of a bucket of pass 3 is a readable kept file that belongs there.
proof fn lemma_member(s: Scan, b: int, m: int) -> (i: int)
    requires
        s.is_faithful(),
        0 <= b < s.trace.by_digest.len(),
        0 <= m < s.trace.by_digest[b].1@.len(),
    ensures
        0 <= i < s.files().len(),
        s.files()[i] == s.trace.by_digest[b].1@[m],
        s.confirming(s.trace.by_digest[b].0)(s.files()[i]),
        s.trace.by_digest[b].0.chunk < s.trace.by_chunk.len(),
{
    let seen = s.confirmed_files();
    let file = s.trace.by_digest[b].1@[m];
    lemma_digest_bucket(s, b);
    lemma_filter_members(seen, s.confirming(s.trace.by_digest[b].0), m);
    let n = choose|n: int| 0 <= n < seen.len() && seen[n] == file;
    lemma_confirmed(s, n);
    choose|i: int| 0 <= i < s.files().len() && s.files()[i] == file
}

/// Where two readable kept files belong together, a crowded bucket of pass 3
/// holds both.
proof fn lemma_pair_has_bucket(s: Scan, i: int, j: int) -> (b: int)
    requires
        s.is_faithful(),
        0 <= i < s.files().len(),
        0 <= j < s.files().len(),
        i != j,
        s.agree(s.files()[i], s.files()[j]),
    ensures
        0 <= b < s.trace.by_digest.len(),
        s.confirming(s.trace.by_digest[b].0)(s.files()[i]),
        s.confirming(s.trace.by_digest[b].0)(s.files()[j]),
        s.trace.by_digest[b].1@.len() > 1,
        s.trace.by_digest[b].1@.contains(s.files()[i]),
        s.trace.by_digest[b].1@.contains(s.files()[j]),
{
    let files = s.files();
    let all = kept(s.found, s.min_size);
    let test = s.chunked(files[i].file_size(), s.sample_hash(files[i]));
    lemma_filter_members(all, readable(s.contents), i);
    lemma_filter_members(all, readable(s.contents), j);
    lemma_survivors(s, i);
    if i < j {
        lemma_filter_keeps_two(files, test, i, j);
    } else {
        lemma_filter_keeps_two(files, test, j, i);
    }
    files.lemma_filter_contains(test, i);
    let m = choose|m: int| 0 <= m < files.filter(test).len() && files.filter(test)[m] == files[i];
    lemma_filter_members(s.confirmed_files(), test, m);
    let b = lemma_has_digest_bucket(s, files[i]);
    let confirming = s.confirming(s.trace.by_digest[b].0);
    lemma_whole_bucket(s, b, i);
    assert(confirming(files[j]));
    if i < j {
        lemma_filter_keeps_two(files, confirming, i, j);
    } else {
        lemma_filter_keeps_two(files, confirming, j, i);
    }
    files.lemma_filter_contains(confirming, i);
    files.lemma_filter_contains(confirming, j);
    b
}

/// Two positions that pass a test make for two items that are kept.
proof fn lemma_filter_keeps_two<T>(items: Seq<T>, test: spec_fn(T) -> bool, i: int, j: int)
    requires
        0 <= i < j < items.len(),
        test(items[i]),
        test(items[j]),
    ensures
        items.filter(test).len() >= 2,
{
    let front = items.take(j);
    let back = items.skip(j);
    assert(items == front + back);
    Seq::filter_distributes_over_add(front, back, test);
    assert(front[i] == items[i]);
    assert(back[0] == items[j]);
    front.lemma_filter_contains(test, i);
    back.lemma_filter_contains(test, 0);
}

// ---- Which files are reported --------------------------------------------------

/// The readable kept file that stands at a path of the report, and the bucket
/// of pass 3 that it comes from.
proof fn lemma_group_member(s: Scan, b: int, g: int, p: int) -> (i: int)
    requires
        s.is_faithful(),
        0 <= b < s.trace.by_digest.len(),
        0 <= g < s.groups.len(),
        is_group_of(s.trace.by_digest[b].1@, s.groups[g]),
        0 <= p < s.groups[g].paths.len(),
    ensures
        0 <= i < s.files().len(),
        s.files()[i].file_path() == s.groups[g].paths[p],
        s.confirming(s.trace.by_digest[b].0)(s.files()[i]),
        s.trace.by_digest[b].0.chunk < s.trace.by_chunk.len(),
{
    let members = s.trace.by_digest[b].1@;
    law_group_lists_its_files(members, s.groups[g]);
    let m = choose|m: int|
        0 <= m < members.len() && (#[trigger] members[m]).file_path() == s.groups[g].paths[p];
    lemma_member(s, b, m)
}

/// Whether readable kept files that agree stand at the two paths.
pub open spec fn paths_agree(s: Scan, p: PathBuf, q: PathBuf) -> bool {
    let files = s.files();
    exists|i: int, j: int|
        0 <= i < files.len() && 0 <= j < files.len() && (#[trigger] files[i]).file_path() == p && (
        #[trigger] files[j]).file_path() == q && s.agree(files[i], files[j])
}

/// The files of one group agree in size, in the hash of their sample and in the
/// hash of all they hold: only files that do can be reported wrongly.
pub proof fn law_group_members_agree(s: Scan)
    requires
        s.is_faithful(),
    ensures
        forall|g: int, p: int, q: int|
            0 <= g < s.groups.len() && 0 <= p < s.groups[g].paths.len() && 0 <= q
                < s.groups[g].paths.len() ==> paths_agree(
                s,
                #[trigger] s.groups[g].paths[p],
                #[trigger] s.groups[g].paths[q],
            ),
{
    assert forall|g: int, p: int, q: int|
        0 <= g < s.groups.len() && 0 <= p < s.groups[g].paths.len() && 0 <= q
            < s.groups[g].paths.len() implies paths_agree(
        s,
        #[trigger] s.groups[g].paths[p],
        #[trigger] s.groups[g].paths[q],
    ) by {
        let n = lemma_report_source(crowded(s.trace.by_digest), s.groups, g);
        let b = lemma_crowded_source(s.trace.by_digest, n);
        let i = lemma_group_member(s, b, g, p);
        let j = lemma_group_member(s, b, g, q);
        assert(s.agree(s.files()[i], s.files()[j]));
    }
}

/// Every group holds files that are byte for byte identical and of the size
/// that it states, unless BLAKE3 collides on the files scanned.
pub proof fn law_groups_hold_identical_files(s: Scan)
    requires
        s.is_faithful(),
        no_collisions(s.contents, s.files()),
    ensures
        forall|g: int, p: int, q: int|
            0 <= g < s.groups.len() && 0 <= p < s.groups[g].paths.len() && 0 <= q
                < s.groups[g].paths.len() ==> (s.contents)(#[trigger] s.groups[g].paths[p]) == (
            s.contents)(#[trigger] s.groups[g].paths[q]),
        forall|g: int, p: int|
            0 <= g < s.groups.len() && 0 <= p < s.groups[g].paths.len() ==> {
                &&& (s.contents)(#[trigger] s.groups[g].paths[p]) is Some
                &&& ((s.contents)(s.groups[g].paths[p])->Some_0).len() == s.groups[g].size
            },
{
    let files = s.files();
    let all = kept(s.found, s.min_size);
    assert forall|g: int, p: int, q: int|
        0 <= g < s.groups.len() && 0 <= p < s.groups[g].paths.len() && 0 <= q
            < s.groups[g].paths.len() implies (s.contents)(#[trigger] s.groups[g].paths[p]) == (
    s.contents)(#[trigger] s.groups[g].paths[q]) by {
        let n = lemma_report_source(crowded(s.trace.by_digest), s.groups, g);
        let b = lemma_crowded_source(s.trace.by_digest, n);
        let i = lemma_group_member(s, b, g, p);
        let j = lemma_group_member(s, b, g, q);
        assert(full_hash(s.contents, files[i]) == full_hash(s.contents, files[j]));
        lemma_filter_members(all, readable(s.contents), i);
        lemma_filter_members(all, readable(s.contents), j);
    }
    assert forall|g: int, p: int|
        0 <= g < s.groups.len() && 0 <= p < s.groups[g].paths.len() implies {
        &&& (s.contents)(#[trigger] s.groups[g].paths[p]) is Some
        &&& ((s.contents)(s.groups[g].paths[p])->Some_0).len() == s.groups[g].size
    } by {
        let n = lemma_report_source(crowded(s.trace.by_digest), s.groups, g);
        let b = lemma_crowded_source(s.trace.by_digest, n);
        let i = lemma_group_member(s, b, g, p);
        lemma_filter_members(all, readable(s.contents), i);
        assert(content(s.contents, files[i]).len() == files[i].file_size());
        let members = s.trace.by_digest[b].1@;
        law_group_lists_its_files(members, s.groups[g]);
        let m = choose|m: int|
            0 <= m < members.len() && (#[trigger] members[m]).file_path() == s.groups[g].paths[0]
                && members[m].file_size() == s.groups[g].size;
        let j = lemma_member(s, b, m);
    }
}

/// Identical files never end up in different groups.
pub proof fn law_identical_files_are_never_split(s: Scan)
    requires
        s.is_faithful(),
    ensures
        forall|g: int, h: int, p: int, q: int|
            0 <= g < h < s.groups.len() && 0 <= p < s.groups[g].paths.len() && 0 <= q
                < s.groups[h].paths.len() ==> (s.contents)(#[trigger] s.groups[g].paths[p]) != (
            s.contents)(#[trigger] s.groups[h].paths[q]),
{
    let buckets = s.trace.by_digest;
    assert forall|g: int, h: int, p: int, q: int|
        0 <= g < h < s.groups.len() && 0 <= p < s.groups[g].paths.len() && 0 <= q
            < s.groups[h].paths.len() implies (s.contents)(#[trigger] s.groups[g].paths[p]) != (
    s.contents)(#[trigger] s.groups[h].paths[q]) by {
        let (n, m) = lemma_report_pair(crowded(buckets), s.groups, g, h);
        let (b, c) = if n < m {
            lemma_crowded_apart(buckets, n, m)
        } else {
            let (c, b) = lemma_crowded_apart(buckets, m, n);
            (b, c)
        };
        let i = lemma_group_member(s, b, g, p);
        let j = lemma_group_member(s, c, h, q);
        if (s.contents)(s.groups[g].paths[p]) == (s.contents)(s.groups[h].paths[q]) {
            lemma_one_bucket(s, b, c, i, j);
        }
    }
}

/// Files that hold the same belong into one bucket of pass 3 at most.
proof fn lemma_one_bucket(s: Scan, b: int, c: int, i: int, j: int)
    requires
        s.is_faithful(),
        0 <= b < s.trace.by_digest.len(),
        0 <= c < s.trace.by_digest.len(),
        0 <= i < s.files().len(),
        0 <= j < s.files().len(),
        s.trace.by_digest[b].0.chunk < s.trace.by_chunk.len(),
        s.trace.by_digest[c].0.chunk < s.trace.by_chunk.len(),
        s.confirming(s.trace.by_digest[b].0)(s.files()[i]),
        s.confirming(s.trace.by_digest[c].0)(s.files()[j]),
        content(s.contents, s.files()[i]) == content(s.contents, s.files()[j]),
    ensures
        b == c,
{
    let buckets = s.trace.by_digest;
    law_twins_have_identical_samples(s.contents, s.found, s.min_size, s.sample, i, j);
    lemma_one_chunk(s, buckets[b].0.chunk as int, buckets[c].0.chunk as int, s.files()[i]);
    lemma_same_full(buckets[b].0, buckets[c].0);
    if b < c {
        assert(precedes(buckets[b].0, buckets[c].0));
    } else if c < b {
        assert(precedes(buckets[c].0, buckets[b].0));
    }
}

/// Two readable kept files that hold the same are reported in one group,
/// wherever they lie and wherever the samples are taken.
pub proof fn law_identical_files_are_reported_together(s: Scan, i: int, j: int)
    requires
        s.is_faithful(),
        0 <= i < j < s.files().len(),
        content(s.contents, s.files()[i]) == content(s.contents, s.files()[j]),
    ensures
        exists|g: int|
            0 <= g < s.groups.len() && (#[trigger] s.groups[g]).paths.contains(
                s.files()[i].file_path(),
            ) && s.groups[g].paths.contains(s.files()[j].file_path()),
{
    let files = s.files();
    law_twins_have_identical_samples(s.contents, s.found, s.min_size, s.sample, i, j);
    let b = lemma_pair_has_bucket(s, i, j);
    let n = lemma_crowded_lists(s.trace.by_digest, b);
    let g = lemma_report_has(crowded(s.trace.by_digest), s.groups, n);
    let members = s.trace.by_digest[b].1@;
    law_group_lists_its_files(members, s.groups[g]);
    let u = choose|u: int| 0 <= u < members.len() && members[u] == files[i];
    let v = choose|v: int| 0 <= v < members.len() && members[v] == files[j];
    assert(s.groups[g].paths.contains(members[u].file_path()));
    assert(s.groups[g].paths.contains(members[v].file_path()));
}

/// A bucket of pass 3 holds the twins of each of its files, where hashes do not
/// collide.
proof fn lemma_class(s: Scan, b: int, i: int)
    requires
        s.is_faithful(),
        no_collisions(s.contents, s.files()),
        0 <= b < s.trace.by_digest.len(),
        0 <= i < s.files().len(),
        s.confirming(s.trace.by_digest[b].0)(s.files()[i]),
    ensures
        s.trace.by_digest[b].1@ == twins(s.contents, s.files(), i),
{
    let all = kept(s.found, s.min_size);
    let files = s.files();
    let confirming = s.confirming(s.trace.by_digest[b].0);
    let hold = holding(s.contents, content(s.contents, files[i]));
    lemma_whole_bucket(s, b, i);
    assert forall|n: int| 0 <= n < files.len() implies confirming(#[trigger] files[n]) == hold(
        files[n],
    ) by {
        lemma_filter_members(all, readable(s.contents), n);
        if confirming(files[n]) {
            assert(full_hash(s.contents, files[n]) == full_hash(s.contents, files[i]));
        }
        if hold(files[n]) {
            law_twins_have_identical_samples(s.contents, s.found, s.min_size, s.sample, i, n);
        }
    }
    lemma_filter_agree(files, confirming, hold);
}

/// The twins of a readable kept file, if there are several, make a bucket of
/// pass 3.
proof fn lemma_class_has_bucket(s: Scan, i: int) -> (b: int)
    requires
        s.is_faithful(),
        no_collisions(s.contents, s.files()),
        0 <= i < s.files().len(),
        twins(s.contents, s.files(), i).len() > 1,
    ensures
        0 <= b < s.trace.by_digest.len(),
        s.trace.by_digest[b].0.digest@ == s.full_hash(s.files()[i]),
        s.trace.by_digest[b].1@ == twins(s.contents, s.files(), i),
{
    let files = s.files();
    let j = lemma_filter_other(files, holding(s.contents, content(s.contents, files[i])), i);
    law_twins_have_identical_samples(s.contents, s.found, s.min_size, s.sample, i, j);
    let b = lemma_pair_has_bucket(s, i, j);
    lemma_class(s, b, i);
    b
}

/// Where a filter keeps several items, it keeps one at another position than
/// this.
proof fn lemma_filter_other<T>(items: Seq<T>, test: spec_fn(T) -> bool, i: int) -> (j: int)
    requires
        items.filter(test).len() > 1,
        0 <= i < items.len(),
    ensures
        0 <= j < items.len(),
        j != i,
        test(items[j]),
{
    if forall|j: int| 0 <= j < items.len() && j != i ==> !test(#[trigger] items[j]) {
        let front = items.take(i);
        let rest = items.skip(i);
        let back = rest.skip(1);
        assert(items == front + rest);
        assert(rest == rest.take(1) + back);
        Seq::filter_distributes_over_add(front, rest, test);
        Seq::filter_distributes_over_add(rest.take(1), back, test);
        lemma_filter_none(front, test);
        lemma_filter_none(back, test);
        rest.take(1).lemma_filter_len(test);
    }
    choose|j: int| 0 <= j < items.len() && j != i && test(#[trigger] items[j])
}

/// Whether the group reports several files that hold the same, and all of them.
pub open spec fn reports_twins(
    contents: Contents,
    files: Seq<FileInfo>,
    group: GroupView,
) -> bool {
    exists|i: int|
        0 <= i < files.len() && (#[trigger] twins(contents, files, i)).len() > 1 && is_group_of(
            twins(contents, files, i),
            group,
        )
}

/// The groups are exactly the sets of several readable kept files that hold the
/// same: each group reports one such set, whole, and each such set is reported.
pub proof fn law_groups_are_content_classes(s: Scan)
    requires
        s.is_faithful(),
        no_collisions(s.contents, s.files()),
    ensures
        forall|g: int|
            0 <= g < s.groups.len() ==> reports_twins(
                s.contents,
                s.files(),
                #[trigger] s.groups[g],
            ),
        forall|i: int|
            0 <= i < s.files().len() && (#[trigger] twins(s.contents, s.files(), i)).len() > 1
                ==> exists|g: int|
                0 <= g < s.groups.len() && is_group_of(
                    twins(s.contents, s.files(), i),
                    #[trigger] s.groups[g],
                ),
{
    let files = s.files();
    assert forall|g: int| 0 <= g < s.groups.len() implies reports_twins(
        s.contents,
        files,
        #[trigger] s.groups[g],
    ) by {
        let n = lemma_report_source(crowded(s.trace.by_digest), s.groups, g);
        let b = lemma_crowded_source(s.trace.by_digest, n);
        let i = lemma_member(s, b, 0);
        lemma_class(s, b, i);
        assert(twins(s.contents, files, i).len() > 1);
    }
    assert forall|i: int|
        0 <= i < files.len() && (#[trigger] twins(s.contents, files, i)).len() > 1 implies exists|
        g: int,
    |
        0 <= g < s.groups.len() && is_group_of(
            twins(s.contents, files, i),
            #[trigger] s.groups[g],
        ) by {
        let b = lemma_class_has_bucket(s, i);
        let n = lemma_crowded_lists(s.trace.by_digest, b);
        let g = lemma_report_has(crowded(s.trace.by_digest), s.groups, n);
        assert(is_group_of(twins(s.contents, files, i), s.groups[g]));
    }
}

/// A crowded bucket: its digest and its files.
type Run = (Digest, Seq<FileInfo>);

/// The crowded buckets in their order.
spec fn crowded_runs(buckets: Seq<(FullKey, Vec<FileInfo>)>) -> Seq<Run>
    decreases buckets.len(),
{
    if buckets.len() == 0 {
        Seq::empty()
    } else {
        let rest = crowded_runs(buckets.drop_last());
        if buckets.last().1@.len() > 1 {
            rest.push((buckets.last().0.digest, buckets.last().1@))
        } else {
            rest
        }
    }
}

proof fn lemma_crowded_runs(buckets: Seq<(FullKey, Vec<FileInfo>)>)
    ensures
        crowded(buckets) == crowded_runs(buckets).map_values(|run: Run| run.1),
    decreases buckets.len(),
{
    let show = |run: Run| run.1;
    if buckets.len() > 0 {
        lemma_crowded_runs(buckets.drop_last());
        let rest = crowded_runs(buckets.drop_last());
        let run = (buckets.last().0.digest, buckets.last().1@);
        assert(rest.push(run).map_values(show) == rest.map_values(show).push(show(run)));
    } else {
        assert(crowded(buckets) == crowded_runs(buckets).map_values(show));
    }
}

/// Where a run stands among the buckets.
proof fn lemma_run_source(buckets: Seq<(FullKey, Vec<FileInfo>)>, n: int) -> (b: int)
    requires
        0 <= n < crowded_runs(buckets).len(),
    ensures
        0 <= b < buckets.len(),
        crowded_runs(buckets)[n] == (buckets[b].0.digest, buckets[b].1@),
        buckets[b].1@.len() > 1,
    decreases buckets.len(),
{
    let rest = buckets.drop_last();
    if n < crowded_runs(rest).len() {
        let b = lemma_run_source(rest, n);
        assert(buckets[b] == rest[b]);
        b
    } else {
        buckets.len() - 1
    }
}

proof fn lemma_run_of(buckets: Seq<(FullKey, Vec<FileInfo>)>, b: int) -> (n: int)
    requires
        0 <= b < buckets.len(),
        buckets[b].1@.len() > 1,
    ensures
        0 <= n < crowded_runs(buckets).len(),
        crowded_runs(buckets)[n] == (buckets[b].0.digest, buckets[b].1@),
    decreases buckets.len(),
{
    let rest = buckets.drop_last();
    if b < rest.len() {
        assert(rest[b] == buckets[b]);
        lemma_run_of(rest, b)
    } else {
        crowded_runs(rest).len() as int
    }
}

/// Whether the keys of the runs ascend.
spec fn runs_ascend(runs: Seq<Run>) -> bool {
    forall|i: int, j: int|
        0 <= i < j < runs.len() ==> precedes((#[trigger] runs[i]).0, (#[trigger] runs[j]).0)
}

proof fn lemma_runs_ascend(buckets: Seq<(FullKey, Vec<FileInfo>)>)
    requires
        forall|i: int, j: int|
            0 <= i < j < buckets.len() ==> precedes(
                (#[trigger] buckets[i]).0.digest,
                (#[trigger] buckets[j]).0.digest,
            ),
    ensures
        runs_ascend(crowded_runs(buckets)),
    decreases buckets.len(),
{
    if buckets.len() > 0 {
        let rest = buckets.drop_last();
        let runs = crowded_runs(buckets);
        lemma_runs_ascend(rest);
        assert forall|i: int, j: int| 0 <= i < j < runs.len() implies precedes(
            (#[trigger] runs[i]).0,
            (#[trigger] runs[j]).0,
        ) by {
            let before = crowded_runs(rest);
            if j < before.len() {
                assert(precedes(before[i].0, before[j].0));
            } else {
                let b = lemma_run_source(rest, i);
                assert(precedes(buckets[b].0.digest, buckets[buckets.len() - 1].0.digest));
            }
        }
    }
}

/// Whether the run, its key taken by its bytes, is among these.
spec fn has_run(runs: Seq<Run>, run: Run) -> bool {
    exists|j: int|
        0 <= j < runs.len() && (#[trigger] runs[j]).0@ == run.0@ && runs[j].1 == run.1
}

/// Whether every run of the one sequence is one of the other.
spec fn runs_within(a: Seq<Run>, b: Seq<Run>) -> bool {
    forall|i: int| 0 <= i < a.len() ==> has_run(b, #[trigger] a[i])
}

/// Keys compare by their bytes.
proof fn lemma_precedes_by_bytes(a: Digest, b: Digest, c: Digest, d: Digest)
    requires
        precedes(a, b),
        a@ == c@,
        b@ == d@,
    ensures
        precedes(c, d),
{
    lemma_same_digest(a, c);
    lemma_same_digest(b, d);
    Digest::lemma_transitive(c, a, b);
    Digest::lemma_transitive(c, b, d);
    if d.at_most(c) {
        Digest::lemma_transitive(b, d, c);
        Digest::lemma_transitive(b, c, a);
    }
}

/// The last run of a sequence is the last of any other that has the same runs.
proof fn lemma_last_runs_match(
    a: Seq<Run>,
    b: Seq<Run>,
)
    requires
        runs_ascend(a),
        runs_ascend(b),
        runs_within(a, b),
        runs_within(b, a),
        a.len() > 0,
    ensures
        b.len() > 0,
        a.last().0@ == b.last().0@,
        a.last().1 == b.last().1,
{
    let last = a.len() - 1;
    let end = b.len() - 1;
    assert(has_run(b, a[last]));
    let j = choose|j: int|
        0 <= j < b.len() && (#[trigger] b[j]).0@ == a[last].0@ && b[j].1 == a[last].1;
    assert(has_run(a, b[end]));
    let i = choose|i: int|
        0 <= i < a.len() && (#[trigger] a[i]).0@ == b[end].0@ && a[i].1 == b[end].1;
    if j < end {
        assert(precedes(b[j].0, b[end].0));
        lemma_precedes_by_bytes(b[j].0, b[end].0, a[last].0, a[i].0);
        if i < last {
            assert(precedes(a[i].0, a[last].0));
        }
    }
}

proof fn lemma_rest_within(a: Seq<Run>, b: Seq<Run>)
    requires
        runs_ascend(a),
        runs_ascend(b),
        runs_within(a, b),
        a.len() > 0,
        b.len() > 0,
        a.last().0@ == b.last().0@,
    ensures
        runs_within(a.drop_last(), b.drop_last()),
        runs_ascend(a.drop_last()),
{
    let a_rest = a.drop_last();
    let b_rest = b.drop_last();
    assert forall|i: int, j: int| 0 <= i < j < a_rest.len() implies precedes(
        (#[trigger] a_rest[i]).0,
        (#[trigger] a_rest[j]).0,
    ) by {
        assert(precedes(a[i].0, a[j].0));
    }
    assert forall|i: int| 0 <= i < a_rest.len() implies has_run(b_rest, #[trigger] a_rest[i]) by {
        assert(a[i] == a_rest[i]);
        assert(has_run(b, a[i]));
        let j = choose|j: int|
            0 <= j < b.len() && (#[trigger] b[j]).0@ == a[i].0@ && b[j].1 == a[i].1;
        if j == b.len() - 1 {
            assert(precedes(a[i].0, a[a.len() - 1].0));
            lemma_same_digest(a[i].0, a.last().0);
        }
        assert(b_rest[j] == b[j]);
    }
}

/// Mapping a sequence maps its last item last.
proof fn lemma_map_last<A, B>(items: Seq<A>, f: spec_fn(A) -> B)
    requires
        items.len() > 0,
    ensures
        items.map_values(f) == items.drop_last().map_values(f).push(f(items.last())),
{
    assert(items.map_values(f) =~= items.drop_last().map_values(f).push(f(items.last())));
}

/// Ascending sequences of the same runs list the same files.
proof fn lemma_same_runs(a: Seq<Run>, b: Seq<Run>)
    requires
        runs_ascend(a),
        runs_ascend(b),
        runs_within(a, b),
        runs_within(b, a),
    ensures
        a.map_values(|run: Run| run.1) == b.map_values(
            |run: Run| run.1,
        ),
    decreases a.len(),
{
    let show = |run: Run| run.1;
    if a.len() == 0 {
        if b.len() > 0 {
            lemma_last_runs_match(b, a);
        }
        assert(a.map_values(show) == b.map_values(show));
    } else {
        lemma_last_runs_match(a, b);
        lemma_rest_within(a, b);
        lemma_rest_within(b, a);
        lemma_same_runs(a.drop_last(), b.drop_last());
        lemma_map_last(a, show);
        lemma_map_last(b, show);
    }
}

/// The digests of the buckets of pass 3 ascend, where hashes do not collide.
proof fn lemma_digests_ascend(s: Scan)
    requires
        s.is_faithful(),
        no_collisions(s.contents, s.files()),
    ensures
        runs_ascend(crowded_runs(s.trace.by_digest)),
{
    let buckets = s.trace.by_digest;
    assert forall|b: int, c: int| 0 <= b < c < buckets.len() implies precedes(
        (#[trigger] buckets[b]).0.digest,
        (#[trigger] buckets[c]).0.digest,
    ) by {
        assert(precedes(buckets[b].0, buckets[c].0));
        Digest::lemma_total(buckets[b].0.digest, buckets[c].0.digest);
        if buckets[c].0.digest.at_most(buckets[b].0.digest) {
            lemma_same_digest(buckets[b].0.digest, buckets[c].0.digest);
            lemma_digest_bucket(s, b);
            lemma_digest_bucket(s, c);
            let i = lemma_member(s, b, 0);
            let j = lemma_member(s, c, 0);
            assert(full_hash(s.contents, s.files()[i]) == full_hash(s.contents, s.files()[j]));
            lemma_one_bucket(s, b, c, i, j);
        }
    }
    lemma_runs_ascend(buckets);
}

/// The crowded buckets of one scan are those of another of the same files.
proof fn lemma_runs_carry_over(a: Scan, b: Scan)
    requires
        a.is_faithful(),
        b.is_faithful(),
        a.contents == b.contents,
        a.found == b.found,
        a.min_size == b.min_size,
        no_collisions(a.contents, a.files()),
    ensures
        runs_within(crowded_runs(a.trace.by_digest), crowded_runs(b.trace.by_digest)),
{
    let from = crowded_runs(a.trace.by_digest);
    let to = crowded_runs(b.trace.by_digest);
    assert forall|n: int| 0 <= n < from.len() implies has_run(to, #[trigger] from[n]) by {
        let at = lemma_run_source(a.trace.by_digest, n);
        let i = lemma_member(a, at, 0);
        lemma_class(a, at, i);
        let c = lemma_class_has_bucket(b, i);
        let m = lemma_run_of(b.trace.by_digest, c);
        assert(to[m].0@ == from[n].0@ && to[m].1 == from[n].1);
    }
}

/// Where the samples are taken never changes the report, where BLAKE3 does not
/// collide on the files scanned.
pub proof fn law_sampling_never_changes_the_report(a: Scan, b: Scan)
    requires
        a.is_faithful(),
        b.is_faithful(),
        a.contents == b.contents,
        a.found == b.found,
        a.min_size == b.min_size,
        no_collisions(a.contents, a.files()),
    ensures
        a.groups == b.groups,
{
    lemma_runs_carry_over(a, b);
    lemma_runs_carry_over(b, a);
    lemma_digests_ascend(a);
    lemma_digests_ascend(b);
    lemma_same_runs(crowded_runs(a.trace.by_digest), crowded_runs(b.trace.by_digest));
    lemma_crowded_runs(a.trace.by_digest);
    lemma_crowded_runs(b.trace.by_digest);
    let sets = crowded(a.trace.by_digest);
    assert(sets == crowded(b.trace.by_digest));
    assert forall|n: int| 0 <= n < sets.len() implies (#[trigger] sets[n]).len() > 0 by {
        let b = lemma_crowded_source(a.trace.by_digest, n);
    }
    law_report_is_unique(sets, a.groups, b.groups);
}

// ---- Reading -------------------------------------------------------------------

/// A file whose size is its own is not read at all: every file that is sampled
/// has another of its size.
pub proof fn law_lone_sizes_are_not_read(
    buckets: Map<u64, Vec<FileInfo>>,
    files: Seq<FileInfo>,
    sample: Sample,
    jobs: Seq<HashJob>,
)
    requires
        is_by_size(buckets, files),
        are_sample_jobs(buckets, sample, jobs),
    ensures
        forall|n: int|
            0 <= n < jobs.len() ==> files.contains((#[trigger] jobs[n]).info) && files.filter(
                sized(jobs[n].info.file_size()),
            ).len() > 1,
{
    let sizes = choose|sizes: Seq<u64>| #[trigger]
        is_size_list(buckets, sizes) && jobs == sharing(buckets, sizes).map_values(
            |info: FileInfo| sample_job(info, sample),
        );
    assert forall|i: int| 0 <= i < sizes.len() implies buckets.contains_key(
        #[trigger] sizes[i],
    ) by {
        assert(sizes.contains(sizes[i]));
    }
    assert forall|n: int| 0 <= n < jobs.len() implies files.contains((#[trigger] jobs[n]).info)
        && files.filter(sized(jobs[n].info.file_size())).len() > 1 by {
        lemma_sharing_members(buckets, files, sizes, n);
        assert(jobs[n].info == sharing(buckets, sizes)[n]);
    }
}

/// Whether `read` answers every job on a readable file by the hash of the
/// region asked for, and no other job.
pub open spec fn reads_faithfully<R: Fn(&HashJob) -> Option<Digest>>(
    read: R,
    contents: Contents,
) -> bool {
    forall|job: &HashJob, answer: Option<Digest>| #[trigger]
        call_ensures(read, (job,), answer) ==> {
            &&& answer is Some <==> readable(contents)(job.info)
            &&& answer is Some ==> (answer->Some_0)@ == blake3_hash(
                region(content(contents, job.info), job.offset as int, job.len as int),
            )
        }
}

/// Where reading is faithful, so are the answers to any jobs.
pub proof fn law_faithful_reading<R: Fn(&HashJob) -> Option<Digest>>(
    read: R,
    contents: Contents,
    jobs: Seq<HashJob>,
    hashed: Seq<HashedFile>,
)
    requires
        reads_faithfully(read, contents),
        are_answers(read, jobs, hashed),
    ensures
        is_faithful(contents, jobs, hashed),
{
    assert forall|i: int| 0 <= i < jobs.len() implies {
        &&& (#[trigger] hashed[i]).0 == jobs[i].info
        &&& jobs[i].known is Some ==> hashed[i].1 == jobs[i].known
        &&& jobs[i].known is None ==> {
            &&& hashed[i].1 is Some <==> readable(contents)(jobs[i].info)
            &&& hashed[i].1 is Some ==> (hashed[i].1->Some_0)@ == blake3_hash(
                region(
                    content(contents, jobs[i].info),
                    jobs[i].offset as int,
                    jobs[i].len as int,
                ),
            )
        }
    } by {
        if jobs[i].known is None {
            assert(call_ensures(read, (&jobs[i],), hashed[i].1));
        }
    }
}

/// The files of some answers.
pub open spec fn infos_of(hashed: Seq<HashedFile>) -> Seq<FileInfo> {
    hashed.map_values(|file: HashedFile| file.0)
}

/// The test for files that could be read, by the answer.
pub open spec fn answered() -> spec_fn(HashedFile) -> bool {
    |file: HashedFile| file.1 is Some
}

/// A file that could not be read is skipped, and changes nothing else: what is
/// bucketed is the files that could be read, in their order.
pub proof fn law_unreadable_files_are_skipped(chunks: Seq<usize>, hashed: Seq<HashedFile>)
    ensures
        by_chunk(hashed) == by_chunk(hashed.filter(answered())),
        values(by_digest(chunks, hashed)) == infos_of(hashed.filter(answered())),
    decreases hashed.len(),
{
    reveal(Seq::filter);
    if hashed.len() > 0 {
        let rest = hashed.drop_last().filter(answered());
        law_unreadable_files_are_skipped(chunks, hashed.drop_last());
        if hashed.last().1 is Some {
            assert(rest.push(hashed.last()).drop_last() == rest);
            assert(infos_of(rest.push(hashed.last())) == infos_of(rest).push(hashed.last().0));
            let before = by_digest(chunks, hashed.drop_last());
            let key = FullKey { digest: hashed.last().1->Some_0, chunk: chunks[hashed.len() - 1] };
            let item = (key, hashed.last().0);
            assert(values(before.push(item)) == values(before).push(item.1));
        }
    } else {
        assert(values(by_digest(chunks, hashed)) == infos_of(hashed.filter(answered())));
    }
}

// ---- The outcome ---------------------------------------------------------------

/// The scan behind an outcome that was read faithfully.
proof fn lemma_faithful_outcome<R: Fn(&HashJob) -> Option<Digest>>(
    read: R,
    contents: Contents,
    found: Seq<FoundFile>,
    min_size: u64,
    sample: Sample,
    groups: Seq<GroupView>,
) -> (s: Scan)
    requires
        is_outcome(read, found, min_size, sample, groups),
        reads_faithfully(read, contents),
        sizes_hold(contents, readable_files(contents, found, min_size)),
    ensures
        s.is_faithful(),
        s.contents == contents,
        s.found == found,
        s.min_size == min_size,
        s.sample == sample,
        s.groups == groups,
{
    let trace = choose|trace: ScanTrace|
        {
            &&& #[trigger] is_scan(found, min_size, sample, trace, groups)
            &&& are_answers(read, trace.sample_jobs, trace.sampled)
            &&& are_answers(read, full_jobs_of(trace.by_chunk), trace.confirmed)
        };
    law_faithful_reading(read, contents, trace.sample_jobs, trace.sampled);
    law_faithful_reading(read, contents, full_jobs_of(trace.by_chunk), trace.confirmed);
    Scan { contents, found, min_size, sample, trace, groups }
}

/// What [`find_duplicates`](crate::dedupe::find_duplicates) is for: where files
/// are read faithfully and BLAKE3 does not collide on them, it reports exactly
/// the sets of several readable kept files that hold the same, each of them
/// whole. Files that cannot be read are skipped.
pub proof fn law_duplicates_are_found<R: Fn(&HashJob) -> Option<Digest>>(
    read: R,
    contents: Contents,
    found: Seq<FoundFile>,
    min_size: u64,
    sample: Sample,
    groups: Seq<GroupView>,
)
    requires
        is_outcome(read, found, min_size, sample, groups),
        reads_faithfully(read, contents),
        sizes_hold(contents, readable_files(contents, found, min_size)),
        no_collisions(contents, readable_files(contents, found, min_size)),
    ensures
        forall|g: int|
            0 <= g < groups.len() ==> reports_twins(
                contents,
                readable_files(contents, found, min_size),
                #[trigger] groups[g],
            ),
        forall|i: int|
            0 <= i < readable_files(contents, found, min_size).len() && (#[trigger] twins(
                contents,
                readable_files(contents, found, min_size),
                i,
            )).len() > 1 ==> exists|g: int|
                0 <= g < groups.len() && is_group_of(
                    twins(contents, readable_files(contents, found, min_size), i),
                    #[trigger] groups[g],
                ),
{
    let s = lemma_faithful_outcome(read, contents, found, min_size, sample, groups);
    law_groups_are_content_classes(s);
}

/// Two readable kept files that hold the same are in one group of what
/// [`find_duplicates`](crate::dedupe::find_duplicates) reports, collisions or
/// not.
pub proof fn law_no_duplicate_is_missed<R: Fn(&HashJob) -> Option<Digest>>(
    read: R,
    contents: Contents,
    found: Seq<FoundFile>,
    min_size: u64,
    sample: Sample,
    groups: Seq<GroupView>,
    i: int,
    j: int,
)
    requires
        is_outcome(read, found, min_size, sample, groups),
        reads_faithfully(read, contents),
        sizes_hold(contents, readable_files(contents, found, min_size)),
        0 <= i < j < readable_files(contents, found, min_size).len(),
        content(contents, readable_files(contents, found, min_size)[i]) == content(
            contents,
            readable_files(contents, found, min_size)[j],
        ),
    ensures
        exists|g: int|
            0 <= g < groups.len() && (#[trigger] groups[g]).paths.contains(
                readable_files(contents, found, min_size)[i].file_path(),
            ) && groups[g].paths.contains(
                readable_files(contents, found, min_size)[j].file_path(),
            ),
{
    let s = lemma_faithful_outcome(read, contents, found, min_size, sample, groups);
    law_identical_files_are_reported_together(s, i, j);
}

/// What [`find_duplicates`](crate::dedupe::find_duplicates) reports does not
/// depend on where the samples are taken.
pub proof fn law_duplicates_do_not_depend_on_the_sample<R: Fn(&HashJob) -> Option<Digest>>(
    read: R,
    contents: Contents,
    found: Seq<FoundFile>,
    min_size: u64,
    sample_a: Sample,
    groups_a: Seq<GroupView>,
    sample_b: Sample,
    groups_b: Seq<GroupView>,
)
    requires
        is_outcome(read, found, min_size, sample_a, groups_a),
        is_outcome(read, found, min_size, sample_b, groups_b),
        reads_faithfully(read, contents),
        sizes_hold(contents, readable_files(contents, found, min_size)),
        no_collisions(contents, readable_files(contents, found, min_size)),
    ensures
        groups_a == groups_b,
{
    let a = lemma_faithful_outcome(read, contents, found, min_size, sample_a, groups_a);
    let b = lemma_faithful_outcome(read, contents, found, min_size, sample_b, groups_b);
    law_sampling_never_changes_the_report(a, b);
}

// ---- Where reported files come from --------------------------------------------

/// A keyed item of pass 2 is one of the files that were sampled, with its size.
proof fn lemma_chunk_source(hashed: Seq<HashedFile>, n: int) -> (k: int)
    requires
        0 <= n < by_chunk(hashed).len(),
    ensures
        0 <= k < hashed.len(),
        hashed[k].0 == by_chunk(hashed)[n].1,
        by_chunk(hashed)[n].0.size == hashed[k].0.file_size(),
    decreases hashed.len(),
{
    let rest = hashed.drop_last();
    if n < by_chunk(rest).len() {
        lemma_chunk_source(rest, n)
    } else {
        hashed.len() - 1
    }
}

/// A member of a bucket of pass 3 is a kept file of the size that its bucket of
/// pass 2 has.
proof fn lemma_source<R: Fn(&HashJob) -> Option<Digest>>(
    read: R,
    found: Seq<FoundFile>,
    min_size: u64,
    sample: Sample,
    trace: ScanTrace,
    groups: Seq<GroupView>,
    b: int,
    m: int,
) -> (i: int)
    requires
        is_scan(found, min_size, sample, trace, groups),
        are_answers(read, trace.sample_jobs, trace.sampled),
        are_answers(read, full_jobs_of(trace.by_chunk), trace.confirmed),
        0 <= b < trace.by_digest.len(),
        0 <= m < trace.by_digest[b].1@.len(),
    ensures
        0 <= i < kept(found, min_size).len(),
        kept(found, min_size)[i] == trace.by_digest[b].1@[m],
        trace.by_digest[b].0.chunk < trace.by_chunk.len(),
        kept(found, min_size)[i].file_size()
            == trace.by_chunk[trace.by_digest[b].0.chunk as int].0.size,
{
    let files = kept(found, min_size);
    let file = trace.by_digest[b].1@[m];
    lemma_within(read, trace.by_chunk, trace.confirmed, trace.by_digest, b);
    let c = trace.by_digest[b].0.chunk as int;
    let members = trace.by_chunk[c].1@;
    let l = choose|l: int| 0 <= l < members.len() && members[l] == file;
    let e = lemma_bucket_source(by_chunk(trace.sampled), trace.by_chunk, c, l);
    lemma_same_chunk(by_chunk(trace.sampled)[e].0, trace.by_chunk[c].0);
    let q = lemma_chunk_source(trace.sampled, e);
    assert(trace.sampled[q].0 == trace.sample_jobs[q].info);
    law_lone_sizes_are_not_read(trace.by_size, files, sample, trace.sample_jobs);
    assert(files.contains(trace.sample_jobs[q].info));
    choose|i: int| 0 <= i < files.len() && files[i] == file
}

/// Whether one of the files, of this size, stands at this path.
pub open spec fn is_path_of(files: Seq<FileInfo>, path: PathBuf, size: u64) -> bool {
    exists|i: int|
        0 <= i < files.len() && (#[trigger] files[i]).file_path() == path && files[i].file_size()
            == size
}

/// Only files that pass 1 kept are reported, and every file of a group has the
/// size that the group states, whatever reading came to.
pub proof fn law_reported_files_were_kept<R: Fn(&HashJob) -> Option<Digest>>(
    read: R,
    found: Seq<FoundFile>,
    min_size: u64,
    sample: Sample,
    groups: Seq<GroupView>,
)
    requires
        is_outcome(read, found, min_size, sample, groups),
    ensures
        forall|g: int, p: int|
            0 <= g < groups.len() && 0 <= p < groups[g].paths.len() ==> is_path_of(
                kept(found, min_size),
                #[trigger] groups[g].paths[p],
                groups[g].size,
            ),
{
    let trace = choose|trace: ScanTrace|
        {
            &&& #[trigger] is_scan(found, min_size, sample, trace, groups)
            &&& are_answers(read, trace.sample_jobs, trace.sampled)
            &&& are_answers(read, full_jobs_of(trace.by_chunk), trace.confirmed)
        };
    assert forall|g: int, p: int|
        0 <= g < groups.len() && 0 <= p < groups[g].paths.len() implies is_path_of(
        kept(found, min_size),
        #[trigger] groups[g].paths[p],
        groups[g].size,
    ) by {
        let n = lemma_report_source(crowded(trace.by_digest), groups, g);
        let b = lemma_crowded_source(trace.by_digest, n);
        let members = trace.by_digest[b].1@;
        law_group_lists_its_files(members, groups[g]);
        let m = choose|m: int|
            0 <= m < members.len() && (#[trigger] members[m]).file_path() == groups[g].paths[p];
        let first = choose|m: int|
            0 <= m < members.len() && (#[trigger] members[m]).file_path() == groups[g].paths[0]
                && members[m].file_size() == groups[g].size;
        let i = lemma_source(read, found, min_size, sample, trace, groups, b, m);
        let j = lemma_source(read, found, min_size, sample, trace, groups, b, first);
        assert(kept(found, min_size)[i].file_path() == groups[g].paths[p]);
    }
}

/// Neither a file below the size floor nor a name of a physical file of which a
/// later name was found is ever reported, whatever reading came to.
pub proof fn law_hard_links_are_not_reported<R: Fn(&HashJob) -> Option<Digest>>(
    read: R,
    found: Seq<FoundFile>,
    min_size: u64,
    sample: Sample,
    groups: Seq<GroupView>,
    at: int,
)
    requires
        is_outcome(read, found, min_size, sample, groups),
        0 <= at < found.len(),
        !is_last_name(found, min_size, at),
        forall|i: int|
            0 <= i < found.len() && i != at ==> (#[trigger] found[i]).1.file_path()
                != found[at].1.file_path(),
    ensures
        forall|g: int|
            0 <= g < groups.len() ==> !(#[trigger] groups[g]).paths.contains(
                found[at].1.file_path(),
            ),
{
    let places = kept_places(found, min_size, 0);
    law_last_names_are_kept(found, min_size);
    assert forall|g: int| 0 <= g < groups.len() implies !(#[trigger] groups[g]).paths.contains(
        found[at].1.file_path(),
    ) by {
        if groups[g].paths.contains(found[at].1.file_path()) {
            let p = choose|p: int|
                0 <= p < groups[g].paths.len() && groups[g].paths[p] == found[at].1.file_path();
            law_reported_files_were_kept(read, found, min_size, sample, groups);
            assert(is_path_of(kept(found, min_size), groups[g].paths[p], groups[g].size));
            let files = kept(found, min_size);
            let i = choose|i: int|
                0 <= i < files.len() && (#[trigger] files[i]).file_path() == groups[g].paths[p];
            assert(places.contains(places[i]));
            assert(is_last_name(found, min_size, places[i]));
        }
    }
}

} // verus!
