//! What is read of which files, and what becomes of the answers.

use vstd::prelude::*;

use crate::dedupe::{
    are_answers, are_sample_jobs, full_chunks_of, full_jobs_of, is_by_size, is_size_list,
    lemma_full_lengths, sample_job, sharing, sized, ChunkKey, FileInfo, HashJob, HashedFile,
    Sample,
};
use crate::digest::Digest;
use crate::laws::scan::lemma_sharing_filter;
use crate::sort::lemma_filter_agree;

verus! {

/// What pass 2 asks for of a file is its sample: as many bytes as the file is
/// sampled to, from the start, from the middle, or up to the end; all of a file
/// that is no longer than its sample.
pub proof fn law_samples_are_asked_for(
    buckets: Map<u64, Vec<FileInfo>>,
    sample: Sample,
    jobs: Seq<HashJob>,
    n: int,
)
    requires
        are_sample_jobs(buckets, sample, jobs),
        0 <= n < jobs.len(),
    ensures
        jobs[n].known is None,
        jobs[n].len == jobs[n].info.sample_len(),
        sample == Sample::Start ==> jobs[n].offset == 0,
        jobs[n].info.file_size() <= jobs[n].len ==> jobs[n].offset == 0,
        sample == Sample::End && jobs[n].info.file_size() > jobs[n].len ==> jobs[n].offset
            + jobs[n].len == jobs[n].info.file_size(),
        sample == Sample::Middle && jobs[n].info.file_size() > jobs[n].len ==> {
            let after = jobs[n].info.file_size() - jobs[n].len - jobs[n].offset;
            0 <= after - jobs[n].offset <= 1
        },
{
    let sizes = choose|sizes: Seq<u64>| #[trigger]
        is_size_list(buckets, sizes) && jobs == sharing(buckets, sizes).map_values(
            |info: FileInfo| sample_job(info, sample),
        );
    let info = sharing(buckets, sizes)[n];
    assert(jobs[n] == sample_job(info, sample));
}

/// Of the files of one size pass 2 asks for all where there are several, and
/// for none where there is one.
pub proof fn law_files_that_share_a_size_are_sampled(
    buckets: Map<u64, Vec<FileInfo>>,
    files: Seq<FileInfo>,
    sample: Sample,
    jobs: Seq<HashJob>,
    size: u64,
)
    requires
        is_by_size(buckets, files),
        are_sample_jobs(buckets, sample, jobs),
    ensures
        ({
            let asked = jobs.map_values(|job: HashJob| job.info);
            let alike = |file: FileInfo| file.file_size() == size;
            &&& files.filter(alike).len() > 1 ==> asked.filter(alike) == files.filter(alike)
            &&& files.filter(alike).len() <= 1 ==> asked.filter(alike).len() == 0
        }),
{
    let sizes = choose|sizes: Seq<u64>| #[trigger]
        is_size_list(buckets, sizes) && jobs == sharing(buckets, sizes).map_values(
            |info: FileInfo| sample_job(info, sample),
        );
    let asked = jobs.map_values(|job: HashJob| job.info);
    let alike = |file: FileInfo| file.file_size() == size;
    assert(asked == sharing(buckets, sizes));
    assert forall|i: int| 0 <= i < sizes.len() implies buckets.contains_key(
        #[trigger] sizes[i],
    ) by {
        assert(sizes.contains(sizes[i]));
    }
    lemma_sharing_filter(buckets, files, sizes, size, alike);
    lemma_filter_agree(files, sized(size), alike);
    if files.filter(alike).len() > 1 {
        assert(buckets.contains_key(size));
    }
}

/// What pass 3 asks for of a file is all of it, or nothing where its sample was
/// all of it: then the digest of the sample is taken. It asks for files alone
/// that have the sample of another.
pub proof fn law_whole_files_are_asked_for(
    buckets: Seq<(ChunkKey, Vec<FileInfo>)>,
    n: int,
) -> (at: (int, int))
    requires
        0 <= n < full_jobs_of(buckets).len(),
        buckets.len() <= usize::MAX,
    ensures
        ({
            let job = full_jobs_of(buckets)[n];
            &&& 0 <= at.0 < buckets.len()
            &&& buckets[at.0].1@.len() > 1
            &&& 0 <= at.1 < buckets[at.0].1@.len()
            &&& job.info == buckets[at.0].1@[at.1]
            &&& job.offset == 0
            &&& job.len == u64::MAX
            &&& job.info.file_size() <= job.info.sample_len() ==> job.known == Some(
                buckets[at.0].0.digest,
            )
            &&& job.info.file_size() > job.info.sample_len() ==> job.known is None
            &&& full_chunks_of(buckets)[n] == at.0
        }),
    decreases buckets.len(),
{
    let rest = buckets.drop_last();
    lemma_full_lengths(rest);
    lemma_full_lengths(buckets);
    if n < full_jobs_of(rest).len() {
        let at = law_whole_files_are_asked_for(rest, n);
        assert(buckets[at.0] == rest[at.0]);
        at
    } else {
        (buckets.len() - 1, n - full_jobs_of(rest).len())
    }
}

/// Pass 3 asks for every file that has the size and sample of another.
pub proof fn law_every_survivor_is_confirmed(
    buckets: Seq<(ChunkKey, Vec<FileInfo>)>,
    c: int,
    m: int,
) -> (n: int)
    requires
        0 <= c < buckets.len(),
        0 <= m < buckets[c].1@.len(),
        buckets[c].1@.len() > 1,
    ensures
        0 <= n < full_jobs_of(buckets).len(),
        full_jobs_of(buckets)[n].info == buckets[c].1@[m],
    decreases buckets.len(),
{
    let rest = buckets.drop_last();
    let last = buckets.len() - 1;
    if c < last {
        assert(rest[c] == buckets[c]);
        law_every_survivor_is_confirmed(rest, c, m)
    } else {
        full_jobs_of(rest).len() + m
    }
}

/// A digest that is known is taken as it is, and every other comes from
/// reading; each stays with its file.
pub proof fn law_known_digests_are_not_read_again<R: Fn(&HashJob) -> Option<Digest>>(
    read: R,
    jobs: Seq<HashJob>,
    hashed: Seq<HashedFile>,
    n: int,
)
    requires
        are_answers(read, jobs, hashed),
        0 <= n < jobs.len(),
    ensures
        hashed.len() == jobs.len(),
        hashed[n].0 == jobs[n].info,
        jobs[n].known is Some ==> hashed[n].1 == jobs[n].known,
        jobs[n].known is None ==> call_ensures(read, (&jobs[n],), hashed[n].1),
{
    assert(hashed[n].0 == jobs[n].info);
}

} // verus!
