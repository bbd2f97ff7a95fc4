//! In which order paths are listed.

use std::path::PathBuf;

use vstd::prelude::*;

use crate::dedupe::{
    are_answers, crowded, full_jobs_of, is_outcome, is_report, is_scan, FileInfo, FoundFile,
    FullKey, GroupView, HashJob, Sample, ScanTrace,
};
use crate::digest::Digest;
use crate::laws::report::law_report_is_ordered;
use crate::order::{
    law_first_different_byte_decides, law_shorter_byte_string_comes_first, lemma_lex_common_start,
};
use crate::paths::{
    lemma_part_order, part_order, path_at_most, path_bytes, path_components, PathPart,
};

verus! {

/// Components sort by kind, whatever their names: the prefixes of platforms
/// that have drives, then the root, `.`, `..`, and names.
pub proof fn law_components_sort_by_kind(a: PathPart, b: PathPart)
    ensures
        a is Verbatim && b is VerbatimShare ==> part_order()(a@, b@) && !part_order()(b@, a@),
        a is VerbatimShare && b is VerbatimDisk ==> part_order()(a@, b@) && !part_order()(b@, a@),
        a is VerbatimDisk && b is Device ==> part_order()(a@, b@) && !part_order()(b@, a@),
        a is Device && b is Share ==> part_order()(a@, b@) && !part_order()(b@, a@),
        a is Share && b is Disk ==> part_order()(a@, b@) && !part_order()(b@, a@),
        a is Disk && b is Root ==> part_order()(a@, b@) && !part_order()(b@, a@),
        a is Root && b is Current ==> part_order()(a@, b@) && !part_order()(b@, a@),
        a is Current && b is Parent ==> part_order()(a@, b@) && !part_order()(b@, a@),
        a is Parent && b is Normal ==> part_order()(a@, b@) && !part_order()(b@, a@),
{
}

/// Of two names the one with the numerically smaller byte at the first
/// difference comes first.
pub proof fn law_names_sort_by_their_bytes(a: Vec<u8>, b: Vec<u8>, n: int)
    requires
        0 <= n < a@.len(),
        n < b@.len(),
        forall|i: int| 0 <= i < n ==> #[trigger] a@[i] == b@[i],
        a@[n] < b@[n],
    ensures
        part_order()(PathPart::Normal(a)@, PathPart::Normal(b)@),
        !part_order()(PathPart::Normal(b)@, PathPart::Normal(a)@),
        part_order()(PathPart::Verbatim(a)@, PathPart::Verbatim(b)@),
        !part_order()(PathPart::Verbatim(b)@, PathPart::Verbatim(a)@),
        part_order()(PathPart::Device(a)@, PathPart::Device(b)@),
        !part_order()(PathPart::Device(b)@, PathPart::Device(a)@),
{
    law_first_different_byte_decides(a@, b@, n);
}

/// A name comes before any longer one that starts with it.
pub proof fn law_shorter_names_come_first(a: Vec<u8>, b: Vec<u8>)
    requires
        a@.len() < b@.len(),
        forall|i: int| 0 <= i < a@.len() ==> #[trigger] a@[i] == b@[i],
    ensures
        part_order()(PathPart::Normal(a)@, PathPart::Normal(b)@),
        !part_order()(PathPart::Normal(b)@, PathPart::Normal(a)@),
        part_order()(PathPart::Verbatim(a)@, PathPart::Verbatim(b)@),
        !part_order()(PathPart::Verbatim(b)@, PathPart::Verbatim(a)@),
        part_order()(PathPart::Device(a)@, PathPart::Device(b)@),
        !part_order()(PathPart::Device(b)@, PathPart::Device(a)@),
{
    law_shorter_byte_string_comes_first(a@, b@);
}

/// Drives sort by their letters.
pub proof fn law_drives_sort_by_their_letters(a: u8, b: u8)
    requires
        a < b,
    ensures
        part_order()(PathPart::Disk(a)@, PathPart::Disk(b)@),
        !part_order()(PathPart::Disk(b)@, PathPart::Disk(a)@),
        part_order()(PathPart::VerbatimDisk(a)@, PathPart::VerbatimDisk(b)@),
        !part_order()(PathPart::VerbatimDisk(b)@, PathPart::VerbatimDisk(a)@),
{
    law_first_different_byte_decides(seq![a], seq![b], 0);
}

/// Shares sort by the names of their servers first.
pub proof fn law_shares_sort_by_server(
    server_a: Vec<u8>,
    share_a: Vec<u8>,
    server_b: Vec<u8>,
    share_b: Vec<u8>,
    n: int,
)
    requires
        0 <= n < server_a@.len(),
        n < server_b@.len(),
        forall|i: int| 0 <= i < n ==> #[trigger] server_a@[i] == server_b@[i],
        server_a@[n] < server_b@[n],
    ensures
        ({
            let a = PathPart::Share(server_a, share_a)@;
            let b = PathPart::Share(server_b, share_b)@;
            let c = PathPart::VerbatimShare(server_a, share_a)@;
            let d = PathPart::VerbatimShare(server_b, share_b)@;
            &&& part_order()(a, b) && !part_order()(b, a)
            &&& part_order()(c, d) && !part_order()(d, c)
        }),
{
    law_first_different_byte_decides(server_a@, server_b@, n);
}

/// Shares of one server sort by their own names.
pub proof fn law_shares_of_a_server_sort_by_name(
    server: Vec<u8>,
    share_a: Vec<u8>,
    share_b: Vec<u8>,
    n: int,
)
    requires
        0 <= n < share_a@.len(),
        n < share_b@.len(),
        forall|i: int| 0 <= i < n ==> #[trigger] share_a@[i] == share_b@[i],
        share_a@[n] < share_b@[n],
    ensures
        ({
            let a = PathPart::Share(server, share_a)@;
            let b = PathPart::Share(server, share_b)@;
            let c = PathPart::VerbatimShare(server, share_a)@;
            let d = PathPart::VerbatimShare(server, share_b)@;
            &&& part_order()(a, b) && !part_order()(b, a)
            &&& part_order()(c, d) && !part_order()(d, c)
        }),
{
    law_first_different_byte_decides(share_a@, share_b@, n);
}

/// The first different component decides between two paths.
pub proof fn law_first_different_component_decides(a: PathBuf, b: PathBuf, n: int)
    requires
        ({
            let x = path_components(path_bytes(a));
            let y = path_components(path_bytes(b));
            &&& 0 <= n < x.len()
            &&& n < y.len()
            &&& forall|i: int| 0 <= i < n ==> #[trigger] x[i] == y[i]
            &&& part_order()(x[n], y[n])
            &&& !part_order()(y[n], x[n])
        }),
    ensures
        path_at_most(a, b),
        !path_at_most(b, a),
{
    let x = path_components(path_bytes(a));
    let y = path_components(path_bytes(b));
    lemma_part_order();
    assert(x.take(n) == y.take(n));
    lemma_lex_common_start(x, y, part_order(), n);
    lemma_lex_common_start(y, x, part_order(), n);
    assert(x.skip(n)[0] == x[n] && y.skip(n)[0] == y[n]);
}

/// A path comes before any that lies below it.
pub proof fn law_directories_come_before_what_they_hold(a: PathBuf, b: PathBuf)
    requires
        ({
            let x = path_components(path_bytes(a));
            let y = path_components(path_bytes(b));
            &&& x.len() < y.len()
            &&& forall|i: int| 0 <= i < x.len() ==> #[trigger] x[i] == y[i]
        }),
    ensures
        path_at_most(a, b),
        !path_at_most(b, a),
{
    let x = path_components(path_bytes(a));
    let y = path_components(path_bytes(b));
    let n = x.len() as int;
    assert(x.take(n) == y.take(n));
    lemma_lex_common_start(x, y, part_order(), n);
    lemma_lex_common_start(y, x, part_order(), n);
}

/// Of two paths whose components first differ in two names, and these names at
/// a byte, the path with the numerically smaller byte there is listed first.
pub proof fn law_first_different_byte_of_a_name_decides(a: PathBuf, b: PathBuf, n: int, k: int)
    requires
        ({
            let x = path_components(path_bytes(a));
            let y = path_components(path_bytes(b));
            &&& 0 <= n < x.len()
            &&& n < y.len()
            &&& forall|i: int| 0 <= i < n ==> #[trigger] x[i] == y[i]
            &&& x[n].0 == y[n].0
            &&& 0 <= k < x[n].1.len()
            &&& k < y[n].1.len()
            &&& forall|i: int| 0 <= i < k ==> #[trigger] x[n].1[i] == y[n].1[i]
            &&& x[n].1[k] < y[n].1[k]
        }),
    ensures
        path_at_most(a, b),
        !path_at_most(b, a),
{
    let x = path_components(path_bytes(a));
    let y = path_components(path_bytes(b));
    law_first_different_byte_decides(x[n].1, y[n].1, k);
    law_first_different_component_decides(a, b, n);
}

/// Whether the names at which two paths first differ, if they do so in names,
/// ascend at the byte where the names first differ.
pub open spec fn names_ascend(a: PathBuf, b: PathBuf) -> bool {
    let x = path_components(path_bytes(a));
    let y = path_components(path_bytes(b));
    forall|n: int, k: int|
        {
            &&& 0 <= n < x.len()
            &&& n < y.len()
            &&& x.take(n) == y.take(n)
            &&& x[n].0 == y[n].0
            &&& 0 <= k < x[n].1.len()
            &&& k < y[n].1.len()
            &&& (#[trigger] x[n].1.take(k)) == y[n].1.take(k)
        } ==> x[n].1[k] <= y[n].1[k]
}

proof fn lemma_names_ascend(a: PathBuf, b: PathBuf)
    requires
        path_at_most(a, b),
    ensures
        names_ascend(a, b),
{
    let x = path_components(path_bytes(a));
    let y = path_components(path_bytes(b));
    assert forall|n: int, k: int|
        {
            &&& 0 <= n < x.len()
            &&& n < y.len()
            &&& x.take(n) == y.take(n)
            &&& x[n].0 == y[n].0
            &&& 0 <= k < x[n].1.len()
            &&& k < y[n].1.len()
            &&& (#[trigger] x[n].1.take(k)) == y[n].1.take(k)
        } implies x[n].1[k] <= y[n].1[k] by {
        if y[n].1[k] < x[n].1[k] {
            assert forall|i: int| 0 <= i < n implies #[trigger] y[i] == x[i] by {
                assert(x.take(n)[i] == y.take(n)[i]);
            }
            let p = x[n].1;
            let q = y[n].1;
            assert forall|i: int| 0 <= i < k implies #[trigger] q[i] == p[i] by {
                assert(p.take(k)[i] == q.take(k)[i]);
            }
            law_first_different_byte_of_a_name_decides(b, a, n, k);
        }
    }
}

/// In every report the paths of a group ascend byte by byte, component by
/// component, and so do the first paths of groups of one size, the groups of
/// larger files first.
pub proof fn law_reports_ascend(buckets: Seq<(FullKey, Vec<FileInfo>)>, groups: Seq<GroupView>)
    requires
        is_report(crowded(buckets), groups),
    ensures
        forall|g: int, p: int, q: int|
            0 <= g < groups.len() && 0 <= p < q < groups[g].paths.len() ==> names_ascend(
                #[trigger] groups[g].paths[p],
                #[trigger] groups[g].paths[q],
            ),
        forall|g: int, h: int|
            0 <= g < h < groups.len() ==> (#[trigger] groups[g]).size >= (
            #[trigger] groups[h]).size && (groups[g].size == groups[h].size ==> names_ascend(
                groups[g].paths[0],
                groups[h].paths[0],
            )),
{
    law_report_is_ordered(buckets, groups);
    assert forall|g: int, p: int, q: int|
        0 <= g < groups.len() && 0 <= p < q < groups[g].paths.len() implies names_ascend(
        #[trigger] groups[g].paths[p],
        #[trigger] groups[g].paths[q],
    ) by {
        lemma_names_ascend(groups[g].paths[p], groups[g].paths[q]);
    }
    assert forall|g: int, h: int| 0 <= g < h < groups.len() implies (#[trigger] groups[g]).size >= (
    #[trigger] groups[h]).size && (groups[g].size == groups[h].size ==> names_ascend(
        groups[g].paths[0],
        groups[h].paths[0],
    )) by {
        if groups[g].size == groups[h].size {
            lemma_names_ascend(groups[g].paths[0], groups[h].paths[0]);
        }
    }
}

/// What [`find_duplicates`](crate::dedupe::find_duplicates) reports ascends,
/// whatever reading came to: every group has two files at least, its paths
/// ascend, and the groups come largest files first, then by first path.
pub proof fn law_found_groups_ascend<R: Fn(&HashJob) -> Option<Digest>>(
    read: R,
    found: Seq<FoundFile>,
    min_size: u64,
    sample: Sample,
    groups: Seq<GroupView>,
)
    requires
        is_outcome(read, found, min_size, sample, groups),
    ensures
        forall|g: int| 0 <= g < groups.len() ==> (#[trigger] groups[g]).paths.len() >= 2,
        forall|g: int, p: int, q: int|
            0 <= g < groups.len() && 0 <= p < q < groups[g].paths.len() ==> names_ascend(
                #[trigger] groups[g].paths[p],
                #[trigger] groups[g].paths[q],
            ),
        forall|g: int, h: int|
            0 <= g < h < groups.len() ==> (#[trigger] groups[g]).size >= (
            #[trigger] groups[h]).size && (groups[g].size == groups[h].size ==> names_ascend(
                groups[g].paths[0],
                groups[h].paths[0],
            )),
{
    let trace = choose|trace: ScanTrace|
        {
            &&& #[trigger] is_scan(found, min_size, sample, trace, groups)
            &&& are_answers(read, trace.sample_jobs, trace.sampled)
            &&& are_answers(read, full_jobs_of(trace.by_chunk), trace.confirmed)
        };
    law_reports_ascend(trace.by_digest, groups);
    law_report_is_ordered(trace.by_digest, groups);
}

} // verus!
