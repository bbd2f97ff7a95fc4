//! What pass 1 keeps of a walk, and how the buckets hold it.

use vstd::prelude::*;

use crate::dedupe::{
    common_sample, file_count, first_superseded, is_by_size, is_size_list, kept, last_names,
    lemma_leveled, sharing, sized, FileInfo, FoundFile,
};
use crate::sort::{lemma_filter_agree, lemma_filter_members, lemma_filter_none};

verus! {

/// Whether pass 1 keeps the file found at this position: it is large enough,
/// and no later file that is large enough is the same physical file.
pub open spec fn is_last_name(found: Seq<FoundFile>, min_size: u64, at: int) -> bool {
    &&& found[at].1.file_size() >= min_size
    &&& forall|j: int|
        at < j < found.len() && (#[trigger] found[j]).1.file_size() >= min_size
            && found[j].0 is Some ==> found[j].0 != found[at].0
}

/// The positions, from this one on, of the files that pass 1 keeps.
pub open spec fn kept_places(found: Seq<FoundFile>, min_size: u64, from: int) -> Seq<int>
    decreases found.len() - from,
{
    if from >= found.len() {
        Seq::empty()
    } else if is_last_name(found, min_size, from) {
        seq![from] + kept_places(found, min_size, from + 1)
    } else {
        kept_places(found, min_size, from + 1)
    }
}

proof fn lemma_kept_places(found: Seq<FoundFile>, min_size: u64, from: int)
    requires
        0 <= from <= found.len(),
    ensures
        ({
            let places = kept_places(found, min_size, from);
            &&& last_names(found.skip(from), min_size) == places.map_values(|at: int| found[at].1)
            &&& forall|k: int|
                0 <= k < places.len() ==> from <= (#[trigger] places[k]) < found.len()
                    && is_last_name(found, min_size, places[k])
            &&& forall|k: int, l: int|
                0 <= k < l < places.len() ==> (#[trigger] places[k]) < (#[trigger] places[l])
            &&& forall|at: int|
                from <= at < found.len() && #[trigger] is_last_name(found, min_size, at)
                    ==> places.contains(at)
        }),
    decreases found.len() - from,
{
    let tail = found.skip(from);
    let show = |at: int| found[at].1;
    let places = kept_places(found, min_size, from);
    if from < found.len() {
        lemma_kept_places(found, min_size, from + 1);
        let rest = kept_places(found, min_size, from + 1);
        assert(tail.drop_first() == found.skip(from + 1));
        assert(first_superseded(tail, min_size) <==> exists|j: int|
            from < j < found.len() && (#[trigger] found[j]).1.file_size() >= min_size
                && found[j].0 is Some && found[j].0 == found[from].0) by {
            if first_superseded(tail, min_size) {
                let j = choose|j: int|
                    0 < j < tail.len() && (#[trigger] tail[j]).0 is Some && tail[j].0 == tail[0].0
                        && tail[j].1.file_size() >= min_size;
                assert(found[from + j] == tail[j]);
            }
            if exists|j: int|
                from < j < found.len() && (#[trigger] found[j]).1.file_size() >= min_size
                    && found[j].0 is Some && found[j].0 == found[from].0 {
                let j = choose|j: int|
                    from < j < found.len() && (#[trigger] found[j]).1.file_size() >= min_size
                        && found[j].0 is Some && found[j].0 == found[from].0;
                assert(tail[j - from] == found[j]);
            }
        }
        if is_last_name(found, min_size, from) {
            assert(places == seq![from] + rest);
            assert(places[0] == from);
            assert(places.map_values(show) == seq![found[from].1] + rest.map_values(show));
            assert forall|at: int|
                from <= at < found.len() && #[trigger] is_last_name(found, min_size, at) implies
                places.contains(at) by {
                if at > from {
                    assert(rest.contains(at));
                    let k = choose|k: int| 0 <= k < rest.len() && rest[k] == at;
                    assert(places[k + 1] == at);
                }
            }
        }
    } else {
        assert(last_names(tail, min_size) == places.map_values(show));
    }
}

/// Pass 1 keeps, in the order of the walk, exactly the files that are large
/// enough and of which no later name was found, each under its path and with
/// its size.
pub proof fn law_last_names_are_kept(found: Seq<FoundFile>, min_size: u64)
    ensures
        ({
            let places = kept_places(found, min_size, 0);
            let files = kept(found, min_size);
            &&& files.len() == places.len()
            &&& forall|k: int|
                0 <= k < files.len() ==> (#[trigger] files[k]).file_path()
                    == found[places[k]].1.file_path() && files[k].file_size()
                    == found[places[k]].1.file_size()
            &&& forall|k: int, l: int|
                0 <= k < l < places.len() ==> (#[trigger] places[k]) < (#[trigger] places[l])
            &&& forall|at: int|
                places.contains(at) <==> 0 <= at < found.len() && #[trigger] is_last_name(
                    found,
                    min_size,
                    at,
                )
        }),
{
    lemma_kept_places(found, min_size, 0);
    assert(found.skip(0) == found);
    lemma_leveled(last_names(found, min_size));
}

proof fn lemma_common_sample(files: Seq<FileInfo>, size: u64)
    ensures
        forall|i: int|
            0 <= i < files.len() && (#[trigger] files[i]).file_size() == size
                ==> files[i].sample_len() <= common_sample(files, size),
        common_sample(files, size) == 0 || exists|i: int|
            0 <= i < files.len() && (#[trigger] files[i]).file_size() == size
                && files[i].sample_len() == common_sample(files, size),
    decreases files.len(),
{
    if files.len() > 0 {
        let rest = files.drop_last();
        let last = files.len() - 1;
        lemma_common_sample(rest, size);
        assert forall|i: int|
            0 <= i < files.len() && (#[trigger] files[i]).file_size() == size implies
            files[i].sample_len() <= common_sample(files, size) by {
            if i < last {
                assert(rest[i] == files[i]);
            }
        }
        if common_sample(files, size) != 0 {
            if files[last].file_size() == size && files[last].sample_len() == common_sample(
                files,
                size,
            ) {
            } else {
                let i = choose|i: int|
                    0 <= i < rest.len() && (#[trigger] rest[i]).file_size() == size
                        && rest[i].sample_len() == common_sample(rest, size);
                assert(files[i] == rest[i]);
            }
        }
    }
}

/// Whether some file of this size asks to be sampled to this length.
pub open spec fn is_asked_for(files: Seq<FileInfo>, size: u64, len: u64) -> bool {
    exists|j: int|
        0 <= j < files.len() && (#[trigger] files[j]).file_size() == size
            && files[j].sample_len() == len
}

/// All kept files of one size are sampled to one length, the largest that any
/// of them asks for.
pub proof fn law_files_of_one_size_are_sampled_alike(found: Seq<FoundFile>, min_size: u64)
    ensures
        ({
            let asked = last_names(found, min_size);
            let files = kept(found, min_size);
            &&& files.len() == asked.len()
            &&& forall|i: int, j: int|
                0 <= i < files.len() && 0 <= j < files.len() && (#[trigger] files[i]).file_size()
                    == (#[trigger] files[j]).file_size() ==> {
                    &&& files[i].sample_len() == files[j].sample_len()
                    &&& asked[j].sample_len() <= files[i].sample_len()
                }
            &&& forall|i: int|
                0 <= i < files.len() ==> is_asked_for(
                    asked,
                    (#[trigger] files[i]).file_size(),
                    files[i].sample_len(),
                )
        }),
{
    let asked = last_names(found, min_size);
    let files = kept(found, min_size);
    lemma_leveled(asked);
    assert forall|i: int, j: int|
        0 <= i < files.len() && 0 <= j < files.len() && (#[trigger] files[i]).file_size() == (
        #[trigger] files[j]).file_size() implies {
        &&& files[i].sample_len() == files[j].sample_len()
        &&& asked[j].sample_len() <= files[i].sample_len()
    } by {
        lemma_common_sample(asked, files[i].file_size());
        assert(asked[j].file_size() == files[i].file_size());
    }
    assert forall|i: int| 0 <= i < files.len() implies is_asked_for(
        asked,
        (#[trigger] files[i]).file_size(),
        files[i].sample_len(),
    ) by {
        lemma_common_sample(asked, asked[i].file_size());
        if common_sample(asked, asked[i].file_size()) == 0 {
            assert(asked[i].sample_len() == 0);
        }
    }
}

/// A physical file is kept under one name: no two of the files kept have the
/// same identity.
pub proof fn law_physical_files_are_kept_once(
    found: Seq<FoundFile>,
    min_size: u64,
    a: int,
    b: int,
)
    requires
        0 <= a < b < found.len(),
        kept_places(found, min_size, 0).contains(a),
        kept_places(found, min_size, 0).contains(b),
        found[a].0 is Some,
    ensures
        found[a].0 != found[b].0,
{
    law_last_names_are_kept(found, min_size);
    assert(is_last_name(found, min_size, a));
    assert(is_last_name(found, min_size, b));
}

/// No physical file is lost: where a name of it was found, large enough, that
/// name or a later one is kept.
pub proof fn law_no_physical_file_is_lost(
    found: Seq<FoundFile>,
    min_size: u64,
    at: int,
) -> (place: int)
    requires
        0 <= at < found.len(),
        found[at].1.file_size() >= min_size,
    ensures
        at <= place < found.len(),
        kept_places(found, min_size, 0).contains(place),
        place == at || (found[at].0 is Some && found[place].0 == found[at].0),
    decreases found.len() - at,
{
    law_last_names_are_kept(found, min_size);
    if is_last_name(found, min_size, at) {
        at
    } else {
        let j = choose|j: int|
            at < j < found.len() && (#[trigger] found[j]).1.file_size() >= min_size
                && found[j].0 is Some && found[j].0 == found[at].0;
        law_no_physical_file_is_lost(found, min_size, j)
    }
}

/// A file below the size floor is never kept.
pub proof fn law_small_files_are_ignored(found: Seq<FoundFile>, min_size: u64)
    ensures
        forall|k: int|
            0 <= k < kept(found, min_size).len() ==> (#[trigger] kept(
                found,
                min_size,
            )[k]).file_size() >= min_size,
{
    law_last_names_are_kept(found, min_size);
    let places = kept_places(found, min_size, 0);
    assert forall|k: int| 0 <= k < kept(found, min_size).len() implies (#[trigger] kept(
        found,
        min_size,
    )[k]).file_size() >= min_size by {
        assert(places.contains(places[k]));
        assert(is_last_name(found, min_size, places[k]));
    }
}

/// A filter by two tests that exclude each other keeps what either keeps.
proof fn lemma_filter_either<T>(
    items: Seq<T>,
    a: spec_fn(T) -> bool,
    b: spec_fn(T) -> bool,
    either: spec_fn(T) -> bool,
)
    requires
        forall|item: T| !(#[trigger] a(item) && b(item)),
        forall|item: T| #[trigger] either(item) <==> a(item) || b(item),
    ensures
        items.filter(either).len() == items.filter(a).len() + items.filter(b).len(),
    decreases items.len(),
{
    reveal(Seq::filter);
    if items.len() > 0 {
        lemma_filter_either(items.drop_last(), a, b, either);
        let last = items.last();
        assert(!(a(last) && b(last)));
        assert(either(last) <==> a(last) || b(last));
    }
}

/// The test for files of one of these sizes.
spec fn sized_among(sizes: Seq<u64>) -> spec_fn(FileInfo) -> bool {
    |file: FileInfo| sizes.contains(file.file_size())
}

proof fn lemma_file_count(buckets: Map<u64, Vec<FileInfo>>, files: Seq<FileInfo>, sizes: Seq<u64>)
    requires
        is_by_size(buckets, files),
        forall|i: int, j: int|
            0 <= i < j < sizes.len() ==> #[trigger] sizes[i] < #[trigger] sizes[j],
        forall|i: int| 0 <= i < sizes.len() ==> buckets.contains_key(#[trigger] sizes[i]),
    ensures
        file_count(buckets, sizes) == files.filter(sized_among(sizes)).len(),
    decreases sizes.len(),
{
    if sizes.len() == 0 {
        lemma_filter_none(files, sized_among(sizes));
    } else {
        let rest = sizes.drop_last();
        let last = sizes.last();
        lemma_file_count(buckets, files, rest);
        assert(buckets.contains_key(sizes[sizes.len() - 1]));
        assert forall|file: FileInfo|
            !(#[trigger] sized_among(rest)(file) && sized(last)(file)) by {
            if rest.contains(last) {
                let i = choose|i: int| 0 <= i < rest.len() && rest[i] == last;
                assert(sizes[i] < sizes[sizes.len() - 1]);
            }
        }
        assert forall|file: FileInfo| #[trigger]
            sized_among(sizes)(file) <==> sized_among(rest)(file) || sized(last)(file) by {
            let size = file.file_size();
            assert(rest.push(last) == sizes);
            if sizes.contains(size) && size != last {
                let i = choose|i: int| 0 <= i < sizes.len() && sizes[i] == size;
                assert(rest[i] == size);
            }
            if rest.contains(size) {
                let i = choose|i: int| 0 <= i < rest.len() && rest[i] == size;
                assert(sizes[i] == size);
            }
            assert(sizes[sizes.len() - 1] == last);
        }
        lemma_filter_either(files, sized_among(rest), sized(last), sized_among(sizes));
    }
}

/// Bucketing by size loses no file and counts none twice.
pub proof fn law_every_file_is_in_one_bucket(
    buckets: Map<u64, Vec<FileInfo>>,
    files: Seq<FileInfo>,
    sizes: Seq<u64>,
)
    requires
        is_by_size(buckets, files),
        is_size_list(buckets, sizes),
    ensures
        file_count(buckets, sizes) == files.len(),
{
    assert forall|i: int| 0 <= i < sizes.len() implies buckets.contains_key(
        #[trigger] sizes[i],
    ) by {
        assert(sizes.contains(sizes[i]));
    }
    lemma_file_count(buckets, files, sizes);
    let all = |file: FileInfo| true;
    assert forall|i: int| 0 <= i < files.len() implies sized_among(sizes)(#[trigger] files[i])
        == all(files[i]) by {
        broadcast use vstd::seq_lib::group_filter_ensures;

        let size = files[i].file_size();
        assert(sized(size)(files[i]));
        assert(files.filter(sized(size)).contains(files[i]));
        assert(files.filter(sized(size)).len() > 0);
        assert(buckets.contains_key(size));
    }
    lemma_filter_agree(files, sized_among(sizes), all);
    lemma_filter_all(files, all);
}

proof fn lemma_filter_all<T>(items: Seq<T>, test: spec_fn(T) -> bool)
    requires
        forall|item: T| #[trigger] test(item),
    ensures
        items.filter(test) == items,
    decreases items.len(),
{
    reveal(Seq::filter);
    if items.len() > 0 {
        lemma_filter_all(items.drop_last(), test);
        assert(items.drop_last().push(items.last()) == items);
    }
}

/// Every file is in the bucket of its size, and every file of a bucket has that
/// size; no bucket is empty.
pub proof fn law_buckets_hold_files_of_their_size(
    buckets: Map<u64, Vec<FileInfo>>,
    files: Seq<FileInfo>,
)
    requires
        is_by_size(buckets, files),
    ensures
        forall|i: int|
            0 <= i < files.len() ==> {
                &&& buckets.contains_key((#[trigger] files[i]).file_size())
                &&& buckets[files[i].file_size()]@.contains(files[i])
            },
        forall|size: u64, m: int|
            buckets.contains_key(size) && 0 <= m < buckets[size]@.len() ==> {
                &&& (#[trigger] buckets[size]@[m]).file_size() == size
                &&& files.contains(buckets[size]@[m])
            },
        forall|size: u64| #[trigger] buckets.contains_key(size) ==> buckets[size]@.len() > 0,
{
    assert forall|i: int| 0 <= i < files.len() implies {
        &&& buckets.contains_key((#[trigger] files[i]).file_size())
        &&& buckets[files[i].file_size()]@.contains(files[i])
    } by {
        let size = files[i].file_size();
        assert(sized(size)(files[i]));
        files.lemma_filter_contains(sized(size), i);
        assert(files.filter(sized(size)).len() > 0);
        assert(buckets.contains_key(size));
    }
    assert forall|size: u64, m: int|
        buckets.contains_key(size) && 0 <= m < buckets[size]@.len() implies {
        &&& (#[trigger] buckets[size]@[m]).file_size() == size
        &&& files.contains(buckets[size]@[m])
    } by {
        lemma_filter_members(files, sized(size), m);
    }
}

/// The test for files of one of these sizes, of which there are several.
spec fn sharing_among(files: Seq<FileInfo>, sizes: Seq<u64>) -> spec_fn(FileInfo) -> bool {
    |file: FileInfo|
        sizes.contains(file.file_size()) && files.filter(sized(file.file_size())).len() > 1
}

proof fn lemma_sharing_count(
    buckets: Map<u64, Vec<FileInfo>>,
    files: Seq<FileInfo>,
    sizes: Seq<u64>,
)
    requires
        is_by_size(buckets, files),
        forall|i: int, j: int|
            0 <= i < j < sizes.len() ==> #[trigger] sizes[i] < #[trigger] sizes[j],
        forall|i: int| 0 <= i < sizes.len() ==> buckets.contains_key(#[trigger] sizes[i]),
    ensures
        sharing(buckets, sizes).len() == files.filter(sharing_among(files, sizes)).len(),
    decreases sizes.len(),
{
    if sizes.len() == 0 {
        lemma_filter_none(files, sharing_among(files, sizes));
    } else {
        let rest = sizes.drop_last();
        let last = sizes.last();
        lemma_sharing_count(buckets, files, rest);
        assert(buckets.contains_key(sizes[sizes.len() - 1]));
        let several = files.filter(sized(last)).len() > 1;
        let here = |file: FileInfo| file.file_size() == last && several;
        assert(!rest.contains(last)) by {
            if rest.contains(last) {
                let i = choose|i: int| 0 <= i < rest.len() && rest[i] == last;
                assert(sizes[i] < sizes[sizes.len() - 1]);
            }
        }
        assert forall|file: FileInfo| #[trigger]
            sharing_among(files, sizes)(file) <==> sharing_among(files, rest)(file) || here(
            file,
        ) by {
            let size = file.file_size();
            if sizes.contains(size) && size != last {
                let i = choose|i: int| 0 <= i < sizes.len() && sizes[i] == size;
                assert(rest[i] == size);
            }
            if rest.contains(size) {
                let i = choose|i: int| 0 <= i < rest.len() && rest[i] == size;
                assert(sizes[i] == size);
            }
            assert(sizes[sizes.len() - 1] == last);
        }
        assert forall|file: FileInfo| !(#[trigger] sharing_among(files, rest)(file) && here(
            file,
        )) by {}
        lemma_filter_either(
            files,
            sharing_among(files, rest),
            here,
            sharing_among(files, sizes),
        );
        if several {
            lemma_filter_agree(files, here, sized(last));
        } else {
            lemma_filter_none(files, here);
        }
    }
}

/// The candidates are the files that share their size with another: as many
/// are counted as there are.
pub proof fn law_files_that_share_a_size_are_candidates(
    buckets: Map<u64, Vec<FileInfo>>,
    files: Seq<FileInfo>,
    sizes: Seq<u64>,
)
    requires
        is_by_size(buckets, files),
        is_size_list(buckets, sizes),
    ensures
        sharing(buckets, sizes).len() == files.filter(
            |file: FileInfo|
                files.filter(|other: FileInfo| other.file_size() == file.file_size()).len() > 1,
        ).len(),
{
    let shares = |file: FileInfo|
        files.filter(|other: FileInfo| other.file_size() == file.file_size()).len() > 1;
    assert forall|i: int| 0 <= i < sizes.len() implies buckets.contains_key(
        #[trigger] sizes[i],
    ) by {
        assert(sizes.contains(sizes[i]));
    }
    lemma_sharing_count(buckets, files, sizes);
    law_buckets_hold_files_of_their_size(buckets, files);
    assert forall|i: int| 0 <= i < files.len() implies sharing_among(files, sizes)(
        #[trigger] files[i],
    ) == shares(files[i]) by {
        let size = files[i].file_size();
        let alike = |other: FileInfo| other.file_size() == files[i].file_size();
        lemma_filter_agree(files, sized(size), alike);
        assert(buckets.contains_key(size));
    }
    lemma_filter_agree(files, sharing_among(files, sizes), shares);
}

} // verus!
