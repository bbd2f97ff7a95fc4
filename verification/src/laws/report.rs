//! What holds of every report.

use vstd::multiset::Multiset;
use vstd::prelude::*;

use crate::dedupe::{
    crowded, file_order, group_order, is_group_of, is_report, lemma_file_order, lemma_group_order,
    FileInfo, FullKey, GroupView,
};
use crate::paths::path_at_most;
use crate::sort::{
    is_order, is_sorted_copy, law_sorted_copy_is_a_permutation, law_sorted_copy_is_unique,
};

verus! {

/// A sequence holds an item as often as another of which it is a permutation.
proof fn lemma_same_members<T>(a: Seq<T>, b: Seq<T>, item: T)
    requires
        a.to_multiset() == b.to_multiset(),
    ensures
        a.contains(item) <==> b.contains(item),
{
    vstd::seq_lib::to_multiset_contains(a, item);
    vstd::seq_lib::to_multiset_contains(b, item);
}

/// Two different positions of a sequence stand at two different positions of
/// any permutation of it.
proof fn lemma_pair_in_permutation<T>(a: Seq<T>, b: Seq<T>, g: int, h: int) -> (at: (int, int))
    requires
        a.to_multiset() == b.to_multiset(),
        0 <= g < h < a.len(),
    ensures
        0 <= at.0 < b.len(),
        0 <= at.1 < b.len(),
        at.0 != at.1,
        b[at.0] == a[g],
        b[at.1] == a[h],
{
    broadcast use vstd::multiset::group_multiset_axioms;
    broadcast use vstd::seq_lib::group_to_multiset_ensures;

    assert(a.contains(a[g]));
    lemma_same_members(a, b, a[g]);
    let i = choose|i: int| 0 <= i < b.len() && b[i] == a[g];
    let a_rest = a.remove(g);
    let b_rest = b.remove(i);
    vstd::seq_lib::to_multiset_remove(a, g);
    vstd::seq_lib::to_multiset_remove(b, i);
    assert(a_rest.to_multiset() == b_rest.to_multiset());
    assert(a_rest[h - 1] == a[h]);
    assert(a_rest.contains(a[h]));
    lemma_same_members(a_rest, b_rest, a[h]);
    let j = choose|j: int| 0 <= j < b_rest.len() && b_rest[j] == a[h];
    if j < i {
        (i, j)
    } else {
        (i, j + 1)
    }
}

/// Where the crowded buckets stand among all.
pub proof fn lemma_crowded_source(buckets: Seq<(FullKey, Vec<FileInfo>)>, n: int) -> (b: int)
    requires
        0 <= n < crowded(buckets).len(),
    ensures
        0 <= b < buckets.len(),
        buckets[b].1@ == crowded(buckets)[n],
        buckets[b].1@.len() > 1,
    decreases buckets.len(),
{
    let rest = buckets.drop_last();
    if n < crowded(rest).len() {
        let b = lemma_crowded_source(rest, n);
        assert(buckets[b] == rest[b]);
        b
    } else {
        buckets.len() - 1
    }
}

/// Different crowded buckets stand at different places.
pub proof fn lemma_crowded_apart(buckets: Seq<(FullKey, Vec<FileInfo>)>, n: int, m: int) -> (at: (
    int,
    int,
))
    requires
        0 <= n < m < crowded(buckets).len(),
    ensures
        0 <= at.0 < at.1 < buckets.len(),
        buckets[at.0].1@ == crowded(buckets)[n],
        buckets[at.1].1@ == crowded(buckets)[m],
    decreases buckets.len(),
{
    let rest = buckets.drop_last();
    if m < crowded(rest).len() {
        let at = lemma_crowded_apart(rest, n, m);
        assert(buckets[at.0] == rest[at.0]);
        assert(buckets[at.1] == rest[at.1]);
        at
    } else {
        let b = lemma_crowded_source(rest, n);
        assert(buckets[b] == rest[b]);
        (b, buckets.len() - 1)
    }
}

/// Every crowded bucket is listed.
pub proof fn lemma_crowded_lists(buckets: Seq<(FullKey, Vec<FileInfo>)>, b: int) -> (n: int)
    requires
        0 <= b < buckets.len(),
        buckets[b].1@.len() > 1,
    ensures
        0 <= n < crowded(buckets).len(),
        crowded(buckets)[n] == buckets[b].1@,
    decreases buckets.len(),
{
    let rest = buckets.drop_last();
    if b < rest.len() {
        assert(rest[b] == buckets[b]);
        lemma_crowded_lists(rest, b)
    } else {
        crowded(rest).len() as int
    }
}

/// The paths of a group are those of its files.
pub proof fn law_group_lists_its_files(files: Seq<FileInfo>, group: GroupView)
    requires
        is_group_of(files, group),
    ensures
        group.paths.len() == files.len(),
        group.paths.to_multiset() == files.map_values(|file: FileInfo| file.file_path())
            .to_multiset(),
        forall|i: int|
            0 <= i < files.len() ==> group.paths.contains((#[trigger] files[i]).file_path()),
        forall|p: int|
            0 <= p < group.paths.len() ==> exists|i: int|
                0 <= i < files.len() && (#[trigger] files[i]).file_path()
                    == #[trigger] group.paths[p],
        files.len() > 0 ==> exists|i: int|
            0 <= i < files.len() && (#[trigger] files[i]).file_path() == group.paths[0]
                && files[i].file_size() == group.size,
{
    let sorted = choose|sorted: Seq<FileInfo>|
        {
            &&& #[trigger] is_sorted_copy(files, sorted, file_order())
            &&& group.size == sorted[0].file_size()
            &&& group.paths == sorted.map_values(|file: FileInfo| file.file_path())
        };
    lemma_file_order();
    law_sorted_copy_is_a_permutation(files, sorted, file_order());
    let path = |file: FileInfo| file.file_path();
    lemma_map_permutation(sorted, files, path);
    assert(group.paths == sorted.map_values(path));
    assert forall|i: int| 0 <= i < files.len() implies group.paths.contains(
        (#[trigger] files[i]).file_path(),
    ) by {
        assert(files.contains(files[i]));
        lemma_same_members(files, sorted, files[i]);
        let j = choose|j: int| 0 <= j < sorted.len() && sorted[j] == files[i];
        assert(group.paths[j] == files[i].file_path());
    }
    assert forall|p: int| 0 <= p < group.paths.len() implies exists|i: int|
        0 <= i < files.len() && (#[trigger] files[i]).file_path() == #[trigger] group.paths[p] by {
        assert(sorted.contains(sorted[p]));
        lemma_same_members(files, sorted, sorted[p]);
        let i = choose|i: int| 0 <= i < files.len() && files[i] == sorted[p];
        assert(files[i].file_path() == group.paths[p]);
    }
    if files.len() > 0 {
        assert(sorted.contains(sorted[0]));
        lemma_same_members(files, sorted, sorted[0]);
        let i = choose|i: int| 0 <= i < files.len() && files[i] == sorted[0];
        assert(files[i].file_path() == group.paths[0]);
    }
}

/// Mapping permutations gives permutations.
proof fn lemma_map_permutation<A, B>(a: Seq<A>, b: Seq<A>, f: spec_fn(A) -> B)
    requires
        a.to_multiset() == b.to_multiset(),
    ensures
        a.map_values(f).to_multiset() == b.map_values(f).to_multiset(),
    decreases a.len(),
{
    broadcast use vstd::multiset::group_multiset_axioms;
    broadcast use vstd::seq_lib::group_to_multiset_ensures;

    assert(a.to_multiset().len() == a.len() && b.to_multiset().len() == b.len());
    if a.len() == 0 {
        assert(a == b);
    } else {
        let x = a.last();
        assert(a[a.len() - 1] == x);
        assert(a.contains(x));
        lemma_same_members(a, b, x);
        let i = choose|i: int| 0 <= i < b.len() && b[i] == x;
        let a_rest = a.drop_last();
        let b_rest = b.remove(i);
        assert(a == a_rest.push(x));
        vstd::seq_lib::to_multiset_remove(b, i);
        assert(a_rest.to_multiset() =~= a.to_multiset().remove(x));
        lemma_map_permutation(a_rest, b_rest, f);
        assert(a.map_values(f) == a_rest.map_values(f).push(f(x)));
        let b_shown = b.map_values(f);
        assert(b_shown.remove(i) == b_rest.map_values(f));
        vstd::seq_lib::to_multiset_remove(b_shown, i);
        assert(b_shown.to_multiset() =~= b_rest.map_values(f).to_multiset().insert(f(x)));
    }
}

/// The group of a report that reports the set at `n`.
pub proof fn lemma_report_has(sets: Seq<Seq<FileInfo>>, groups: Seq<GroupView>, n: int) -> (g: int)
    requires
        is_report(sets, groups),
        0 <= n < sets.len(),
    ensures
        0 <= g < groups.len(),
        is_group_of(sets[n], groups[g]),
{
    let unordered = choose|unordered: Seq<GroupView>|
        {
            &&& unordered.len() == sets.len()
            &&& forall|i: int|
                0 <= i < sets.len() ==> is_group_of(#[trigger] sets[i], unordered[i])
            &&& #[trigger] is_sorted_copy(unordered, groups, group_order())
        };
    lemma_group_order();
    law_sorted_copy_is_a_permutation(unordered, groups, group_order());
    assert(is_group_of(sets[n], unordered[n]));
    assert(unordered.contains(unordered[n]));
    lemma_same_members(unordered, groups, unordered[n]);
    choose|g: int| 0 <= g < groups.len() && groups[g] == unordered[n]
}

/// The sets that two groups of a report are about.
pub proof fn lemma_report_pair(
    sets: Seq<Seq<FileInfo>>,
    groups: Seq<GroupView>,
    g: int,
    h: int,
) -> (at: (int, int))
    requires
        is_report(sets, groups),
        0 <= g < h < groups.len(),
    ensures
        0 <= at.0 < sets.len(),
        0 <= at.1 < sets.len(),
        at.0 != at.1,
        is_group_of(sets[at.0], groups[g]),
        is_group_of(sets[at.1], groups[h]),
{
    let unordered = choose|unordered: Seq<GroupView>|
        {
            &&& unordered.len() == sets.len()
            &&& forall|i: int|
                0 <= i < sets.len() ==> is_group_of(#[trigger] sets[i], unordered[i])
            &&& #[trigger] is_sorted_copy(unordered, groups, group_order())
        };
    lemma_group_order();
    law_sorted_copy_is_a_permutation(unordered, groups, group_order());
    let at = lemma_pair_in_permutation(groups, unordered, g, h);
    assert(is_group_of(sets[at.0], unordered[at.0]));
    assert(is_group_of(sets[at.1], unordered[at.1]));
    at
}

/// The set that a group of a report is about.
pub proof fn lemma_report_source(
    sets: Seq<Seq<FileInfo>>,
    groups: Seq<GroupView>,
    g: int,
) -> (n: int)
    requires
        is_report(sets, groups),
        0 <= g < groups.len(),
    ensures
        0 <= n < sets.len(),
        is_group_of(sets[n], groups[g]),
{
    let unordered = choose|unordered: Seq<GroupView>|
        {
            &&& unordered.len() == sets.len()
            &&& forall|i: int|
                0 <= i < sets.len() ==> is_group_of(#[trigger] sets[i], unordered[i])
            &&& #[trigger] is_sorted_copy(unordered, groups, group_order())
        };
    lemma_group_order();
    law_sorted_copy_is_a_permutation(unordered, groups, group_order());
    assert(groups.contains(groups[g]));
    lemma_same_members(unordered, groups, groups[g]);
    let n = choose|n: int| 0 <= n < unordered.len() && unordered[n] == groups[g];
    assert(is_group_of(sets[n], unordered[n]));
    n
}

/// Every report lists groups of two or more files, the paths of each group in
/// order, and the groups largest first, then by first path.
pub proof fn law_report_is_ordered(
    buckets: Seq<(FullKey, Vec<FileInfo>)>,
    groups: Seq<GroupView>,
)
    requires
        is_report(crowded(buckets), groups),
    ensures
        groups.len() == crowded(buckets).len(),
        forall|g: int| 0 <= g < groups.len() ==> (#[trigger] groups[g]).paths.len() >= 2,
        forall|g: int, p: int, q: int|
            0 <= g < groups.len() && 0 <= p < q < groups[g].paths.len() ==> path_at_most(
                #[trigger] groups[g].paths[p],
                #[trigger] groups[g].paths[q],
            ),
        forall|g: int, h: int|
            0 <= g < h < groups.len() ==> (#[trigger] groups[g]).size > (#[trigger] groups[h]).size
                || (groups[g].size == groups[h].size && path_at_most(
                groups[g].paths[0],
                groups[h].paths[0],
            )),
{
    assert forall|g: int| 0 <= g < groups.len() implies (#[trigger] groups[g]).paths.len()
        >= 2 by {
        let n = lemma_report_source(crowded(buckets), groups, g);
        let b = lemma_crowded_source(buckets, n);
        law_group_lists_its_files(crowded(buckets)[n], groups[g]);
    }
    assert forall|g: int, p: int, q: int|
        0 <= g < groups.len() && 0 <= p < q < groups[g].paths.len() implies path_at_most(
        #[trigger] groups[g].paths[p],
        #[trigger] groups[g].paths[q],
    ) by {
        let n = lemma_report_source(crowded(buckets), groups, g);
        let files = crowded(buckets)[n];
        let group = groups[g];
        let sorted = choose|sorted: Seq<FileInfo>|
            {
                &&& #[trigger] is_sorted_copy(files, sorted, file_order())
                &&& group.size == sorted[0].file_size()
                &&& group.paths == sorted.map_values(|file: FileInfo| file.file_path())
            };
        assert(file_order()(sorted[p], sorted[q]));
    }
    assert forall|g: int, h: int| 0 <= g < h < groups.len() implies (#[trigger] groups[g]).size > (
    #[trigger] groups[h]).size || (groups[g].size == groups[h].size && path_at_most(
        groups[g].paths[0],
        groups[h].paths[0],
    )) by {
        assert(group_order()(groups[g], groups[h]));
    }
}

/// There is one report on given sets of files.
pub proof fn law_report_is_unique(
    sets: Seq<Seq<FileInfo>>,
    a: Seq<GroupView>,
    b: Seq<GroupView>,
)
    requires
        is_report(sets, a),
        is_report(sets, b),
        forall|i: int| 0 <= i < sets.len() ==> (#[trigger] sets[i]).len() > 0,
    ensures
        a == b,
{
    let unordered_a = choose|unordered: Seq<GroupView>|
        {
            &&& unordered.len() == sets.len()
            &&& forall|i: int|
                0 <= i < sets.len() ==> is_group_of(#[trigger] sets[i], unordered[i])
            &&& #[trigger] is_sorted_copy(unordered, a, group_order())
        };
    let unordered_b = choose|unordered: Seq<GroupView>|
        {
            &&& unordered.len() == sets.len()
            &&& forall|i: int|
                0 <= i < sets.len() ==> is_group_of(#[trigger] sets[i], unordered[i])
            &&& #[trigger] is_sorted_copy(unordered, b, group_order())
        };
    lemma_file_order();
    lemma_group_order();
    assert forall|i: int| 0 <= i < sets.len() implies #[trigger] unordered_a[i]
        == unordered_b[i] by {
        let files = sets[i];
        assert(is_group_of(files, unordered_a[i]));
        assert(is_group_of(files, unordered_b[i]));
        let sorted_a = choose|sorted: Seq<FileInfo>|
            {
                &&& #[trigger] is_sorted_copy(files, sorted, file_order())
                &&& unordered_a[i].size == sorted[0].file_size()
                &&& unordered_a[i].paths == sorted.map_values(|file: FileInfo| file.file_path())
            };
        let sorted_b = choose|sorted: Seq<FileInfo>|
            {
                &&& #[trigger] is_sorted_copy(files, sorted, file_order())
                &&& unordered_b[i].size == sorted[0].file_size()
                &&& unordered_b[i].paths == sorted.map_values(|file: FileInfo| file.file_path())
            };
        law_sorted_copy_is_unique(files, sorted_a, sorted_b, file_order());
    }
    assert(unordered_a == unordered_b);
    law_sorted_copy_is_unique(unordered_a, a, b, group_order());
}

/// Sorted sequences of the same items are the same where no two items are level
/// with each other.
proof fn lemma_sorted_apart<T>(a: Seq<T>, b: Seq<T>, order: spec_fn(T, T) -> bool)
    requires
        is_order(order),
        a.to_multiset() == b.to_multiset(),
        forall|i: int, j: int|
            0 <= i < j < a.len() ==> order(#[trigger] a[i], #[trigger] a[j]) && !order(a[j], a[i]),
        forall|i: int, j: int| 0 <= i < j < b.len() ==> order(#[trigger] b[i], #[trigger] b[j]),
    ensures
        a == b,
    decreases a.len(),
{
    broadcast use vstd::multiset::group_multiset_axioms;
    broadcast use vstd::seq_lib::group_to_multiset_ensures;

    assert(a.to_multiset().len() == a.len() && b.to_multiset().len() == b.len());
    if a.len() > 0 {
        let last = a.len() - 1;
        assert(b.contains(b[last]));
        lemma_same_members(a, b, b[last]);
        let i = choose|i: int| 0 <= i < a.len() && a[i] == b[last];
        assert(a.contains(a[last]));
        lemma_same_members(a, b, a[last]);
        let j = choose|j: int| 0 <= j < b.len() && b[j] == a[last];
        if i < last {
            assert(order(a[i], a[last]) && !order(a[last], a[i]));
            assert(j < last);
            assert(order(b[j], b[last]));
        }
        let a_rest = a.drop_last();
        let b_rest = b.drop_last();
        assert(a == a_rest.push(a[last]));
        assert(b == b_rest.push(b[last]));
        assert(a_rest.to_multiset() =~= a.to_multiset().remove(a[last]));
        assert(b_rest.to_multiset() =~= b.to_multiset().remove(a[last]));
        assert forall|i: int, j: int| 0 <= i < j < a_rest.len() implies order(
            #[trigger] a_rest[i],
            #[trigger] a_rest[j],
        ) && !order(a_rest[j], a_rest[i]) by {
            assert(order(a[i], a[j]));
        }
        assert forall|i: int, j: int| 0 <= i < j < b_rest.len() implies order(
            #[trigger] b_rest[i],
            #[trigger] b_rest[j],
        ) by {
            assert(order(b[i], b[j]));
        }
        lemma_sorted_apart(a_rest, b_rest, order);
    }
}

/// Whether two files have the same path.
pub open spec fn same_path(a: FileInfo, b: FileInfo) -> bool {
    path_at_most(a.file_path(), b.file_path()) && path_at_most(b.file_path(), a.file_path())
}

/// Whether no path occurs twice in these sets of files.
pub open spec fn paths_differ(sets: Seq<Seq<FileInfo>>) -> bool {
    forall|i: int, k: int, j: int, l: int|
        0 <= i < sets.len() && 0 <= k < sets[i].len() && 0 <= j < sets.len() && 0 <= l
            < sets[j].len() && (i != j || k != l) ==> !same_path(
            #[trigger] sets[i][k],
            #[trigger] sets[j][l],
        )
}

/// How often each file is in each set.
pub open spec fn set_contents(sets: Seq<Seq<FileInfo>>) -> Seq<Multiset<FileInfo>> {
    sets.map_values(|files: Seq<FileInfo>| files.to_multiset())
}

/// Whether the group reports the files held this often, in whatever order they
/// came.
spec fn reports_held(held: Multiset<FileInfo>, group: GroupView) -> bool {
    exists|files: Seq<FileInfo>|
        files.to_multiset() == held && #[trigger] is_group_of(files, group)
}

/// The group that reports some files does not depend on their order.
pub proof fn law_file_order_does_not_matter(
    files_a: Seq<FileInfo>,
    a: GroupView,
    files_b: Seq<FileInfo>,
    b: GroupView,
)
    requires
        is_group_of(files_a, a),
        is_group_of(files_b, b),
        files_a.to_multiset() == files_b.to_multiset(),
        forall|k: int, l: int|
            0 <= k < files_a.len() && 0 <= l < files_a.len() && k != l ==> !same_path(
                #[trigger] files_a[k],
                #[trigger] files_a[l],
            ),
    ensures
        a == b,
{
    let sorted_a = choose|sorted: Seq<FileInfo>|
        {
            &&& #[trigger] is_sorted_copy(files_a, sorted, file_order())
            &&& a.size == sorted[0].file_size()
            &&& a.paths == sorted.map_values(|file: FileInfo| file.file_path())
        };
    let sorted_b = choose|sorted: Seq<FileInfo>|
        {
            &&& #[trigger] is_sorted_copy(files_b, sorted, file_order())
            &&& b.size == sorted[0].file_size()
            &&& b.paths == sorted.map_values(|file: FileInfo| file.file_path())
        };
    let order = file_order();
    lemma_file_order();
    law_sorted_copy_is_a_permutation(files_a, sorted_a, order);
    law_sorted_copy_is_a_permutation(files_b, sorted_b, order);
    assert forall|i: int, j: int| 0 <= i < j < sorted_a.len() implies order(
        #[trigger] sorted_a[i],
        #[trigger] sorted_a[j],
    ) && !order(sorted_a[j], sorted_a[i]) by {
        let (k, l) = lemma_pair_in_permutation(sorted_a, files_a, i, j);
        assert(!same_path(files_a[k], files_a[l]));
    }
    lemma_sorted_apart(sorted_a, sorted_b, order);
}

/// The group that reports files held this often, if there is one.
spec fn group_for(held: Multiset<FileInfo>) -> GroupView {
    choose|group: GroupView| reports_held(held, group)
}

/// The groups of a report before they are ordered, by what each set holds.
proof fn lemma_groups_by_contents(sets: Seq<Seq<FileInfo>>, unordered: Seq<GroupView>)
    requires
        paths_differ(sets),
        unordered.len() == sets.len(),
        forall|i: int| 0 <= i < sets.len() ==> is_group_of(#[trigger] sets[i], unordered[i]),
    ensures
        unordered == set_contents(sets).map_values(|held: Multiset<FileInfo>| group_for(held)),
{
    let by_contents = set_contents(sets).map_values(
        |held: Multiset<FileInfo>| group_for(held),
    );
    assert forall|i: int| 0 <= i < sets.len() implies #[trigger] unordered[i]
        == by_contents[i] by {
        let files = sets[i];
        assert(is_group_of(files, unordered[i]));
        assert(reports_held(files.to_multiset(), unordered[i]));
        let group = group_for(files.to_multiset());
        assert(reports_held(files.to_multiset(), group));
        let other = choose|other: Seq<FileInfo>|
            other.to_multiset() == files.to_multiset() && #[trigger] is_group_of(other, group);
        assert forall|k: int, l: int|
            0 <= k < files.len() && 0 <= l < files.len() && k != l implies !same_path(
            #[trigger] files[k],
            #[trigger] files[l],
        ) by {
            assert(!same_path(sets[i][k], sets[i][l]));
        }
        law_file_order_does_not_matter(files, unordered[i], other, group);
        assert(by_contents[i] == group);
    }
    assert(unordered == by_contents);
}

/// The report depends on which files are in which set alone: neither on the
/// order of the sets nor on the order of the files in them.
pub proof fn law_report_does_not_depend_on_order(
    sets_a: Seq<Seq<FileInfo>>,
    a: Seq<GroupView>,
    sets_b: Seq<Seq<FileInfo>>,
    b: Seq<GroupView>,
)
    requires
        is_report(sets_a, a),
        is_report(sets_b, b),
        set_contents(sets_a).to_multiset() == set_contents(sets_b).to_multiset(),
        paths_differ(sets_a),
        paths_differ(sets_b),
        forall|i: int| 0 <= i < sets_a.len() ==> (#[trigger] sets_a[i]).len() > 0,
    ensures
        a == b,
{
    let unordered_a = choose|unordered: Seq<GroupView>|
        {
            &&& unordered.len() == sets_a.len()
            &&& forall|i: int|
                0 <= i < sets_a.len() ==> is_group_of(#[trigger] sets_a[i], unordered[i])
            &&& #[trigger] is_sorted_copy(unordered, a, group_order())
        };
    let unordered_b = choose|unordered: Seq<GroupView>|
        {
            &&& unordered.len() == sets_b.len()
            &&& forall|i: int|
                0 <= i < sets_b.len() ==> is_group_of(#[trigger] sets_b[i], unordered[i])
            &&& #[trigger] is_sorted_copy(unordered, b, group_order())
        };
    let order = group_order();
    lemma_group_order();
    lemma_groups_by_contents(sets_a, unordered_a);
    lemma_groups_by_contents(sets_b, unordered_b);
    lemma_map_permutation(
        set_contents(sets_a),
        set_contents(sets_b),
        |held: Multiset<FileInfo>| group_for(held),
    );
    law_sorted_copy_is_a_permutation(unordered_a, a, order);
    law_sorted_copy_is_a_permutation(unordered_b, b, order);
    assert forall|g: int, h: int| 0 <= g < h < a.len() implies order(
        #[trigger] a[g],
        #[trigger] a[h],
    ) && !order(a[h], a[g]) by {
        let (i, j) = lemma_pair_in_permutation(a, unordered_a, g, h);
        assert(is_group_of(sets_a[i], unordered_a[i]));
        assert(is_group_of(sets_a[j], unordered_a[j]));
        law_group_lists_its_files(sets_a[i], a[g]);
        law_group_lists_its_files(sets_a[j], a[h]);
        let k = choose|k: int|
            0 <= k < sets_a[i].len() && (#[trigger] sets_a[i][k]).file_path() == a[g].paths[0];
        let l = choose|l: int|
            0 <= l < sets_a[j].len() && (#[trigger] sets_a[j][l]).file_path() == a[h].paths[0];
        assert(!same_path(sets_a[i][k], sets_a[j][l]));
    }
    lemma_sorted_apart(a, b, order);
}

} // verus!
