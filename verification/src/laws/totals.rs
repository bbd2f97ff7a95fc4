//! What the totals of a report count.

use vstd::prelude::*;

use crate::dedupe::{grouped, no_empty_group, reclaimable, DupGroup};

verus! {

/// The bytes of all files of all groups together.
pub open spec fn bytes_in_all(groups: Seq<DupGroup>) -> int
    decreases groups.len(),
{
    if groups.len() == 0 {
        0
    } else {
        bytes_in_all(groups.drop_last()) + groups.last().paths@.len() * groups.last().size
    }
}

/// The bytes of one file of each group together.
pub open spec fn bytes_of_one_each(groups: Seq<DupGroup>) -> int
    decreases groups.len(),
{
    if groups.len() == 0 {
        0
    } else {
        bytes_of_one_each(groups.drop_last()) + groups.last().size
    }
}

/// What is reclaimed and what is kept, one file of each group, make up all
/// bytes of the groups.
pub proof fn law_reclaimed_and_kept_make_up_all(groups: Seq<DupGroup>)
    ensures
        reclaimable(groups) + bytes_of_one_each(groups) == bytes_in_all(groups),
    decreases groups.len(),
{
    if groups.len() > 0 {
        law_reclaimed_and_kept_make_up_all(groups.drop_last());
        let size = groups.last().size as int;
        let count = groups.last().paths@.len() as int;
        assert(size * (count - 1) + size == count * size) by (nonlinear_arith);
    }
}

/// The totals of two lists of groups add up, and those of none are zero.
pub proof fn law_totals_add_up(a: Seq<DupGroup>, b: Seq<DupGroup>)
    ensures
        reclaimable(a + b) == reclaimable(a) + reclaimable(b),
        grouped(a + b) == grouped(a) + grouped(b),
        reclaimable(Seq::empty()) == 0,
        grouped(Seq::empty()) == 0,
    decreases b.len(),
{
    if b.len() == 0 {
        assert(a + b == a);
    } else {
        law_totals_add_up(a, b.drop_last());
        assert((a + b).drop_last() == a + b.drop_last());
    }
}

/// A group of one file has nothing to reclaim; it spans that file.
pub proof fn law_a_single_file_reclaims_nothing(group: DupGroup)
    requires
        group.paths@.len() == 1,
    ensures
        reclaimable(seq![group]) == 0,
        grouped(seq![group]) == 1,
{
    let groups = seq![group];
    assert(groups.last() == group);
    assert(group.paths@.len() * group.size == group.size) by (nonlinear_arith)
        requires
            group.paths@.len() == 1,
    ;
    law_reclaimed_and_kept_make_up_all(groups);
    assert(groups.drop_last() == Seq::<DupGroup>::empty());
    reveal_with_fuel(bytes_in_all, 2);
    reveal_with_fuel(bytes_of_one_each, 2);
    reveal_with_fuel(grouped, 2);
}

/// One more copy in one group raises what can be reclaimed by exactly the size
/// of the file, and the number of files by exactly one.
pub proof fn law_one_more_copy(groups: Seq<DupGroup>, at: int, more: DupGroup)
    requires
        0 <= at < groups.len(),
        more.size == groups[at].size,
        more.paths@.len() == groups[at].paths@.len() + 1,
    ensures
        reclaimable(groups.update(at, more)) == reclaimable(groups) + more.size,
        grouped(groups.update(at, more)) == grouped(groups) + 1,
    decreases groups.len(),
{
    let last = groups.len() - 1;
    let changed = groups.update(at, more);
    if at < last {
        law_one_more_copy(groups.drop_last(), at, more);
        assert(changed.drop_last() == groups.drop_last().update(at, more));
    } else {
        assert(changed.drop_last() == groups.drop_last());
        let size = more.size as int;
        let count = groups[at].paths@.len() as int;
        assert(size * (count + 1 - 1) == size * (count - 1) + size) by (nonlinear_arith);
    }
}

/// The files of all groups are counted, group by group.
pub proof fn law_files_are_counted(groups: Seq<DupGroup>, group: DupGroup)
    ensures
        grouped(groups.push(group)) == grouped(groups) + group.paths@.len(),
        grouped(groups.push(group)) >= group.paths@.len(),
{
    assert(groups.push(group).drop_last() == groups);
}

/// A list has no empty group where each of its groups has a file.
pub proof fn law_no_group_is_empty(groups: Seq<DupGroup>, group: DupGroup)
    ensures
        no_empty_group(Seq::empty()),
        no_empty_group(groups.push(group)) <==> no_empty_group(groups) && group.paths@.len() >= 1,
{
    let more = groups.push(group);
    if no_empty_group(more) {
        assert(more[groups.len() as int] == group);
        assert forall|i: int| 0 <= i < groups.len() implies (#[trigger] groups[i]).paths@.len()
            > 0 by {
            assert(more[i] == groups[i]);
        }
    }
}

} // verus!
