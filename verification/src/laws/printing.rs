//! What can be read from what is printed.

use std::path::PathBuf;

use vstd::prelude::*;

use crate::dedupe::{group_views, grouped, reclaimable, DupGroup, GroupView};
use crate::output::{
    empties_listing, listing, log, path_lines, reports, scan_start, shown_bytes, summary, Group,
};
use crate::paths::{path_bytes, path_display, path_text};
use crate::text::{decimal, law_numbers_read_back, number, reads_as};

verus! {

/// Whether the text has this line.
pub open spec fn has_line(text: Seq<char>, line: Seq<char>) -> bool {
    exists|at: int|
        {
            &&& 0 <= at
            &&& at + line.len() < text.len()
            &&& at == 0 || text[at - 1] == '\n'
            &&& #[trigger] text.subrange(at, at + line.len()) == line
            &&& text[at + line.len()] == '\n'
        }
}

/// Whether a line can start behind this text.
spec fn ends_line(text: Seq<char>) -> bool {
    text.len() == 0 || text.last() == '\n'
}

proof fn lemma_line_before(a: Seq<char>, b: Seq<char>, line: Seq<char>)
    requires
        has_line(a, line),
    ensures
        has_line(a + b, line),
{
    let n = line.len() as int;
    let at = choose|at: int|
        {
            &&& 0 <= at
            &&& at + line.len() < a.len()
            &&& at == 0 || a[at - 1] == '\n'
            &&& #[trigger] a.subrange(at, at + line.len()) == line
            &&& a[at + line.len()] == '\n'
        };
    assert((a + b).subrange(at, at + n) == a.subrange(at, at + n));
}

proof fn lemma_line_after(a: Seq<char>, b: Seq<char>, line: Seq<char>)
    requires
        has_line(b, line),
        ends_line(a),
    ensures
        has_line(a + b, line),
{
    let n = line.len() as int;
    let at = choose|at: int|
        {
            &&& 0 <= at
            &&& at + line.len() < b.len()
            &&& at == 0 || b[at - 1] == '\n'
            &&& #[trigger] b.subrange(at, at + line.len()) == line
            &&& b[at + line.len()] == '\n'
        };
    let to = a.len() + at;
    assert((a + b).subrange(to, to + n) == b.subrange(at, at + n));
    if to > 0 {
        if at == 0 {
            assert((a + b)[to - 1] == a.last());
        } else {
            assert((a + b)[to - 1] == b[at - 1]);
        }
    }
}

/// A line alone.
proof fn lemma_one_line(line: Seq<char>)
    ensures
        has_line(line + "\n"@, line),
        ends_line(line + "\n"@),
{
    reveal_strlit("\n");
    let text = line + "\n"@;
    assert(text.subrange(0int, 0int + line.len()) == line);
    assert(text.last() == '\n');
}

proof fn lemma_ends(a: Seq<char>, b: Seq<char>)
    requires
        ends_line(a),
        ends_line(b),
    ensures
        ends_line(a + b),
{
    if b.len() > 0 {
        assert((a + b).last() == b.last());
    } else {
        assert(a + b == a);
    }
}

// ---- Paths ---------------------------------------------------------------------

/// Paths are listed one after the other, each behind the indent and on a line
/// of its own, and nothing else is.
pub proof fn law_paths_are_listed_one_by_one(
    indent: Seq<char>,
    a: Seq<PathBuf>,
    b: Seq<PathBuf>,
    path: PathBuf,
)
    ensures
        path_lines(indent, a + b) == path_lines(indent, a) + path_lines(indent, b),
        path_lines(indent, seq![path]) == indent + path_display(path_bytes(path)) + "\n"@,
        path_lines(indent, Seq::empty()) == Seq::<char>::empty(),
    decreases b.len(),
{
    let one = seq![path];
    assert(one.drop_last() == Seq::<PathBuf>::empty());
    assert(path_lines(indent, one.drop_last()) == Seq::<char>::empty());
    assert(path_lines(indent, one) =~= indent + path_display(path_bytes(path)) + "\n"@);
    if b.len() == 0 {
        assert(a + b == a);
        assert(path_lines(indent, a) + Seq::<char>::empty() == path_lines(indent, a));
    } else {
        law_paths_are_listed_one_by_one(indent, a, b.drop_last(), path);
        assert((a + b).drop_last() == a + b.drop_last());
        assert(path_lines(indent, a + b) =~= path_lines(indent, a) + path_lines(indent, b));
    }
}

/// Every path that is listed has a line of its own.
pub proof fn law_every_path_has_its_line(indent: Seq<char>, paths: Seq<PathBuf>, at: int)
    requires
        0 <= at < paths.len(),
    ensures
        has_line(path_lines(indent, paths), indent + path_display(path_bytes(paths[at]))),
    decreases paths.len(),
{
    let last = paths.len() - 1;
    let line = indent + path_display(path_bytes(paths[at]));
    let rest = path_lines(indent, paths.drop_last());
    let one = indent + path_display(path_bytes(paths[last])) + "\n"@;
    lemma_path_lines_end(indent, paths.drop_last());
    law_paths_are_listed_one_by_one(indent, paths.drop_last(), seq![paths[last]], paths[last]);
    assert(paths == paths.drop_last() + seq![paths[last]]);
    assert(path_lines(indent, paths) == rest + one);
    if at < last {
        law_every_path_has_its_line(indent, paths.drop_last(), at);
        lemma_line_before(rest, one, line);
    } else {
        lemma_one_line(line);
        lemma_line_after(rest, one, line);
    }
}

proof fn lemma_path_lines_end(indent: Seq<char>, paths: Seq<PathBuf>)
    ensures
        ends_line(path_lines(indent, paths)),
{
    reveal_strlit("\n");
    if paths.len() > 0 {
        assert(path_lines(indent, paths).last() == '\n');
    }
}

// ---- Groups --------------------------------------------------------------------

/// Groups are listed one after the other, and nothing else is.
pub proof fn law_groups_are_listed_one_by_one(a: Seq<GroupView>, b: Seq<GroupView>)
    ensures
        listing(a + b) == listing(a) + listing(b),
        listing(Seq::empty()) == Seq::<char>::empty(),
    decreases b.len(),
{
    if b.len() == 0 {
        assert(a + b == a);
        assert(listing(a) + Seq::<char>::empty() == listing(a));
    } else {
        law_groups_are_listed_one_by_one(a, b.drop_last());
        assert((a + b).drop_last() == a + b.drop_last());
        assert(listing(a + b) =~= listing(a) + listing(b));
    }
}

/// The header of a group whose files have this size.
pub open spec fn is_header(header: Seq<char>, size: nat) -> bool {
    exists|digits: Seq<char>|
        #[trigger] reads_as(digits, size) && header == "Duplicates ("@ + digits + " bytes each):"@
}

/// A group is listed as a header from which its size can be read, then its
/// paths, indented.
pub proof fn law_a_group_is_a_header_and_its_paths(group: GroupView) -> (header: Seq<char>)
    ensures
        is_header(header, group.size as nat),
        listing(seq![group]) == header + "\n"@ + path_lines("  "@, group.paths),
        has_line(listing(seq![group]), header),
{
    let digits = decimal(group.size as nat);
    law_numbers_read_back(group.size as nat);
    let header = "Duplicates ("@ + digits + " bytes each):"@;
    let one = seq![group];
    assert(one.drop_last() == Seq::<GroupView>::empty());
    assert(listing(one.drop_last()) == Seq::<char>::empty());
    reveal_strlit(" bytes each):\n");
    reveal_strlit(" bytes each):");
    reveal_strlit("\n");
    assert(" bytes each):\n"@ =~= " bytes each):"@ + "\n"@);
    assert(listing(one) =~= header + "\n"@ + path_lines("  "@, group.paths));
    lemma_one_line(header);
    lemma_line_before(header + "\n"@, path_lines("  "@, group.paths), header);
    header
}

/// A header tells the size: groups of different sizes never have the same.
pub proof fn law_a_header_tells_the_size(header: Seq<char>, a: nat, b: nat)
    requires
        is_header(header, a),
        is_header(header, b),
    ensures
        a == b,
{
    let before = "Duplicates ("@;
    let after = " bytes each):"@;
    let x = choose|digits: Seq<char>|
        #[trigger] reads_as(digits, a) && header == "Duplicates ("@ + digits + " bytes each):"@;
    let y = choose|digits: Seq<char>|
        #[trigger] reads_as(digits, b) && header == "Duplicates ("@ + digits + " bytes each):"@;
    assert(header == before + x + after);
    assert(header == before + y + after);
    assert((before + x + after).len() == before.len() + x.len() + after.len());
    assert((before + y + after).len() == before.len() + y.len() + after.len());
    assert(header.subrange(before.len() as int, before.len() as int + x.len()) =~= x);
    assert(header.subrange(before.len() as int, before.len() as int + y.len()) =~= y);
}

proof fn lemma_listing_end(groups: Seq<GroupView>)
    ensures
        ends_line(listing(groups)),
    decreases groups.len(),
{
    if groups.len() > 0 {
        let rest = groups.drop_last();
        let last = groups.last();
        lemma_listing_end(rest);
        law_groups_are_listed_one_by_one(rest, seq![last]);
        assert(groups == rest + seq![last]);
        let header = law_a_group_is_a_header_and_its_paths(last);
        lemma_path_lines_end("  "@, last.paths);
        lemma_one_line(header);
        lemma_ends(header + "\n"@, path_lines("  "@, last.paths));
        lemma_ends(listing(rest), listing(seq![last]));
    }
}

/// A line of one group is a line of the listing.
proof fn lemma_group_line(groups: Seq<GroupView>, g: int, line: Seq<char>)
    requires
        0 <= g < groups.len(),
        has_line(listing(seq![groups[g]]), line),
    ensures
        has_line(listing(groups), line),
{
    let before = groups.take(g);
    let one = seq![groups[g]];
    let after = groups.skip(g + 1);
    assert(groups == before + (one + after));
    law_groups_are_listed_one_by_one(before, one + after);
    law_groups_are_listed_one_by_one(one, after);
    lemma_listing_end(before);
    lemma_line_before(listing(one), listing(after), line);
    lemma_line_after(listing(before), listing(one + after), line);
}

/// Every group has its header in the listing.
pub proof fn law_every_group_has_its_header(groups: Seq<GroupView>, g: int) -> (header: Seq<char>)
    requires
        0 <= g < groups.len(),
    ensures
        is_header(header, groups[g].size as nat),
        has_line(listing(groups), header),
{
    let header = law_a_group_is_a_header_and_its_paths(groups[g]);
    lemma_group_line(groups, g, header);
    header
}

/// Every path of every group has a line of its own in the listing.
pub proof fn law_every_duplicate_is_listed(groups: Seq<GroupView>, g: int, p: int)
    requires
        0 <= g < groups.len(),
        0 <= p < groups[g].paths.len(),
    ensures
        has_line(listing(groups), "  "@ + path_display(path_bytes(groups[g].paths[p]))),
{
    let group = groups[g];
    let line = "  "@ + path_display(path_bytes(group.paths[p]));
    let header = law_a_group_is_a_header_and_its_paths(group);
    law_every_path_has_its_line("  "@, group.paths, p);
    lemma_one_line(header);
    lemma_line_after(header + "\n"@, path_lines("  "@, group.paths), line);
    lemma_group_line(groups, g, line);
}

/// The groups that are listed are those reported, in their order.
pub proof fn law_groups_are_listed_as_reported(groups: Seq<DupGroup>)
    ensures
        group_views(groups).len() == groups.len(),
        forall|g: int|
            0 <= g < groups.len() ==> (#[trigger] group_views(groups)[g]).size == groups[g].size
                && group_views(groups)[g].paths == groups[g].paths@,
{
}

// ---- Empty files ---------------------------------------------------------------

/// The list of empty files is a header that counts them, then their paths.
pub proof fn law_empty_files_are_counted_and_listed(empties: Seq<PathBuf>) -> (digits: Seq<char>)
    ensures
        reads_as(digits, empties.len()),
        empties_listing(empties) == "# "@ + digits
            + " empty (0-byte) file(s) — trivially identical, excluded from hashing."@ + "\n"@
            + path_lines(""@, empties),
{
    let digits = decimal(empties.len());
    law_numbers_read_back(empties.len());
    reveal_strlit(" empty (0-byte) file(s) — trivially identical, excluded from hashing.\n");
    reveal_strlit(" empty (0-byte) file(s) — trivially identical, excluded from hashing.");
    reveal_strlit("\n");
    let words = " empty (0-byte) file(s) — trivially identical, excluded from hashing."@;
    assert(" empty (0-byte) file(s) — trivially identical, excluded from hashing.\n"@ =~= words
        + "\n"@);
    assert(empties_listing(empties) =~= "# "@ + digits + words + "\n"@ + path_lines(
        ""@,
        empties,
    ));
    digits
}

/// Every empty file has a line of its own in the list of them.
pub proof fn law_every_empty_file_is_listed(empties: Seq<PathBuf>, at: int)
    requires
        0 <= at < empties.len(),
    ensures
        has_line(empties_listing(empties), path_display(path_bytes(empties[at]))),
{
    let line = path_display(path_bytes(empties[at]));
    let digits = law_empty_files_are_counted_and_listed(empties);
    let header = "# "@ + digits
        + " empty (0-byte) file(s) — trivially identical, excluded from hashing."@;
    law_every_path_has_its_line(""@, empties, at);
    reveal_strlit("");
    assert(""@ + line =~= line);
    lemma_one_line(header);
    lemma_line_after(header + "\n"@, path_lines(""@, empties), line);
}

proof fn lemma_empties_end(empties: Seq<PathBuf>)
    ensures
        ends_line(empties_listing(empties)),
{
    let digits = law_empty_files_are_counted_and_listed(empties);
    let header = "# "@ + digits
        + " empty (0-byte) file(s) — trivially identical, excluded from hashing."@;
    lemma_one_line(header);
    lemma_path_lines_end(""@, empties);
    lemma_ends(header + "\n"@, path_lines(""@, empties));
}

// ---- Progress and summary ------------------------------------------------------

/// The numbers of files found, of files to be read and of empty files can be
/// read from the progress line, the last where there are any.
pub proof fn law_progress_tells_its_numbers(
    scanned: nat,
    candidates: nat,
    empty_count: nat,
) -> (digits: (Seq<char>, Seq<char>, Seq<char>))
    ensures
        reads_as(digits.0, scanned),
        reads_as(digits.1, candidates),
        reads_as(digits.2, empty_count),
        empty_count > 0 ==> scan_start(scanned, candidates, empty_count) == "Found "@ + digits.0
            + " file(s), skipping "@ + digits.2 + " empty; "@ + digits.1
            + " share a size and will be hashed."@,
        empty_count == 0 ==> scan_start(scanned, candidates, empty_count) == "Found "@ + digits.0
            + " file(s); "@ + digits.1 + " share a size and will be hashed."@,
{
    law_numbers_read_back(scanned);
    law_numbers_read_back(candidates);
    law_numbers_read_back(empty_count);
    let digits = (decimal(scanned), decimal(candidates), decimal(empty_count));
    let line = scan_start(scanned, candidates, empty_count);
    if empty_count > 0 {
        assert(line =~= "Found "@ + digits.0 + " file(s), skipping "@ + digits.2 + " empty; "@
            + digits.1 + " share a size and will be hashed."@);
    } else {
        assert(line =~= "Found "@ + digits.0 + " file(s); "@ + digits.1
            + " share a size and will be hashed."@);
    }
    digits
}

/// The numbers of groups and of files can be read from the summary, and it
/// shows the bytes that can be reclaimed.
pub proof fn law_the_summary_tells_its_numbers(
    elapsed: Seq<char>,
    groups: Seq<DupGroup>,
) -> (digits: (Seq<char>, Seq<char>))
    ensures
        reads_as(digits.0, groups.len()),
        reads_as(digits.1, grouped(groups)),
        summary(elapsed, groups) == "Done in "@ + elapsed + ": "@ + digits.0
            + " duplicate group(s) spanning "@ + digits.1 + " file(s); "@ + shown_bytes(
            reclaimable(groups) as nat,
        ) + " reclaimable (nothing deleted)."@,
{
    law_numbers_read_back(groups.len());
    law_numbers_read_back(grouped(groups));
    let digits = (decimal(groups.len()), decimal(grouped(groups)));
    assert(summary(elapsed, groups) =~= "Done in "@ + elapsed + ": "@ + digits.0
        + " duplicate group(s) spanning "@ + digits.1 + " file(s); "@ + shown_bytes(
        reclaimable(groups) as nat,
    ) + " reclaimable (nothing deleted)."@);
    digits
}

/// Whether a summary starts by counting this many groups.
pub open spec fn counts_groups(line: Seq<char>, elapsed: Seq<char>, count: nat) -> bool {
    exists|digits: Seq<char>|
        #[trigger] reads_as(digits, count) && ("Done in "@ + elapsed + ": "@ + digits
            + " duplicate group(s) spanning "@).is_prefix_of(line)
}

/// The first number of the summary counts the groups, however many files each
/// of them holds; one more group raises it by exactly one.
pub proof fn law_the_summary_counts_groups(
    elapsed: Seq<char>,
    groups: Seq<DupGroup>,
    other: Seq<DupGroup>,
    one_more: DupGroup,
)
    requires
        other.len() == groups.len(),
    ensures
        counts_groups(summary(elapsed, groups), elapsed, groups.len()),
        counts_groups(summary(elapsed, other), elapsed, groups.len()),
        counts_groups(summary(elapsed, groups.push(one_more)), elapsed, groups.len() + 1),
{
    lemma_counts_groups(elapsed, groups);
    lemma_counts_groups(elapsed, other);
    lemma_counts_groups(elapsed, groups.push(one_more));
}

proof fn lemma_counts_groups(elapsed: Seq<char>, groups: Seq<DupGroup>)
    ensures
        counts_groups(summary(elapsed, groups), elapsed, groups.len()),
{
    let line = summary(elapsed, groups);
    let digits = law_the_summary_tells_its_numbers(elapsed, groups);
    let front = "Done in "@ + elapsed + ": "@ + digits.0 + " duplicate group(s) spanning "@;
    let back = digits.1 + " file(s); "@ + shown_bytes(reclaimable(groups) as nat)
        + " reclaimable (nothing deleted)."@;
    assert(line =~= front + back);
    assert(front.is_prefix_of(line));
}

/// A summary does not count two different numbers of groups.
pub proof fn law_the_summary_counts_groups_once(
    line: Seq<char>,
    elapsed: Seq<char>,
    a: nat,
    b: nat,
)
    requires
        counts_groups(line, elapsed, a),
        counts_groups(line, elapsed, b),
    ensures
        a == b,
{
    let start = "Done in "@ + elapsed + ": "@;
    let words = " duplicate group(s) spanning "@;
    reveal_strlit(" duplicate group(s) spanning ");
    let x = choose|digits: Seq<char>|
        #[trigger] reads_as(digits, a) && ("Done in "@ + elapsed + ": "@ + digits
            + " duplicate group(s) spanning "@).is_prefix_of(line);
    let y = choose|digits: Seq<char>|
        #[trigger] reads_as(digits, b) && ("Done in "@ + elapsed + ": "@ + digits
            + " duplicate group(s) spanning "@).is_prefix_of(line);
    lemma_same_digits(line, start, words, x, y);
}

proof fn lemma_same_digits(
    line: Seq<char>,
    start: Seq<char>,
    words: Seq<char>,
    x: Seq<char>,
    y: Seq<char>,
)
    requires
        (start + x + words).is_prefix_of(line),
        (start + y + words).is_prefix_of(line),
        words.len() > 0,
        words[0] == ' ',
        forall|i: int| 0 <= i < x.len() ==> '0' <= #[trigger] x[i] <= '9',
        forall|i: int| 0 <= i < y.len() ==> '0' <= #[trigger] y[i] <= '9',
    ensures
        x == y,
{
    let n = start.len() as int;
    let p = start + x + words;
    let q = start + y + words;
    assert(p[n + x.len()] == ' ' && q[n + y.len()] == ' ');
    assert forall|i: int| 0 <= i < p.len() implies #[trigger] p[i] == line[i] by {
        assert(line.subrange(0, p.len() as int)[i] == line[i]);
    }
    assert forall|i: int| 0 <= i < q.len() implies #[trigger] q[i] == line[i] by {
        assert(line.subrange(0, q.len() as int)[i] == line[i]);
    }
    if x.len() < y.len() {
        assert(q[n + x.len()] == y[x.len() as int]);
        assert(q[n + x.len()] == p[n + x.len()]);
    } else if y.len() < x.len() {
        assert(p[n + y.len()] == x[y.len() as int]);
        assert(q[n + y.len()] == p[n + y.len()]);
    } else {
        assert forall|i: int| 0 <= i < x.len() implies #[trigger] x[i] == y[i] by {
            assert(p[n + i] == x[i]);
            assert(q[n + i] == y[i]);
        }
        assert(x =~= y);
    }
}

// ---- The log -------------------------------------------------------------------

/// The log is the progress line, the listing of the groups, the list of empty
/// files where there are any, and the summary, in this order, and nothing else.
pub proof fn law_the_log_is_made_of_its_parts(
    scanned: nat,
    candidates: nat,
    elapsed: Seq<char>,
    groups: Seq<DupGroup>,
    empties: Seq<PathBuf>,
)
    ensures
        ({
            let text = log(scanned, candidates, elapsed, groups, empties);
            let first = scan_start(scanned, candidates, empties.len()) + "\n"@;
            let listed = listing(group_views(groups));
            let last = summary(elapsed, groups) + "\n"@;
            &&& empties.len() > 0 ==> text == first + listed + empties_listing(empties) + last
            &&& empties.len() == 0 ==> text == first + listed + last
        }),
{
    let text = log(scanned, candidates, elapsed, groups, empties);
    let first = scan_start(scanned, candidates, empties.len()) + "\n"@;
    let listed = listing(group_views(groups));
    let last = summary(elapsed, groups) + "\n"@;
    if empties.len() > 0 {
        assert(text =~= first + listed + empties_listing(empties) + last);
    } else {
        assert(text =~= first + listed + last);
    }
}

/// Lines of the parts are lines of the log.
proof fn lemma_log_lines(
    scanned: nat,
    candidates: nat,
    elapsed: Seq<char>,
    groups: Seq<DupGroup>,
    empties: Seq<PathBuf>,
    line: Seq<char>,
)
    requires
        ({
            ||| line == scan_start(scanned, candidates, empties.len())
            ||| has_line(listing(group_views(groups)), line)
            ||| empties.len() > 0 && has_line(empties_listing(empties), line)
            ||| line == summary(elapsed, groups)
        }),
    ensures
        has_line(log(scanned, candidates, elapsed, groups, empties), line),
{
    let text = log(scanned, candidates, elapsed, groups, empties);
    let start = scan_start(scanned, candidates, empties.len());
    let first = start + "\n"@;
    let listed = listing(group_views(groups));
    let last = summary(elapsed, groups) + "\n"@;
    let skipped = if empties.len() > 0 {
        empties_listing(empties)
    } else {
        Seq::empty()
    };
    law_the_log_is_made_of_its_parts(scanned, candidates, elapsed, groups, empties);
    lemma_one_line(start);
    lemma_one_line(summary(elapsed, groups));
    lemma_listing_end(group_views(groups));
    lemma_empties_end(empties);
    assert(ends_line(skipped));
    assert(text =~= first + (listed + (skipped + last)));
    if line == start {
        lemma_line_before(first, listed + (skipped + last), line);
    } else if has_line(listed, line) {
        lemma_line_before(listed, skipped + last, line);
        lemma_line_after(first, listed + (skipped + last), line);
    } else {
        if line == summary(elapsed, groups) {
            lemma_line_after(skipped, last, line);
        } else {
            lemma_line_before(skipped, last, line);
        }
        lemma_line_after(listed, skipped + last, line);
        lemma_line_after(first, listed + (skipped + last), line);
    }
}

/// Whatever the groups are, every empty file that was set aside has a line of
/// its own in the log.
pub proof fn law_the_log_lists_every_empty_file(
    scanned: nat,
    candidates: nat,
    elapsed: Seq<char>,
    groups: Seq<DupGroup>,
    empties: Seq<PathBuf>,
    at: int,
)
    requires
        0 <= at < empties.len(),
    ensures
        has_line(
            log(scanned, candidates, elapsed, groups, empties),
            path_display(path_bytes(empties[at])),
        ),
{
    law_every_empty_file_is_listed(empties, at);
    lemma_log_lines(
        scanned,
        candidates,
        elapsed,
        groups,
        empties,
        path_display(path_bytes(empties[at])),
    );
}

/// Whatever the empty files are, every duplicate has a line of its own in the
/// log, and its group has a header that tells the size.
pub proof fn law_the_log_lists_every_duplicate(
    scanned: nat,
    candidates: nat,
    elapsed: Seq<char>,
    groups: Seq<DupGroup>,
    empties: Seq<PathBuf>,
    g: int,
    p: int,
) -> (header: Seq<char>)
    requires
        0 <= g < groups.len(),
        0 <= p < groups[g].paths@.len(),
    ensures
        has_line(
            log(scanned, candidates, elapsed, groups, empties),
            "  "@ + path_display(path_bytes(groups[g].paths@[p])),
        ),
        is_header(header, groups[g].size as nat),
        has_line(log(scanned, candidates, elapsed, groups, empties), header),
{
    let views = group_views(groups);
    law_groups_are_listed_as_reported(groups);
    law_every_duplicate_is_listed(views, g, p);
    let header = law_every_group_has_its_header(views, g);
    lemma_log_lines(
        scanned,
        candidates,
        elapsed,
        groups,
        empties,
        "  "@ + path_display(path_bytes(views[g].paths[p])),
    );
    lemma_log_lines(scanned, candidates, elapsed, groups, empties, header);
    header
}

/// The log holds the progress line and the summary.
pub proof fn law_the_log_holds_progress_and_summary(
    scanned: nat,
    candidates: nat,
    elapsed: Seq<char>,
    groups: Seq<DupGroup>,
    empties: Seq<PathBuf>,
)
    ensures
        has_line(
            log(scanned, candidates, elapsed, groups, empties),
            scan_start(scanned, candidates, empties.len()),
        ),
        has_line(log(scanned, candidates, elapsed, groups, empties), summary(elapsed, groups)),
{
    lemma_log_lines(
        scanned,
        candidates,
        elapsed,
        groups,
        empties,
        scan_start(scanned, candidates, empties.len()),
    );
    lemma_log_lines(scanned, candidates, elapsed, groups, empties, summary(elapsed, groups));
}

// ---- The report ----------------------------------------------------------------

/// A reported group has the size of the group and the text of each of its
/// paths, in their order.
pub proof fn law_reported_groups_say_all(reported: Group, group: DupGroup)
    requires
        reports(reported, group),
    ensures
        reported.size == group.size,
        reported.paths@.len() == group.paths@.len(),
        forall|i: int|
            0 <= i < group.paths@.len() ==> (#[trigger] reported.paths@[i])@ == path_text(
                path_bytes(group.paths@[i]),
            ),
{
    assert forall|i: int| 0 <= i < group.paths@.len() implies (#[trigger] reported.paths@[i])@
        == path_text(path_bytes(group.paths@[i])) by {
        assert(reported.paths[i]@ == path_text(path_bytes(group.paths[i])));
    }
}

} // verus!
