//! Rendering scan results: text listings, progress lines, the log, the report
//! that is serialized, and byte formatting.

use std::path::PathBuf;

use vstd::prelude::*;
use vstd::utf8::{decode_utf8, valid_utf8};

use crate::dedupe::{
    duplicate_files, group_views, grouped, no_empty_group, reclaimable, reclaimable_bytes, DupGroup,
    GroupView,
};
use crate::paths::{display_of, path_bytes, path_display, path_text, text_of};
use crate::text::{decimal, digit, push_decimal};

verus! {

/// `value / unit`, rounded to the nearest integer; a tie goes to the even one.
pub open spec fn nearest(value: nat, unit: nat) -> nat {
    let whole = value / unit;
    let part = value % unit;
    if 2 * part < unit || (2 * part == unit && whole % 2 == 0) {
        whole
    } else {
        whole + 1
    }
}

/// The distance between numbers of 53 significant bits around `value`.
pub open spec fn double_step(value: nat) -> nat
    decreases value,
{
    if value < 0x20_0000_0000_0000 {
        1
    } else {
        2 * double_step(value / 2)
    }
}

/// The number of 53 significant bits that is nearest to `value`, as byte
/// counts are shown to double precision.
pub open spec fn as_double(value: nat) -> nat {
    nearest(value, double_step(value)) * double_step(value)
}

/// The unit in which a byte count is shown, in bytes.
pub open spec fn unit_size(bytes: nat) -> nat {
    if bytes < 0x400 {
        1
    } else if bytes < 0x10_0000 {
        0x400
    } else if bytes < 0x4000_0000 {
        0x10_0000
    } else if bytes < 0x100_0000_0000 {
        0x4000_0000
    } else if bytes < 0x4_0000_0000_0000 {
        0x100_0000_0000
    } else {
        0x4_0000_0000_0000
    }
}

/// The name of the unit in which a byte count is shown, with a space before it.
pub open spec fn unit_name(bytes: nat) -> Seq<char> {
    if bytes < 0x400 {
        " B"@
    } else if bytes < 0x10_0000 {
        " KiB"@
    } else if bytes < 0x4000_0000 {
        " MiB"@
    } else if bytes < 0x100_0000_0000 {
        " GiB"@
    } else if bytes < 0x4_0000_0000_0000 {
        " TiB"@
    } else {
        " PiB"@
    }
}

/// A byte count as it is shown: whole bytes below 1 KiB, else in the largest
/// binary unit that it reaches, to two decimals.
pub open spec fn shown_bytes(bytes: nat) -> Seq<char> {
    if bytes < 0x400 {
        decimal(bytes) + unit_name(bytes)
    } else {
        let hundredths = nearest(as_double(bytes) * 100, unit_size(bytes));
        decimal(hundredths / 100) + "."@ + seq![digit(hundredths / 10 % 10), digit(hundredths % 10)]
            + unit_name(bytes)
    }
}

/// The distance between numbers of 53 significant bits around `value`.
fn find_step(value: u64) -> (step: u64)
    ensures
        step == double_step(value as nat),
        1 <= step,
        step == 1 || step * 0x10_0000_0000_0000 <= value,
    decreases value,
{
    if value < 0x20_0000_0000_0000 {
        1
    } else {
        2 * find_step(value / 2)
    }
}

/// `value / unit`, rounded to the nearest integer; a tie goes to the even one.
fn round(value: u128, unit: u128) -> (rounded: u128)
    requires
        0 < unit <= 0x4_0000_0000_0000,
        value < 0x80_0000_0000_0000_0000_0000,
    ensures
        rounded == nearest(value as nat, unit as nat),
{
    let whole = value / unit;
    let part = value % unit;
    assert(whole <= value) by (nonlinear_arith)
        requires
            whole == value / unit,
            unit > 0,
    ;
    if 2 * part < unit || (2 * part == unit && whole % 2 == 0) {
        whole
    } else {
        whole + 1
    }
}

/// Rounding goes up by a unit at most.
proof fn lemma_nearest_bound(value: nat, unit: nat)
    requires
        unit > 0,
    ensures
        nearest(value, unit) * unit <= value + unit,
{
    let whole = value / unit;
    assert(whole * unit <= value) by (nonlinear_arith)
        requires
            whole == value / unit,
            unit > 0,
    ;
    assert((whole + 1) * unit == whole * unit + unit) by (nonlinear_arith);
}

/// Format a byte count with binary units (KiB/MiB/GiB/...), e.g. `1.47 GiB`.
pub fn human_readable_bytes(bytes: u64) -> (text: String)
    ensures
        text@ == shown_bytes(bytes as nat),
{
    let (unit, name): (u128, &str) = if bytes < 0x400 {
        (1, " B")
    } else if bytes < 0x10_0000 {
        (0x400, " KiB")
    } else if bytes < 0x4000_0000 {
        (0x10_0000, " MiB")
    } else if bytes < 0x100_0000_0000 {
        (0x4000_0000, " GiB")
    } else if bytes < 0x4_0000_0000_0000 {
        (0x100_0000_0000, " TiB")
    } else {
        (0x4_0000_0000_0000, " PiB")
    };
    let mut text = String::new();
    if bytes < 0x400 {
        push_decimal(&mut text, bytes);
        text.append(name);
        assert(text@ =~= shown_bytes(bytes as nat));
        return text;
    }
    let step = find_step(bytes);
    let steps = round(bytes as u128, step as u128);
    proof {
        lemma_nearest_bound(bytes as nat, step as nat);
        assert(0 <= steps * step) by (nonlinear_arith);
    }
    let value = steps * step as u128;
    let hundredths = round(value * 100, unit);
    proof {
        lemma_nearest_bound(value as nat * 100, unit as nat);
        assert(hundredths * 0x400 <= hundredths * unit) by (nonlinear_arith)
            requires
                0x400 <= unit,
                0 <= hundredths,
        ;
    }
    push_decimal(&mut text, (hundredths / 100) as u64);
    text.append(".");
    push_decimal(&mut text, (hundredths / 10 % 10) as u64);
    push_decimal(&mut text, (hundredths % 10) as u64);
    text.append(name);
    assert(text@ =~= shown_bytes(bytes as nat));
    text
}

// ---- Progress ------------------------------------------------------------------

/// What is said once the walk is done.
pub open spec fn scan_start(scanned: nat, candidates: nat, empty_count: nat) -> Seq<char> {
    let skipped = if empty_count > 0 {
        " file(s), skipping "@ + decimal(empty_count) + " empty; "@
    } else {
        " file(s); "@
    };
    "Found "@ + decimal(scanned) + skipped + decimal(candidates)
        + " share a size and will be hashed."@
}

/// The line that says how many files the walk found and how many of them will
/// be read, noting any empty ones that are set aside.
pub fn scan_start_line(scanned: usize, candidates: usize, empty_count: usize) -> (line: String)
    ensures
        line@ == scan_start(scanned as nat, candidates as nat, empty_count as nat),
{
    let mut line = String::new();
    line.append("Found ");
    push_decimal(&mut line, scanned as u64);
    if empty_count > 0 {
        line.append(" file(s), skipping ");
        push_decimal(&mut line, empty_count as u64);
        line.append(" empty; ");
    } else {
        line.append(" file(s); ");
    }
    push_decimal(&mut line, candidates as u64);
    line.append(" share a size and will be hashed.");
    assert(line@ =~= scan_start(scanned as nat, candidates as nat, empty_count as nat));
    line
}

/// What is said when the scan is done.
pub open spec fn summary(elapsed: Seq<char>, groups: Seq<DupGroup>) -> Seq<char> {
    "Done in "@ + elapsed + ": "@ + decimal(groups.len()) + " duplicate group(s) spanning "@
        + decimal(grouped(groups)) + " file(s); "@ + shown_bytes(reclaimable(groups) as nat)
        + " reclaimable (nothing deleted)."@
}

/// The line that sums the scan up; `elapsed` is how long it took, as text.
pub fn summary_line(elapsed: &str, groups: &[DupGroup]) -> (line: String)
    requires
        no_empty_group(groups@),
        reclaimable(groups@) <= u64::MAX,
        grouped(groups@) <= usize::MAX,
    ensures
        line@ == summary(elapsed@, groups@),
{
    let mut line = String::new();
    line.append("Done in ");
    line.append(elapsed);
    line.append(": ");
    push_decimal(&mut line, groups.len() as u64);
    line.append(" duplicate group(s) spanning ");
    push_decimal(&mut line, duplicate_files(groups) as u64);
    line.append(" file(s); ");
    let bytes = human_readable_bytes(reclaimable_bytes(groups));
    line.append(bytes.as_str());
    line.append(" reclaimable (nothing deleted).");
    assert(line@ =~= summary(elapsed@, groups@));
    line
}

// ---- Listings ------------------------------------------------------------------

/// A path as it is printed.
pub open spec fn printed(path: PathBuf) -> Seq<char> {
    path_display(path_bytes(path))
}

/// The paths, each on a line of its own behind `indent`.
pub open spec fn path_lines(indent: Seq<char>, paths: Seq<PathBuf>) -> Seq<char>
    decreases paths.len(),
{
    if paths.len() == 0 {
        Seq::empty()
    } else {
        path_lines(indent, paths.drop_last()) + indent + printed(paths.last()) + "\n"@
    }
}

/// Append the paths, each on a line of its own behind `indent`.
fn push_paths(text: &mut String, indent: &str, paths: &[PathBuf])
    ensures
        final(text)@ == old(text)@ + path_lines(indent@, paths@),
{
    let ghost before = text@;
    let mut at: usize = 0;
    assert(text@ =~= before + path_lines(indent@, paths@.take(0)));
    while at < paths.len()
        invariant
            at <= paths.len(),
            text@ == before + path_lines(indent@, paths@.take(at as int)),
        decreases paths.len() - at,
    {
        let path = display_of(&paths[at]);
        text.append(indent);
        text.append(path.as_str());
        text.append("\n");
        assert(paths@.take(at + 1).drop_last() == paths@.take(at as int));
        assert(text@ =~= before + path_lines(indent@, paths@.take(at + 1)));
        at = at + 1;
    }
    assert(paths@.take(at as int) == paths@);
}

/// One group as it is listed: the size of its files, then their paths.
pub open spec fn group_text(group: GroupView) -> Seq<char> {
    "Duplicates ("@ + decimal(group.size as nat) + " bytes each):\n"@ + path_lines(
        "  "@,
        group.paths,
    )
}

/// The groups as they are listed, one after the other.
pub open spec fn listing(groups: Seq<GroupView>) -> Seq<char>
    decreases groups.len(),
{
    if groups.len() == 0 {
        Seq::empty()
    } else {
        listing(groups.drop_last()) + group_text(groups.last())
    }
}

/// The duplicate groups as a human-readable listing.
pub fn groups_text(groups: &[DupGroup]) -> (text: String)
    ensures
        text@ == listing(group_views(groups@)),
{
    let ghost views = group_views(groups@);
    let mut text = String::new();
    let mut at: usize = 0;
    assert(text@ =~= listing(views.take(0)));
    while at < groups.len()
        invariant
            at <= groups.len(),
            views == group_views(groups@),
            text@ == listing(views.take(at as int)),
        decreases groups.len() - at,
    {
        let group = &groups[at];
        text.append("Duplicates (");
        push_decimal(&mut text, group.size);
        text.append(" bytes each):\n");
        push_paths(&mut text, "  ", group.paths.as_slice());
        assert(views.take(at + 1).drop_last() == views.take(at as int));
        assert(views[at as int] == group@);
        assert(text@ =~= listing(views.take(at + 1)));
        at = at + 1;
    }
    assert(views.take(at as int) == views);
    text
}

/// The list of empty files: a header that counts them, then their paths.
pub open spec fn empties_listing(empties: Seq<PathBuf>) -> Seq<char> {
    "# "@ + decimal(empties.len())
        + " empty (0-byte) file(s) — trivially identical, excluded from hashing.\n"@ + path_lines(
        ""@,
        empties,
    )
}

/// The paths of the empty files that were set aside, under a header.
pub fn empty_log_text(empties: &[PathBuf]) -> (text: String)
    ensures
        text@ == empties_listing(empties@),
{
    let mut text = String::new();
    text.append("# ");
    push_decimal(&mut text, empties.len() as u64);
    text.append(" empty (0-byte) file(s) — trivially identical, excluded from hashing.\n");
    push_paths(&mut text, "", empties);
    assert(text@ =~= empties_listing(empties@));
    text
}

/// The note that says where the list of empty files went; `None` where there
/// are none to speak of.
pub fn empty_log_note(count: usize, log: &PathBuf) -> (note: Option<String>)
    ensures
        note is Some <==> count > 0,
        note matches Some(text) ==> text@ == "Wrote "@ + decimal(count as nat)
            + " empty-file path(s) to "@ + printed(*log) + "."@,
{
    if count == 0 {
        return None;
    }
    let path = display_of(log);
    let mut note = String::new();
    note.append("Wrote ");
    push_decimal(&mut note, count as u64);
    note.append(" empty-file path(s) to ");
    note.append(path.as_str());
    note.append(".");
    assert(note@ =~= "Wrote "@ + decimal(count as nat) + " empty-file path(s) to "@ + printed(*log)
        + "."@);
    Some(note)
}

/// The log of a scan: what the walk found, the duplicate groups, the empty
/// files where there are any, and the summary.
pub open spec fn log(
    scanned: nat,
    candidates: nat,
    elapsed: Seq<char>,
    groups: Seq<DupGroup>,
    empties: Seq<PathBuf>,
) -> Seq<char> {
    let skipped = if empties.len() > 0 {
        empties_listing(empties)
    } else {
        Seq::empty()
    };
    scan_start(scanned, candidates, empties.len()) + "\n"@ + listing(group_views(groups)) + skipped
        + summary(elapsed, groups) + "\n"@
}

/// The full report on a scan, duplicate groups and empty files, as it is
/// written to the log.
pub fn log_text(
    scanned: usize,
    candidates: usize,
    elapsed: &str,
    groups: &[DupGroup],
    empties: &[PathBuf],
) -> (text: String)
    requires
        no_empty_group(groups@),
        reclaimable(groups@) <= u64::MAX,
        grouped(groups@) <= usize::MAX,
    ensures
        text@ == log(scanned as nat, candidates as nat, elapsed@, groups@, empties@),
{
    let mut text = scan_start_line(scanned, candidates, empties.len());
    text.append("\n");
    let groups_part = groups_text(groups);
    text.append(groups_part.as_str());
    if empties.len() > 0 {
        let empties_part = empty_log_text(empties);
        text.append(empties_part.as_str());
    }
    let last = summary_line(elapsed, groups);
    text.append(last.as_str());
    text.append("\n");
    assert(text@ =~= log(scanned as nat, candidates as nat, elapsed@, groups@, empties@));
    text
}

// ---- The report that is serialized ----------------------------------------------

/// One duplicate group of a [`Report`].
pub struct Group {
    /// The size of every file in the group.
    pub size: u64,
    /// The paths of the files, as text.
    pub paths: Vec<String>,
}

/// The report on a scan, in plain values.
pub struct Report {
    /// How many files the walk found.
    pub scanned: usize,
    /// How many of them share a size with another.
    pub candidates: usize,
    /// How many of them are empty.
    pub empty_files: usize,
    /// How long the scan took, in milliseconds.
    pub elapsed_ms: u128,
    /// How many bytes keeping one file of each group would free.
    pub reclaimable_bytes: u64,
    /// How many files the groups span.
    pub duplicate_files: usize,
    /// The groups.
    pub groups: Vec<Group>,
}

/// Whether the reported group says what the duplicate group does.
pub open spec fn reports(reported: Group, group: DupGroup) -> bool {
    &&& reported.size == group.size
    &&& reported.paths.len() == group.paths.len()
    &&& forall|i: int|
        0 <= i < group.paths.len() ==> {
            let bytes = path_bytes(group.paths[i]);
            &&& (#[trigger] reported.paths[i])@ == path_text(bytes)
            &&& valid_utf8(bytes) ==> reported.paths[i]@ == decode_utf8(bytes)
        }
}

fn report_group(group: &DupGroup) -> (reported: Group)
    ensures
        reports(reported, *group),
{
    let mut paths: Vec<String> = Vec::new();
    let mut at: usize = 0;
    while at < group.paths.len()
        invariant
            at <= group.paths.len(),
            paths.len() == at,
            forall|i: int|
                0 <= i < at ==> {
                    let bytes = path_bytes(group.paths[i]);
                    &&& (#[trigger] paths[i])@ == path_text(bytes)
                    &&& valid_utf8(bytes) ==> paths[i]@ == decode_utf8(bytes)
                },
        decreases group.paths.len() - at,
    {
        paths.push(text_of(&group.paths[at]));
        at = at + 1;
    }
    Group { size: group.size, paths }
}

/// Build the report on a scan.
pub fn report(
    scanned: usize,
    candidates: usize,
    empty_files: usize,
    elapsed_ms: u128,
    groups: &[DupGroup],
) -> (report: Report)
    requires
        no_empty_group(groups@),
        reclaimable(groups@) <= u64::MAX,
        grouped(groups@) <= usize::MAX,
    ensures
        report.scanned == scanned,
        report.candidates == candidates,
        report.empty_files == empty_files,
        report.elapsed_ms == elapsed_ms,
        report.reclaimable_bytes == reclaimable(groups@),
        report.duplicate_files == grouped(groups@),
        report.groups.len() == groups.len(),
        forall|i: int|
            0 <= i < groups.len() ==> reports(#[trigger] report.groups[i], groups@[i]),
{
    let mut listed: Vec<Group> = Vec::new();
    let mut at: usize = 0;
    while at < groups.len()
        invariant
            at <= groups.len(),
            listed.len() == at,
            forall|i: int| 0 <= i < at ==> reports(#[trigger] listed[i], groups@[i]),
        decreases groups.len() - at,
    {
        listed.push(report_group(&groups[at]));
        at = at + 1;
    }
    Report {
        scanned,
        candidates,
        empty_files,
        elapsed_ms,
        reclaimable_bytes: reclaimable_bytes(groups),
        duplicate_files: duplicate_files(groups),
        groups: listed,
    }
}

} // verus!
