//! Grouping of the photo stream into labelled, contiguous ranges.
use vstd::prelude::*;

use crate::text::push_char;

verus! {

/// How the photo stream is divided into sections.
#[derive(Debug, Clone, Copy, PartialEq, Eq, Structural)]
pub enum GroupMode {
    /// No sections.
    Ungrouped,
    Day,
    Month,
    /// Internal grouping used by Folder mode: one section per folder.
    Folder,
    /// Internal sticky-date grouping for the History stream.
    History,
}

/// Which photo date a date grouping reads.
#[derive(Debug, Clone, Copy, PartialEq, Eq, Structural)]
pub enum GroupDate {
    Taken,
    Added,
}

/// A contiguous run `[start, end)` of the photo stream sharing one label.
/// Folder groups also carry their folder id so equal basenames do not merge.
#[derive(Debug, Clone)]
pub struct GroupRange {
    pub start: usize,
    pub end: usize,
    pub label: String,
    pub folder_id: i64,
}

/// Plain-value view of a [`GroupRange`].
pub struct GroupRangeView {
    pub start: int,
    pub end: int,
    pub label: Seq<char>,
    pub folder_id: i64,
}

impl View for GroupRange {
    type V = GroupRangeView;

    open spec fn view(&self) -> GroupRangeView {
        GroupRangeView {
            start: self.start as int,
            end: self.end as int,
            label: self.label@,
            folder_id: self.folder_id,
        }
    }
}

/// The views of a slice of ranges.
pub open spec fn ranges_view(ranges: Seq<GroupRange>) -> Seq<GroupRangeView> {
    ranges.map_values(|r: GroupRange| r@)
}

/// The grouping key of one photo: its section label and, in Folder mode, its
/// folder id (zero otherwise).
pub open spec fn key_of(labels: Seq<Seq<char>>, folder_ids: Seq<i64>, folder_mode: bool, i: int) -> (
    Seq<char>,
    i64,
) {
    (labels[i], if folder_mode { folder_ids[i] } else { 0 })
}

/// Runs of equal keys over the first `n` photos: a new range starts at every
/// photo whose key differs from the previous photo's.
pub open spec fn spec_runs(labels: Seq<Seq<char>>, folder_ids: Seq<i64>, folder_mode: bool, n: int) -> Seq<
    GroupRangeView,
>
    decreases n,
{
    if n <= 0 {
        Seq::empty()
    } else {
        let prev = spec_runs(labels, folder_ids, folder_mode, n - 1);
        let key = key_of(labels, folder_ids, folder_mode, n - 1);
        if prev.len() > 0 && prev.last().label == key.0 && prev.last().folder_id == key.1 {
            prev.update(
                prev.len() - 1,
                GroupRangeView { end: n, ..prev.last() },
            )
        } else {
            prev.push(GroupRangeView { start: n - 1, end: n, label: key.0, folder_id: key.1 })
        }
    }
}

/// The group ranges of a stream whose photos have the given labels (and, in
/// Folder mode, folder ids); none when the stream is ungrouped.
pub open spec fn spec_group_ranges(
    mode: GroupMode,
    labels: Seq<Seq<char>>,
    folder_ids: Seq<i64>,
) -> Seq<GroupRangeView> {
    if mode == GroupMode::Ungrouped {
        Seq::empty()
    } else {
        spec_runs(labels, folder_ids, mode == GroupMode::Folder, labels.len() as int)
    }
}

/// Labels of a slice of strings.
pub open spec fn labels_view(labels: Seq<String>) -> Seq<Seq<char>> {
    labels.map_values(|l: String| l@)
}

/// Split the stream into runs of photos sharing one label (and, in Folder
/// mode, one folder id). `labels[i]` is photo `i`'s label for `mode`;
/// `folder_ids` is read only in Folder mode.
pub fn rebuild_group_ranges(mode: GroupMode, labels: &[String], folder_ids: &[i64]) -> (ranges: Vec<
    GroupRange,
>)
    requires
        mode == GroupMode::Folder ==> folder_ids@.len() == labels@.len(),
    ensures
        ranges_view(ranges@) == spec_group_ranges(mode, labels_view(labels@), folder_ids@),
{
    let mut ranges: Vec<GroupRange> = Vec::new();
    if mode == GroupMode::Ungrouped {
        return ranges;
    }
    let folder_mode = mode == GroupMode::Folder;
    let ghost lv = labels_view(labels@);
    for index in 0..labels.len()
        invariant
            lv == labels_view(labels@),
            folder_mode == (mode == GroupMode::Folder),
            folder_mode ==> folder_ids@.len() == labels@.len(),
            ranges_view(ranges@) == spec_runs(lv, folder_ids@, folder_mode, index as int),
    {
        let folder_id: i64 = if folder_mode { folder_ids[index] } else { 0 };
        let n = ranges.len();
        let extend = n > 0 && ranges[n - 1].label == labels[index] && ranges[n - 1].folder_id == folder_id;
        let ghost prev = ranges@;
        if extend {
            let mut last = ranges.pop().unwrap();
            last.end = index + 1;
            ranges.push(last);
            proof {
                assert(ranges_view(ranges@) =~= ranges_view(prev).update(
                    n - 1,
                    GroupRangeView { end: index + 1, ..ranges_view(prev).last() },
                ));
            }
        } else {
            let range = GroupRange {
                start: index,
                end: index + 1,
                label: labels[index].clone(),
                folder_id,
            };
            ranges.push(range);
            proof {
                assert(ranges_view(ranges@) =~= ranges_view(prev).push(range@));
            }
        }
    }
    ranges
}

/// Consecutive ranges cover `[0, n)` without gaps, each holds at least one
/// photo, every photo of a range has the range's key, and two neighbouring
/// ranges never share a key.
pub open spec fn runs_partition(
    runs: Seq<GroupRangeView>,
    labels: Seq<Seq<char>>,
    folder_ids: Seq<i64>,
    folder_mode: bool,
    n: int,
) -> bool {
    &&& (n == 0) == (runs.len() == 0)
    &&& n > 0 ==> runs[0].start == 0 && runs.last().end == n
    &&& forall|k: int| 0 <= k < runs.len() ==> (#[trigger] runs[k]).start < runs[k].end
    &&& forall|k: int| 0 <= k < runs.len() - 1 ==> (#[trigger] runs[k]).end == runs[k + 1].start
    &&& forall|k: int, i: int|
        0 <= k < runs.len() && runs[k].start <= i < runs[k].end ==> (#[trigger] key_of(
            labels,
            folder_ids,
            folder_mode,
            i,
        )) == (runs[k].label, #[trigger] runs[k].folder_id)
    &&& forall|k: int|
        0 <= k < runs.len() - 1 ==> ((#[trigger] runs[k]).label, runs[k].folder_id) != (
            runs[k + 1].label,
            runs[k + 1].folder_id,
        )
}

/// The runs of a grouped stream partition it into maximal blocks of photos
/// sharing one key.
pub proof fn lemma_runs_partition(
    labels: Seq<Seq<char>>,
    folder_ids: Seq<i64>,
    folder_mode: bool,
    n: int,
)
    requires
        0 <= n <= labels.len(),
        folder_mode ==> folder_ids.len() == labels.len(),
    ensures
        runs_partition(spec_runs(labels, folder_ids, folder_mode, n), labels, folder_ids, folder_mode, n),
    decreases n,
{
    if n > 0 {
        lemma_runs_partition(labels, folder_ids, folder_mode, n - 1);
        let prev = spec_runs(labels, folder_ids, folder_mode, n - 1);
        let runs = spec_runs(labels, folder_ids, folder_mode, n);
        let key = key_of(labels, folder_ids, folder_mode, n - 1);
        if prev.len() > 0 && prev.last().label == key.0 && prev.last().folder_id == key.1 {
            assert forall|k: int, i: int|
                0 <= k < runs.len() && runs[k].start <= i < runs[k].end implies (#[trigger] key_of(
                labels,
                folder_ids,
                folder_mode,
                i,
            )) == (runs[k].label, #[trigger] runs[k].folder_id) by {
                if k < runs.len() - 1 || i < n - 1 {
                    assert(prev[k].start <= i < prev[k].end);
                }
            }
        } else {
            assert forall|k: int, i: int|
                0 <= k < runs.len() && runs[k].start <= i < runs[k].end implies (#[trigger] key_of(
                labels,
                folder_ids,
                folder_mode,
                i,
            )) == (runs[k].label, #[trigger] runs[k].folder_id) by {
                if k < runs.len() - 1 {
                    assert(prev[k].start <= i < prev[k].end);
                }
            }
        }
    }
}

/// Every photo of a grouped stream lies in exactly one of its ranges, which
/// are ordered, non-empty, maximal runs of one key.
pub proof fn lemma_group_ranges_partition_stream(
    mode: GroupMode,
    labels: Seq<Seq<char>>,
    folder_ids: Seq<i64>,
)
    requires
        mode != GroupMode::Ungrouped,
        mode == GroupMode::Folder ==> folder_ids.len() == labels.len(),
    ensures
        runs_partition(
            spec_group_ranges(mode, labels, folder_ids),
            labels,
            folder_ids,
            mode == GroupMode::Folder,
            labels.len() as int,
        ),
{
    lemma_runs_partition(labels, folder_ids, mode == GroupMode::Folder, labels.len() as int);
}

/// Whether a range holds stream position `index`.
pub open spec fn range_holds(range: GroupRangeView, index: int) -> bool {
    range.start <= index < range.end
}

/// Index of the range whose heading describes stream position `index`.
pub fn header_range_for_index(ranges: &[GroupRange], index: usize) -> (found: Option<usize>)
    ensures
        match found {
            Some(k) => {
                &&& k < ranges@.len()
                &&& (range_holds(ranges@[k as int]@, index as int) && forall|j: int|
                    0 <= j < k ==> !#[trigger] range_holds(ranges@[j]@, index as int)) || (
                k == ranges@.len() - 1 && forall|j: int|
                    0 <= j < ranges@.len() ==> !#[trigger] range_holds(ranges@[j]@, index as int))
            },
            None => ranges@.len() == 0,
        },
{
    let mut k: usize = 0;
    while k < ranges.len()
        invariant
            0 <= k <= ranges@.len(),
            forall|j: int| 0 <= j < k ==> !#[trigger] range_holds(ranges@[j]@, index as int),
        decreases ranges@.len() - k,
    {
        if index >= ranges[k].start && index < ranges[k].end {
            return Some(k);
        }
        k += 1;
    }
    if ranges.len() > 0 {
        Some(ranges.len() - 1)
    } else {
        None
    }
}

/// The decimal digit character for `d < 10`.
pub open spec fn digit_char(d: int) -> char {
    (d + 48) as char
}

/// Decimal representation of `n`, without leading zeros ("0" for zero).
pub open spec fn spec_decimal(n: nat) -> Seq<char>
    decreases n,
{
    if n < 10 {
        seq![digit_char(n as int)]
    } else {
        spec_decimal(n / 10).push(digit_char((n % 10) as int))
    }
}

/// The first `k` digits of `digits` with a comma before each digit that
/// starts a group of three counted from the right.
pub open spec fn spec_grouped_prefix(digits: Seq<char>, k: int) -> Seq<char>
    decreases k,
{
    if k <= 0 {
        Seq::empty()
    } else {
        let i = k - 1;
        let before = spec_grouped_prefix(digits, i);
        if i > 0 && (digits.len() - i) % 3 == 0 {
            before.push(',').push(digits[i])
        } else {
            before.push(digits[i])
        }
    }
}

/// `n` in decimal with thousands separated by commas.
pub open spec fn spec_format_count(n: nat) -> Seq<char> {
    spec_grouped_prefix(spec_decimal(n), spec_decimal(n).len() as int)
}

/// Decimal digits of `value`, most significant first.
pub fn decimal_digits(value: u64) -> (digits: Vec<char>)
    ensures
        digits@ == spec_decimal(value as nat),
    decreases value,
{
    let d = (value % 10) as u8;
    let c = (d + 48) as char;
    proof {
        assert(c == digit_char(d as int));
    }
    if value < 10 {
        let mut digits = Vec::new();
        digits.push(c);
        assert(digits@ =~= seq![digit_char(value as int)]);
        digits
    } else {
        let mut digits = decimal_digits(value / 10);
        digits.push(c);
        digits
    }
}

/// A photo count with thousands separators, e.g. `12,345`.
pub fn format_count(value: usize) -> (text: String)
    ensures
        text@ == spec_format_count(value as nat),
{
    let digits = decimal_digits(value as u64);
    let mut result = String::new();
    let len = digits.len();
    for index in 0..len
        invariant
            len == digits@.len(),
            result@ == spec_grouped_prefix(digits@, index as int),
    {
        if index > 0 && (len - index) % 3 == 0 {
            push_char(&mut result, ',');
        }
        push_char(&mut result, digits[index]);
    }
    result
}

/// The count shown beside a section's title: a bullet, two spaces, the
/// count with thousands separators, and `photo` or `photos`.
pub open spec fn spec_header_count_text(count: nat) -> Seq<char> {
    seq!['\u{2022}', ' ', ' '] + spec_format_count(count) + seq![' '] + if count == 1 {
        seq!['p', 'h', 'o', 't', 'o']
    } else {
        seq!['p', 'h', 'o', 't', 'o', 's']
    }
}

/// The count text of the sticky section header for a range of `count`
/// photos.
pub fn header_count_text(count: usize) -> (text: String)
    ensures
        text@ == spec_header_count_text(count as nat),
{
    let mut chars = vec!['\u{2022}', ' ', ' '];
    let number = format_count(count);
    crate::text::extend(&mut chars, &crate::text::chars_of(number.as_str()));
    chars.push(' ');
    if count == 1 {
        crate::text::extend(&mut chars, &vec!['p', 'h', 'o', 't', 'o']);
    } else {
        crate::text::extend(&mut chars, &vec!['p', 'h', 'o', 't', 'o', 's']);
    }
    assert(chars@ =~= spec_header_count_text(count as nat));
    crate::text::string_of(&chars)
}

} // verus!
