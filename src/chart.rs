//! The proportions behind the bar and pie charts, in whole units.
use vstd::prelude::*;
use crate::group::{is_grouping, lemma_groups_partition_files, total_members, GroupEntry};
use crate::number::DisplayBase;
use crate::parser::ParsedFile;

verus! {

/// The sum of the first `n` counts.
pub open spec fn prefix_sum(counts: Seq<usize>, n: int) -> nat
    decreases n,
{
    if n <= 0 {
        0
    } else {
        prefix_sum(counts, n - 1) + counts[n - 1] as nat
    }
}

/// How a pie is drawn: a whole circle for a single group, else one slice per group.
/// A slice `(start, end)` runs from `start / total` to `end / total` of a full turn, where
/// `total` is the number of files.
pub enum PieShape {
    Circle,
    Slices(Vec<(usize, usize)>),
}

/// The pie for groups of `counts` files: slice `i` starts where slice `i - 1` ends (the first at
/// zero) and spans `counts[i]` units; a single group is a whole circle.
pub fn pie_layout(counts: &Vec<usize>) -> (r: PieShape)
    requires
        prefix_sum(counts@, counts.len() as int) <= usize::MAX,
    ensures
        counts.len() == 1 <==> r is Circle,
        r matches PieShape::Slices(v) ==> {
            &&& v.len() == counts.len()
            &&& forall|i: int|
                0 <= i < v.len() ==> #[trigger] v[i].0 == prefix_sum(counts@, i) && v[i].1
                    == prefix_sum(counts@, i + 1)
        },
{
    if counts.len() == 1 {
        return PieShape::Circle;
    }
    let mut v: Vec<(usize, usize)> = Vec::new();
    let mut start: usize = 0;
    let mut i: usize = 0;
    while i < counts.len()
        invariant
            i <= counts.len(),
            v.len() == i,
            start == prefix_sum(counts@, i as int),
            prefix_sum(counts@, counts.len() as int) <= usize::MAX,
            forall|k: int|
                0 <= k < i ==> #[trigger] v[k].0 == prefix_sum(counts@, k) && v[k].1 == prefix_sum(
                    counts@,
                    k + 1,
                ),
        decreases counts.len() - i,
    {
        proof {
            lemma_prefix_sum_monotone(counts@, i + 1, counts.len() as int);
        }
        let end = start + counts[i];
        v.push((start, end));
        start = end;
        i = i + 1;
    }
    PieShape::Slices(v)
}

proof fn lemma_prefix_sum_monotone(counts: Seq<usize>, a: int, b: int)
    requires
        0 <= a <= b <= counts.len(),
    ensures
        prefix_sum(counts, a) <= prefix_sum(counts, b),
    decreases b - a,
{
    if a < b {
        lemma_prefix_sum_monotone(counts, a, b - 1);
    }
}

/// The slices of a pie meet end to end: the first starts at zero, each starts where the one
/// before ends, and the last ends at the sum of the counts.
pub proof fn lemma_slices_meet(counts: Seq<usize>, v: Seq<(usize, usize)>)
    requires
        counts.len() >= 1,
        v.len() == counts.len(),
        forall|i: int|
            0 <= i < v.len() ==> #[trigger] v[i].0 == prefix_sum(counts, i) && v[i].1
                == prefix_sum(counts, i + 1),
    ensures
        v[0].0 == 0,
        forall|i: int| 0 <= i < v.len() - 1 ==> #[trigger] v[i].1 == v[i + 1].0,
        forall|i: int| 0 <= i < v.len() ==> #[trigger] v[i].1 - v[i].0 == counts[i],
        v.last().1 == prefix_sum(counts, counts.len() as int),
{
    assert(v[0].0 == prefix_sum(counts, 0));
    assert forall|i: int| 0 <= i < v.len() - 1 implies #[trigger] v[i].1 == v[i + 1].0 by {
        assert(v[i].0 == prefix_sum(counts, i));
        assert(v[i + 1].0 == prefix_sum(counts, i + 1));
    }
    assert forall|i: int| 0 <= i < v.len() implies #[trigger] v[i].1 - v[i].0 == counts[i] by {
        assert(v[i].0 == prefix_sum(counts, i));
    }
    assert(v[v.len() - 1].0 == prefix_sum(counts, v.len() - 1));
    assert(v[v.len() - 1].1 == prefix_sum(counts, counts.len() as int));
}

/// The largest of `counts`, and at least 1: the height that a full bar stands for.
pub fn max_count(counts: &Vec<usize>) -> (r: usize)
    ensures
        r >= 1,
        forall|i: int| 0 <= i < counts.len() ==> #[trigger] counts[i] <= r,
        r == 1 || exists|i: int| 0 <= i < counts.len() && #[trigger] counts[i] == r,
{
    let mut m: usize = 1;
    let mut i: usize = 0;
    while i < counts.len()
        invariant
            i <= counts.len(),
            m >= 1,
            forall|k: int| 0 <= k < i ==> #[trigger] counts[k] <= m,
            m == 1 || exists|k: int| 0 <= k < i && #[trigger] counts[k] == m,
        decreases counts.len() - i,
    {
        if counts[i] > m {
            m = counts[i];
        }
        i = i + 1;
    }
    m
}

/// The size of each group, in order.
pub fn group_counts(groups: &Vec<GroupEntry>) -> (r: Vec<usize>)
    ensures
        r.len() == groups.len(),
        forall|i: int| 0 <= i < r.len() ==> #[trigger] r[i] == groups[i].file_names@.len(),
{
    let mut r: Vec<usize> = Vec::new();
    let mut i: usize = 0;
    while i < groups.len()
        invariant
            i <= groups.len(),
            r.len() == i,
            forall|k: int| 0 <= k < i ==> #[trigger] r[k] == groups[k].file_names@.len(),
        decreases groups.len() - i,
    {
        r.push(groups[i].file_names.len());
        i = i + 1;
    }
    r
}

proof fn lemma_prefix_sum_is_total(counts: Seq<usize>, r: Seq<GroupEntry>, n: int)
    requires
        0 <= n <= r.len(),
        counts.len() == r.len(),
        forall|i: int| 0 <= i < r.len() ==> #[trigger] counts[i] == r[i].file_names@.len(),
    ensures
        prefix_sum(counts, n) == total_members(r.take(n)),
    decreases n,
{
    if n == 0 {
        assert(r.take(0) =~= Seq::<GroupEntry>::empty());
    } else {
        lemma_prefix_sum_is_total(counts, r, n - 1);
        assert(r.take(n).drop_last() =~= r.take(n - 1));
        assert(counts[n - 1] == r[n - 1].file_names@.len());
    }
}

/// The pie of a grouping fills exactly one turn: with the file count as the whole, the group
/// sizes add up to it.
pub proof fn lemma_pie_fills_turn(
    counts: Seq<usize>,
    r: Seq<GroupEntry>,
    files: Seq<ParsedFile>,
    addr: u64,
    base: DisplayBase,
)
    requires
        is_grouping(r, files, addr, base),
        counts.len() == r.len(),
        forall|i: int| 0 <= i < r.len() ==> #[trigger] counts[i] == r[i].file_names@.len(),
    ensures
        prefix_sum(counts, counts.len() as int) == files.len(),
{
    lemma_prefix_sum_is_total(counts, r, r.len() as int);
    assert(r.take(r.len() as int) =~= r);
    lemma_groups_partition_files(r, files, addr, base);
}

} // verus!
