//! The commit-frequency chart: one row per calendar interval from the first
//! to the last interval with commits, intervals without commits shown as zero.
use vstd::prelude::*;
use crate::bars::{bar_spec, render_bar, scale_fits};
use crate::calendar::{interval_overflows, next_interval, next_interval_overflows, next_interval_spec};
use crate::cli::CommitInterval;
use crate::line_chart::{label_bytes, max_nat, max_u64};
use crate::text::{
    concat, decimal, decimal_len, pad_left, push_char, push_decimal, push_padded, push_str,
    text_eq,
};

verus! {

/// The labels and counts of a list of `(label, count)` pairs.
pub open spec fn label_counts(counts: Seq<(String, u64)>) -> Seq<(Seq<char>, u64)> {
    counts.map_values(|p: (String, u64)| (p.0@, p.1))
}

/// The label `n` intervals after `first`, if every step is defined.
pub open spec fn walk(first: Seq<char>, interval: CommitInterval, n: nat) -> Option<Seq<char>>
    decreases n,
{
    if n == 0 {
        Some(first)
    } else {
        match walk(first, interval, (n - 1) as nat) {
            Some(v) => next_interval_spec(v, interval),
            None => None,
        }
    }
}

/// Stepping from `first` reaches `last` after exactly `n` steps, passing it
/// nowhere earlier, every step defined and free of overflow.
pub open spec fn walk_reaches(
    first: Seq<char>,
    last: Seq<char>,
    interval: CommitInterval,
    n: nat,
) -> bool {
    &&& walk(first, interval, n) == Some(last)
    &&& forall|k: nat|
        k < n ==> (#[trigger] walk(first, interval, k) matches Some(v) && v != last
            && !next_interval_overflows(v, interval))
}

/// The intervals from the first label of `counts` reach its last label.
pub open spec fn counts_walkable(counts: Seq<(Seq<char>, u64)>, interval: CommitInterval) -> bool {
    counts.len() == 0 || exists|n: nat| walk_reaches(counts[0].0, counts.last().0, interval, n)
}

/// The number of steps from the first to the last label.
pub open spec fn walk_length(counts: Seq<(Seq<char>, u64)>, interval: CommitInterval) -> nat {
    choose|n: nat| walk_reaches(counts[0].0, counts.last().0, interval, n)
}

/// How many entries of `counts` have been taken after `k` intervals: an entry
/// is taken when its label is the interval's.
pub open spec fn taken(counts: Seq<(Seq<char>, u64)>, interval: CommitInterval, k: nat) -> nat
    decreases k,
{
    if k == 0 {
        0
    } else {
        let i = taken(counts, interval, (k - 1) as nat);
        if i < counts.len() && walk(counts[0].0, interval, (k - 1) as nat) == Some(counts[i as int].0) {
            i + 1
        } else {
            i
        }
    }
}

/// The count shown for interval `k`: that of the next entry of `counts` when
/// its label is the interval's, zero otherwise.
pub open spec fn count_at(counts: Seq<(Seq<char>, u64)>, interval: CommitInterval, k: nat) -> u64 {
    let i = taken(counts, interval, k);
    if i < counts.len() && walk(counts[0].0, interval, k) == Some(counts[i as int].0) {
        counts[i as int].1
    } else {
        0
    }
}

/// Every interval from the first label to the last with its count.
#[verifier::opaque]
pub open spec fn filled_spec(counts: Seq<(Seq<char>, u64)>, interval: CommitInterval) -> Seq<
    (Seq<char>, u64),
> {
    if counts.len() == 0 {
        Seq::empty()
    } else {
        Seq::new(
            walk_length(counts, interval) + 1,
            |k: int|
                (walk(counts[0].0, interval, k as nat)->0, count_at(counts, interval, k as nat)),
        )
    }
}

proof fn lemma_walk_length(counts: Seq<(Seq<char>, u64)>, interval: CommitInterval)
    requires
        counts.len() > 0,
        counts_walkable(counts, interval),
    ensures
        walk_reaches(counts[0].0, counts.last().0, interval, walk_length(counts, interval)),
{
}

proof fn lemma_filled_spec(counts: Seq<(Seq<char>, u64)>, interval: CommitInterval)
    requires
        counts.len() > 0,
    ensures
        filled_spec(counts, interval).len() == walk_length(counts, interval) + 1,
        forall|k: int|
            0 <= k <= walk_length(counts, interval) ==> #[trigger] filled_spec(counts, interval)[k]
                == (walk(counts[0].0, interval, k as nat)->0, count_at(counts, interval, k as nat)),
{
    reveal(filled_spec);
}

proof fn lemma_filled_empty(counts: Seq<(Seq<char>, u64)>, interval: CommitInterval)
    requires
        counts.len() == 0,
    ensures
        filled_spec(counts, interval) == Seq::<(Seq<char>, u64)>::empty(),
{
    reveal(filled_spec);
}

/// One step of a walk that reaches `last` in `n` steps.
proof fn lemma_walk_step(
    first: Seq<char>,
    last: Seq<char>,
    interval: CommitInterval,
    n: nat,
    k: nat,
)
    requires
        walk_reaches(first, last, interval, n),
        k < n,
    ensures
        walk(first, interval, k) matches Some(v) && v != last && !next_interval_overflows(
            v,
            interval,
        ),
        walk(first, interval, k + 1) is Some,
{
    if k + 1 < n {
        assert(walk(first, interval, (k + 1) as nat) matches Some(_));
    }
}

proof fn lemma_taken_bound(counts: Seq<(Seq<char>, u64)>, interval: CommitInterval, k: nat)
    ensures
        taken(counts, interval, k) <= counts.len(),
    decreases k,
{
    if k > 0 {
        lemma_taken_bound(counts, interval, (k - 1) as nat);
    }
}

/// Whether stepping one interval at a time from the first label of `counts`
/// reaches its last label with every step defined and free of overflow
/// (trying at most `u64::MAX` steps). When it does, the chart can be drawn.
pub fn intervals_reach_last(counts: &[(String, u64)], interval: CommitInterval) -> (r: bool)
    ensures
        r ==> counts_walkable(label_counts(counts@), interval),
        counts_walkable(label_counts(counts@), interval) && (counts.len() == 0 || walk_length(
            label_counts(counts@),
            interval,
        ) < u64::MAX) ==> r,
{
    if counts.len() == 0 {
        return true;
    }
    let ghost cs = label_counts(counts@);
    let last = &counts[counts.len() - 1].0;
    let mut current: String = counts[0].0.clone();
    let mut steps: u64 = 0;
    assert(cs[0].0 == counts@[0].0@);
    assert(cs.last().0 == last@);
    let ghost reach = counts_walkable(cs, interval) && walk_length(cs, interval) < u64::MAX;
    let ghost n = walk_length(cs, interval);
    proof {
        if reach {
            lemma_walk_length(cs, interval);
        }
    }
    while steps < u64::MAX
        invariant
            cs == label_counts(counts@),
            counts.len() > 0,
            cs.last().0 == last@,
            reach == (counts_walkable(cs, interval) && walk_length(cs, interval) < u64::MAX),
            n == walk_length(cs, interval),
            reach ==> steps <= n && walk_reaches(cs[0].0, cs.last().0, interval, n),
            walk(cs[0].0, interval, steps as nat) == Some(current@),
            forall|k: nat|
                k < steps ==> (#[trigger] walk(cs[0].0, interval, k) matches Some(v) && v != cs.last().0
                    && !next_interval_overflows(v, interval)),
        decreases u64::MAX - steps,
    {
        if text_eq(current.as_str(), last.as_str()) {
            assert(walk_reaches(cs[0].0, cs.last().0, interval, steps as nat));
            return true;
        }
        proof {
            if reach {
                assert(steps != n);
                lemma_walk_step(cs[0].0, cs.last().0, interval, n, steps as nat);
            }
        }
        if interval_overflows(current.as_str(), interval) {
            return false;
        }
        let next = match next_interval(current.as_str(), interval) {
            Some(next) => next,
            None => return false,
        };
        assert forall|k: nat| k < steps + 1 implies (#[trigger] walk(cs[0].0, interval, k) matches Some(v)
            && v != cs.last().0 && !next_interval_overflows(v, interval)) by {
            if k == steps {
                assert(walk(cs[0].0, interval, k) == Some(current@));
            }
        }
        current = next;
        steps = steps + 1;
    }
    false
}

/// Every interval from the first to the last label of `counts`, each with its
/// count, zero for the intervals in between that have none.
pub fn fill_empty_intervals(counts: &[(String, u64)], interval: CommitInterval) -> (filled: Vec<
    (String, u64),
>)
    requires
        counts_walkable(label_counts(counts@), interval),
    ensures
        label_counts(filled@) == filled_spec(label_counts(counts@), interval),
{
    let ghost cs = label_counts(counts@);
    let mut result: Vec<(String, u64)> = Vec::new();
    if counts.len() == 0 {
        proof {
            lemma_filled_empty(cs, interval);
        }
        assert(label_counts(result@) =~= filled_spec(cs, interval));
        return result;
    }
    let ghost n = walk_length(cs, interval);
    let ghost first_label = cs[0].0;
    let ghost last_label = cs.last().0;
    proof {
        lemma_walk_length(cs, interval);
        lemma_filled_spec(cs, interval);
    }
    let ghost rows = filled_spec(cs, interval);
    let first = &counts[0].0;
    let last = &counts[counts.len() - 1].0;
    let mut current = first.clone();
    let mut index: usize = 0;
    let ghost mut k: nat = 0;
    loop
        invariant_except_break
            k <= n,
            walk(first_label, interval, k) == Some(current@),
            index == taken(cs, interval, k),
            label_counts(result@) == rows.take(k as int),
        invariant
            cs == label_counts(counts@),
            counts.len() > 0,
            first_label == cs[0].0,
            last_label == cs.last().0,
            last@ == last_label,
            n == walk_length(cs, interval),
            walk_reaches(first_label, last_label, interval, n),
            rows.len() == n + 1,
            forall|j: int|
                0 <= j <= n ==> #[trigger] rows[j] == (
                    walk(first_label, interval, j as nat)->0,
                    count_at(cs, interval, j as nat),
                ),
        ensures
            label_counts(result@) == rows,
        decreases n - k,
    {
        proof {
            lemma_taken_bound(cs, interval, k);
        }
        let matched = index < counts.len() && text_eq(counts[index].0.as_str(), current.as_str());
        let count = if matched {
            let value = counts[index].1;
            index += 1;
            value
        } else {
            0
        };
        assert(count == count_at(cs, interval, k));
        assert(index == taken(cs, interval, k + 1));
        let ghost before = result@;
        result.push((current.clone(), count));
        assert(rows[k as int] == (current@, count));
        assert(label_counts(result@) =~= label_counts(before).push((current@, count)));
        assert(rows.take(k + 1int) =~= rows.take(k as int).push(rows[k as int]));
        if text_eq(current.as_str(), last.as_str()) {
            proof {
                if k < n {
                    lemma_walk_step(first_label, last_label, interval, n, k);
                }
                assert(rows.take(k + 1int) =~= rows);
            }
            break ;
        }
        proof {
            if k == n {
                assert(walk(first_label, interval, n) == Some(last_label));
            }
            lemma_walk_step(first_label, last_label, interval, n, k);
        }
        let next = next_interval(current.as_str(), interval);
        current = match next {
            Some(label) => label,
            None => {
                proof {
                    assert(walk(first_label, interval, (k + 1) as nat) is Some);
                }
                String::new()
            },
        };
        proof {
            k = k + 1;
        }
    }
    result
}

/// The counts of a list of pairs.
pub open spec fn count_values(counts: Seq<(Seq<char>, u64)>) -> Seq<u64> {
    counts.map_values(|p: (Seq<char>, u64)| p.1)
}

/// The width of the label column: the longest label in bytes, zero when there
/// are none.
pub open spec fn commit_label_width_spec(counts: Seq<(Seq<char>, u64)>) -> nat {
    max_nat(counts.map_values(|p: (Seq<char>, u64)| label_bytes(p.0)))
}

/// One row: the right-aligned label, two spaces, the bar, a space if the bar
/// is not empty, and the count.
pub open spec fn commit_row(
    label: Seq<char>,
    count: u64,
    maximum: u64,
    width: usize,
    label_width: nat,
) -> Seq<char> {
    let bar = bar_spec(count, maximum, width);
    pad_left(label, label_width) + seq![' ', ' '] + bar + (if bar.len() == 0 {
        Seq::empty()
    } else {
        seq![' ']
    }) + decimal(count as nat) + seq!['\n']
}

/// The commit-frequency chart: a header, then one row per interval from the
/// first label to the last, each bar scaled so that the largest count fills
/// `width` cells.
pub open spec fn commit_chart_spec(
    counts: Seq<(Seq<char>, u64)>,
    interval: CommitInterval,
    width: usize,
) -> Seq<char> {
    let filled = filled_spec(counts, interval);
    let maximum = max_u64(count_values(filled));
    let lw = commit_label_width_spec(filled);
    "    0 commits\n"@ + concat(
        filled.map_values(|p: (Seq<char>, u64)| commit_row(p.0, p.1, maximum, width, lw)),
    )
}

/// Whether every bar of the chart can be computed without overflow.
pub open spec fn commit_chart_fits(
    counts: Seq<(Seq<char>, u64)>,
    interval: CommitInterval,
    width: usize,
) -> bool {
    let filled = filled_spec(counts, interval);
    let maximum = max_u64(count_values(filled));
    forall|i: int| 0 <= i < filled.len() ==> scale_fits(#[trigger] filled[i].1, maximum, width)
}

fn max_count(counts: &Vec<(String, u64)>) -> (m: u64)
    ensures
        m == max_u64(count_values(label_counts(counts@))),
{
    let ghost cs = label_counts(counts@);
    let mut m: u64 = 0;
    let mut i: usize = 0;
    while i < counts.len()
        invariant
            i <= counts.len(),
            cs == label_counts(counts@),
            m == max_u64(count_values(cs.take(i as int))),
        decreases counts.len() - i,
    {
        assert(count_values(cs.take(i + 1)).drop_last() =~= count_values(cs.take(i as int)));
        if counts[i].1 > m {
            m = counts[i].1;
        }
        i += 1;
    }
    assert(cs.take(counts.len() as int) =~= cs);
    m
}

/// The width of the label column of the commit chart.
fn commit_chart_label_width(counts: &[(String, u64)]) -> (w: usize)
    ensures
        w == commit_label_width_spec(label_counts(counts@)),
{
    let ghost cs = label_counts(counts@);
    let ghost lens = cs.map_values(|p: (Seq<char>, u64)| label_bytes(p.0));
    let mut m: usize = 0;
    let mut i: usize = 0;
    while i < counts.len()
        invariant
            i <= counts.len(),
            cs == label_counts(counts@),
            lens == cs.map_values(|p: (Seq<char>, u64)| label_bytes(p.0)),
            m == max_nat(lens.take(i as int)),
        decreases counts.len() - i,
    {
        let len = counts[i].0.as_str().len();
        assert(lens.take(i + 1).drop_last() =~= lens.take(i as int));
        if len > m {
            m = len;
        }
        i += 1;
    }
    assert(lens.take(counts.len() as int) =~= lens);
    m
}

fn push_commit_row(chart: &mut String, label: &String, count: u64, maximum: u64, width: usize, lw: usize)
    requires
        scale_fits(count, maximum, width),
    ensures
        final(chart)@ == old(chart)@ + commit_row(label@, count, maximum, width, lw as nat),
{
    let bar = render_bar(count, maximum, width);
    push_padded(chart, label.as_str(), lw);
    push_str(chart, "  ");
    push_str(chart, bar.as_str());
    if !bar.as_str().is_empty() {
        push_char(chart, ' ');
    }
    push_decimal(chart, count);
    push_char(chart, '\n');
    proof {
        reveal_strlit("  ");
    }
    assert(chart@ =~= old(chart)@ + commit_row(label@, count, maximum, width, lw as nat));
}

/// The commit-frequency chart of `counts` (labels of `interval`, oldest first):
/// every interval from the first to the last, with zero for those in between
/// without commits.
pub fn render_commit_chart(counts: &[(String, u64)], interval: CommitInterval, width: usize) -> (chart:
    String)
    requires
        counts_walkable(label_counts(counts@), interval),
        commit_chart_fits(label_counts(counts@), interval, width),
    ensures
        chart@ == commit_chart_spec(label_counts(counts@), interval, width),
{
    let filled = fill_empty_intervals(counts, interval);
    let ghost fs = label_counts(filled@);
    let maximum = max_count(&filled);
    let lw = commit_chart_label_width(filled.as_slice());
    let ghost rows = fs.map_values(
        |p: (Seq<char>, u64)| commit_row(p.0, p.1, maximum, width, lw as nat),
    );
    assert(forall|j: int| 0 <= j < fs.len() ==> scale_fits(#[trigger] fs[j].1, maximum, width));
    let mut chart = String::new();
    push_str(&mut chart, "    0 commits\n");
    let mut i: usize = 0;
    while i < filled.len()
        invariant
            i <= filled.len(),
            fs == label_counts(filled@),
            forall|j: int| 0 <= j < fs.len() ==> scale_fits(#[trigger] fs[j].1, maximum, width),
            rows == fs.map_values(
                |p: (Seq<char>, u64)| commit_row(p.0, p.1, maximum, width, lw as nat),
            ),
            chart@ == "    0 commits\n"@ + concat(rows.take(i as int)),
        decreases filled.len() - i,
    {
        let ghost before = chart@;
        assert(fs[i as int].1 == filled[i as int].1);
        push_commit_row(&mut chart, &filled[i].0, filled[i].1, maximum, width, lw);
        assert(rows.take(i + 1).drop_last() =~= rows.take(i as int));
        assert(chart@ =~= before + rows[i as int]);
        i += 1;
    }
    assert(rows.take(filled.len() as int) =~= rows);
    chart
}

/// The columns the commit chart uses besides its bars: the label, the two
/// spaces and the space before the count, and the widest count.
pub open spec fn commit_reserved_spec(counts: Seq<(Seq<char>, u64)>) -> nat {
    let value_width = if counts.len() == 0 {
        1
    } else {
        max_nat(counts.map_values(|p: (Seq<char>, u64)| decimal(p.1 as nat).len()))
    };
    commit_label_width_spec(counts) + 3 + value_width
}

/// The columns the chart reserves besides its bars, or `None` when they do
/// not fit in `usize`.
pub fn checked_commit_chart_reserved_width(counts: &[(String, u64)]) -> (w: Option<usize>)
    ensures
        w == (if commit_reserved_spec(label_counts(counts@)) <= usize::MAX {
            Some(commit_reserved_spec(label_counts(counts@)) as usize)
        } else {
            None
        }),
{
    let ghost cs = label_counts(counts@);
    let lw = commit_chart_label_width(counts);
    let mut value_width: usize = 1;
    if counts.len() > 0 {
        let ghost lens = cs.map_values(|p: (Seq<char>, u64)| decimal(p.1 as nat).len());
        let mut m: usize = 0;
        let mut i: usize = 0;
        while i < counts.len()
            invariant
                i <= counts.len(),
                cs == label_counts(counts@),
                lens == cs.map_values(|p: (Seq<char>, u64)| decimal(p.1 as nat).len()),
                m == max_nat(lens.take(i as int)),
            decreases counts.len() - i,
        {
            let len = decimal_len(counts[i].1);
            assert(lens.take(i + 1).drop_last() =~= lens.take(i as int));
            if len > m {
                m = len;
            }
            i += 1;
        }
        assert(lens.take(counts.len() as int) =~= lens);
        value_width = m;
    }
    match lw.checked_add(3) {
        Some(a) => a.checked_add(value_width),
        None => None,
    }
}

/// The number of terminal columns the commit chart needs besides its bars.
pub fn commit_chart_reserved_width(counts: &[(String, u64)]) -> (w: usize)
    requires
        commit_reserved_spec(label_counts(counts@)) <= usize::MAX,
    ensures
        w == commit_reserved_spec(label_counts(counts@)),
{
    match checked_commit_chart_reserved_width(counts) {
        Some(w) => w,
        None => {
            proof {
                assert(false);
            }
            0
        },
    }
}

/// The filled intervals run from the first label to the last one interval at
/// a time: the first is the first entry of `counts` with its count, the last
/// has the last label, each next label is the interval after the one before,
/// and every interval shows either zero or the count of an entry of `counts`
/// with its label. Without entries there are no intervals.
pub proof fn law_filled_intervals_step(counts: Seq<(Seq<char>, u64)>, interval: CommitInterval)
    requires
        counts_walkable(counts, interval),
    ensures
        counts.len() == 0 ==> filled_spec(counts, interval).len() == 0,
        counts.len() > 0 ==> {
            let f = filled_spec(counts, interval);
            &&& f.len() >= 1
            &&& f[0] == counts[0]
            &&& f.last().0 == counts.last().0
            &&& forall|k: int|
                0 <= k < f.len() - 1 ==> next_interval_spec(#[trigger] f[k].0, interval) == Some(f[k + 1].0)
            &&& forall|k: int|
                0 <= k < f.len() ==> (#[trigger] f[k]).1 == 0 || exists|j: int| 0 <= j < counts.len() && counts[j] == f[k]
        },
{
    if counts.len() == 0 {
        lemma_filled_empty(counts, interval);
    } else {
        let n = walk_length(counts, interval);
        lemma_walk_length(counts, interval);
        lemma_filled_spec(counts, interval);
        let f = filled_spec(counts, interval);
        let first = counts[0].0;
        let last = counts.last().0;
        assert(f[0] == (first, count_at(counts, interval, 0)));
        assert(f[n as int] == f.last());
        assert forall|k: int| 0 <= k < f.len() - 1 implies next_interval_spec(#[trigger] f[k].0, interval) == Some(
            f[k + 1].0,
        ) by {
            lemma_walk_step(first, last, interval, n, k as nat);
            assert(f[k + 1] == (walk(first, interval, (k + 1) as nat)->0, count_at(counts, interval, (k + 1) as nat)));
        }
        assert forall|k: int| 0 <= k < f.len() implies (#[trigger] f[k]).1 == 0 || exists|j: int|
            0 <= j < counts.len() && counts[j] == f[k] by {
            let i = taken(counts, interval, k as nat);
            if i < counts.len() && walk(first, interval, k as nat) == Some(counts[i as int].0) {
                assert(counts[i as int] == f[k]);
            }
        }
    }
}

} // verus!
