//! The default chart: one row per commit with a bar for its line total.
use vstd::prelude::*;
use crate::text::{
    digit_char, fill_count, repeat,
    byte_len, concat, decimal, decimal_len, pad_left, push_char, push_decimal, push_padded,
    push_str,
};
use crate::bars::{
    bar_spec, law_bar_grows_with_value, lemma_layered_visible, lemma_visible_plain, visible, visible_from, layered_bar_spec, layered_fits, render_bar, render_layered_bar, scale_fits};
use crate::snapshot::Snapshot;
use crate::diff_tree::lemma_byte_len_ge;

verus! {

/// The largest of `values`, zero when there are none.
pub open spec fn max_u64(values: Seq<u64>) -> u64
    decreases values.len(),
{
    if values.len() == 0 {
        0
    } else {
        let rest = max_u64(values.drop_last());
        if values.last() > rest {
            values.last()
        } else {
            rest
        }
    }
}

/// The largest of `values`, zero when there are none.
pub open spec fn max_nat(values: Seq<nat>) -> nat
    decreases values.len(),
{
    if values.len() == 0 {
        0
    } else {
        let rest = max_nat(values.drop_last());
        if values.last() > rest {
            values.last()
        } else {
            rest
        }
    }
}

/// The width in bytes that `str::len` reports for a label.
pub open spec fn label_bytes(label: Seq<char>) -> nat {
    (byte_len(label) as usize) as nat
}

/// The number of digits of the largest sequence number of `n` rows (at least one).
pub open spec fn sequence_width(n: nat) -> nat {
    decimal(if n == 0 {
        1
    } else {
        n
    }).len()
}

/// The line totals of a history.
pub open spec fn line_totals(history: Seq<Snapshot>) -> Seq<u64> {
    history.map_values(|s: Snapshot| s.lines)
}

/// The width of the label column: the longest label in bytes, or 15 when there
/// are no rows.
pub open spec fn line_label_width_spec(history: Seq<Snapshot>, date: bool, sequence_width: nat) -> nat {
    if history.len() == 0 {
        15
    } else {
        max_nat(history.map_values(|s: Snapshot| label_bytes(s.label_spec(date, sequence_width))))
    }
}

/// The bar of one row.
pub open spec fn line_bar(
    s: Snapshot,
    maximum: u64,
    width: usize,
    non_blank: bool,
    colors: bool,
) -> Seq<char> {
    if non_blank {
        layered_bar_spec(s.non_blank_lines, s.lines, maximum, width, colors)
    } else {
        bar_spec(s.lines, maximum, width)
    }
}

/// One row: the right-aligned label, two spaces, the bar, a space if the bar
/// is not empty, and the line total.
pub open spec fn line_row(
    s: Snapshot,
    maximum: u64,
    width: usize,
    label_width: nat,
    sequence_width: nat,
    date: bool,
    non_blank: bool,
    colors: bool,
) -> Seq<char> {
    let bar = line_bar(s, maximum, width, non_blank, colors);
    pad_left(s.label_spec(date, sequence_width), label_width) + seq![' ', ' '] + bar + (if bar.len()
        == 0 {
        Seq::empty()
    } else {
        seq![' ']
    }) + decimal(s.lines as nat) + seq!['\n']
}

/// The whole line chart: a header, then one row per snapshot in history order,
/// each bar scaled so that the largest total fills `width` cells.
pub open spec fn line_chart_spec(
    history: Seq<Snapshot>,
    width: usize,
    date: bool,
    non_blank: bool,
    colors: bool,
) -> Seq<char> {
    let maximum = max_u64(line_totals(history));
    let sw = sequence_width(history.len());
    let lw = line_label_width_spec(history, date, sw);
    "        0 LoC\n"@ + concat(
        history.map_values(
            |s: Snapshot| line_row(s, maximum, width, lw, sw, date, non_blank, colors),
        ),
    )
}

/// Whether the bars of every row can be computed without overflow.
pub open spec fn line_chart_fits(
    history: Seq<Snapshot>,
    width: usize,
    non_blank: bool,
    colors: bool,
) -> bool {
    let maximum = max_u64(line_totals(history));
    forall|i: int|
        0 <= i < history.len() ==> if non_blank {
            layered_fits(history[i].non_blank_lines, #[trigger] history[i].lines, maximum, width, colors)
        } else {
            scale_fits(history[i].lines, maximum, width)
        }
}

/// The largest line total.
fn max_lines(history: &[Snapshot]) -> (m: u64)
    ensures
        m == max_u64(line_totals(history@)),
        forall|i: int| 0 <= i < history@.len() ==> history@[i].lines <= m,
{
    let mut m: u64 = 0;
    let mut i: usize = 0;
    while i < history.len()
        invariant
            i <= history.len(),
            m == max_u64(line_totals(history@.take(i as int))),
            forall|j: int| 0 <= j < i ==> history@[j].lines <= m,
        decreases history.len() - i,
    {
        assert(line_totals(history@.take(i + 1)).drop_last() =~= line_totals(history@.take(i as int)));
        if history[i].lines > m {
            m = history[i].lines;
        }
        i += 1;
    }
    assert(history@.take(history.len() as int) =~= history@);
    m
}

/// The number of digits of the number of rows.
pub fn sequence_width_of(rows: usize) -> (w: usize)
    ensures
        w == sequence_width(rows as nat),
{
    let n: u64 = if rows == 0 {
        1
    } else {
        rows as u64
    };
    decimal_len(n)
}

/// The width of the label column of the line chart.
fn line_chart_label_width(history: &[Snapshot], date: bool, sequence_width: usize) -> (w: usize)
    ensures
        w == line_label_width_spec(history@, date, sequence_width as nat),
{
    if history.len() == 0 {
        return 15;
    }
    let ghost lens = history@.map_values(
        |s: Snapshot| label_bytes(s.label_spec(date, sequence_width as nat)),
    );
    let mut m: usize = 0;
    let mut i: usize = 0;
    while i < history.len()
        invariant
            i <= history.len(),
            lens == history@.map_values(
                |s: Snapshot| label_bytes(s.label_spec(date, sequence_width as nat)),
            ),
            m == max_nat(lens.take(i as int)),
        decreases history.len() - i,
    {
        let label = history[i].label(date, sequence_width);
        let len = label.as_str().len();
        assert(lens.take(i + 1).drop_last() =~= lens.take(i as int));
        if len > m {
            m = len;
        }
        i += 1;
    }
    assert(lens.take(history.len() as int) =~= lens);
    m
}

/// Appends one row of the line chart.
fn push_line_row(
    chart: &mut String,
    snapshot: &Snapshot,
    maximum: u64,
    width: usize,
    lw: usize,
    sw: usize,
    date: bool,
    non_blank: bool,
    colors: bool,
)
    requires
        if non_blank {
            layered_fits(snapshot.non_blank_lines, snapshot.lines, maximum, width, colors)
        } else {
            scale_fits(snapshot.lines, maximum, width)
        },
    ensures
        final(chart)@ == old(chart)@ + line_row(
            *snapshot,
            maximum,
            width,
            lw as nat,
            sw as nat,
            date,
            non_blank,
            colors,
        ),
{
    let label = snapshot.label(date, sw);
    let bar = if non_blank {
        render_layered_bar(snapshot.non_blank_lines, snapshot.lines, maximum, width, colors)
    } else {
        render_bar(snapshot.lines, maximum, width)
    };
    push_padded(chart, label.as_str(), lw);
    push_str(chart, "  ");
    push_str(chart, bar.as_str());
    if !bar.as_str().is_empty() {
        push_char(chart, ' ');
    }
    push_decimal(chart, snapshot.lines);
    push_char(chart, '\n');
    proof {
        reveal_strlit("  ");
    }
    assert(chart@ =~= old(chart)@ + line_row(
        *snapshot,
        maximum,
        width,
        lw as nat,
        sw as nat,
        date,
        non_blank,
        colors,
    ));
}

/// The chart of line totals along the history: a header row, then for each
/// snapshot its label, its bar and its total. With `non_blank` the bars show
/// the non-blank lines over the total (in colour when `colors` is set).
pub fn render_chart(
    history: &[Snapshot],
    width: usize,
    date: bool,
    non_blank: bool,
    colors: bool,
) -> (chart: String)
    requires
        line_chart_fits(history@, width, non_blank, colors),
    ensures
        chart@ == line_chart_spec(history@, width, date, non_blank, colors),
{
    let maximum = max_lines(history);
    let sw = sequence_width_of(history.len());
    let lw = line_chart_label_width(history, date, sw);
    let ghost rows = history@.map_values(
        |s: Snapshot| line_row(s, maximum, width, lw as nat, sw as nat, date, non_blank, colors),
    );
    let mut chart = String::new();
    push_str(&mut chart, "        0 LoC\n");
    let mut i: usize = 0;
    while i < history.len()
        invariant
            i <= history.len(),
            maximum == max_u64(line_totals(history@)),
            line_chart_fits(history@, width, non_blank, colors),
            rows == history@.map_values(
                |s: Snapshot|
                    line_row(s, maximum, width, lw as nat, sw as nat, date, non_blank, colors),
            ),
            chart@ == "        0 LoC\n"@ + concat(rows.take(i as int)),
        decreases history.len() - i,
    {
        let ghost before = chart@;
        assert(history@[i as int].lines == history[i as int].lines);
        push_line_row(&mut chart, &history[i], maximum, width, lw, sw, date, non_blank, colors);
        assert(rows.take(i + 1).drop_last() =~= rows.take(i as int));
        assert(chart@ =~= before + rows[i as int]);
        i += 1;
    }
    assert(rows.take(history.len() as int) =~= rows);
    chart
}

/// The columns that a line chart uses besides its bars: the label, the two
/// spaces and the space before the total, and the widest total.
pub open spec fn line_reserved_spec(history: Seq<Snapshot>, date: bool) -> nat {
    let sw = sequence_width(history.len());
    let value_width = if history.len() == 0 {
        1
    } else {
        max_nat(history.map_values(|s: Snapshot| decimal(s.lines as nat).len()))
    };
    line_label_width_spec(history, date, sw) + 3 + value_width
}

/// The columns the chart reserves besides its bars, or `None` when they do
/// not fit in `usize`.
pub fn checked_line_chart_reserved_width(history: &[Snapshot], date: bool) -> (w: Option<usize>)
    ensures
        w == (if line_reserved_spec(history@, date) <= usize::MAX {
            Some(line_reserved_spec(history@, date) as usize)
        } else {
            None
        }),
{
    let sw = sequence_width_of(history.len());
    let lw = line_chart_label_width(history, date, sw);
    let mut value_width: usize = 1;
    if history.len() > 0 {
        let ghost lens = history@.map_values(|s: Snapshot| decimal(s.lines as nat).len());
        let mut m: usize = 0;
        let mut i: usize = 0;
        while i < history.len()
            invariant
                i <= history.len(),
                lens == history@.map_values(|s: Snapshot| decimal(s.lines as nat).len()),
                m == max_nat(lens.take(i as int)),
            decreases history.len() - i,
        {
            let len = decimal_len(history[i].lines);
            assert(lens.take(i + 1).drop_last() =~= lens.take(i as int));
            if len > m {
                m = len;
            }
            i += 1;
        }
        assert(lens.take(history.len() as int) =~= lens);
        value_width = m;
    }
    match lw.checked_add(3) {
        Some(a) => a.checked_add(value_width),
        None => None,
    }
}

/// The number of terminal columns the line chart needs besides its bars.
pub fn line_chart_reserved_width(history: &[Snapshot], date: bool) -> (w: usize)
    requires
        line_reserved_spec(history@, date) <= usize::MAX,
    ensures
        w == line_reserved_spec(history@, date),
{
    match checked_line_chart_reserved_width(history, date) {
        Some(w) => w,
        None => {
            proof {
                assert(false);
            }
            0
        },
    }
}

/// The default chart has no colour: without the non-blank overlay, the chart
/// is the same whether or not colours are on.
pub proof fn law_default_chart_uncolored(history: Seq<Snapshot>, width: usize, date: bool)
    ensures
        line_chart_spec(history, width, date, false, true) == line_chart_spec(history, width, date, false, false),
{
    let maximum = max_u64(line_totals(history));
    let sw = sequence_width(history.len());
    let lw = line_label_width_spec(history, date, sw);
    assert(history.map_values(|s: Snapshot| line_row(s, maximum, width, lw, sw, date, false, true))
        =~= history.map_values(|s: Snapshot| line_row(s, maximum, width, lw, sw, date, false, false)));
}

proof fn lemma_max_u64_ge(values: Seq<u64>, i: int)
    requires
        0 <= i < values.len(),
    ensures
        values[i] <= max_u64(values),
    decreases values.len(),
{
    if i < values.len() - 1 {
        lemma_max_u64_ge(values.drop_last(), i);
    }
}

proof fn lemma_max_nat_ge(values: Seq<nat>, i: int)
    requires
        0 <= i < values.len(),
    ensures
        values[i] <= max_nat(values),
    decreases values.len(),
{
    if i < values.len() - 1 {
        lemma_max_nat_ge(values.drop_last(), i);
    }
}

/// Every row of the default chart fits in the columns the chart reserves
/// plus the bar width (and its newline), each label being a string whose
/// length fits in `usize`.
pub proof fn law_line_rows_fit_reserved_width(
    history: Seq<Snapshot>,
    width: usize,
    date: bool,
    colors: bool,
    k: int,
)
    requires
        0 <= k < history.len(),
        forall|i: int|
            0 <= i < history.len() ==> byte_len(
                (#[trigger] history[i]).label_spec(date, sequence_width(history.len())),
            ) <= usize::MAX,
    ensures
        line_row(
            history[k],
            max_u64(line_totals(history)),
            width,
            line_label_width_spec(history, date, sequence_width(history.len())),
            sequence_width(history.len()),
            date,
            false,
            colors,
        ).len() <= line_reserved_spec(history, date) + width + 1,
{
    let sw = sequence_width(history.len());
    let s = history[k];
    let maximum = max_u64(line_totals(history));
    let label = s.label_spec(date, sw);
    let labels = history.map_values(|t: Snapshot| label_bytes(t.label_spec(date, sw)));
    let digits = history.map_values(|t: Snapshot| decimal(t.lines as nat).len());
    lemma_max_u64_ge(line_totals(history), k);
    law_bar_grows_with_value(s.lines, s.lines, maximum, width);
    lemma_byte_len_ge(label);
    assert(labels[k] == label_bytes(label));
    lemma_max_nat_ge(labels, k);
    assert(digits[k] == decimal(s.lines as nat).len());
    lemma_max_nat_ge(digits, k);
    let lw = line_label_width_spec(history, date, sw);
    assert(pad_left(label, lw).len() == lw);
}

proof fn lemma_decimal_plain(n: nat)
    ensures
        forall|i: int| 0 <= i < decimal(n).len() ==> decimal(n)[i] != '\x1b',
    decreases n,
{
    if n >= 10 {
        lemma_decimal_plain(n / 10);
        assert(digit_char(n % 10) != '\x1b');
        let d = decimal(n / 10);
        assert forall|i: int| 0 <= i < decimal(n).len() implies decimal(n)[i] != '\x1b' by {
            if i < d.len() {
                assert(decimal(n)[i] == d[i]);
            }
        }
    } else {
        assert(digit_char(n) != '\x1b');
    }
}

/// What the terminal shows of a row: with the non-blank overlay it is the
/// row without it, when the label holds no escape character; and every row,
/// with or without the overlay, shows within the columns the chart reserves
/// plus the bar width (and its newline), each label being a string whose
/// length fits in `usize`.
#[verifier::spinoff_prover]
#[verifier::rlimit(60)]
pub proof fn law_line_rows_show_within_reserved_width(
    history: Seq<Snapshot>,
    width: usize,
    date: bool,
    non_blank: bool,
    colors: bool,
    k: int,
)
    requires
        0 <= k < history.len(),
        forall|i: int|
            0 <= i < history.len() ==> byte_len(
                (#[trigger] history[i]).label_spec(date, sequence_width(history.len())),
            ) <= usize::MAX,
        forall|i: int|
            0 <= i < history[k].label_spec(date, sequence_width(history.len())).len() ==> history[k].label_spec(
                date,
                sequence_width(history.len()),
            )[i] != '\x1b',
    ensures
        visible(
            line_row(
                history[k],
                max_u64(line_totals(history)),
                width,
                line_label_width_spec(history, date, sequence_width(history.len())),
                sequence_width(history.len()),
                date,
                non_blank,
                colors,
            ),
        ) == line_row(
            history[k],
            max_u64(line_totals(history)),
            width,
            line_label_width_spec(history, date, sequence_width(history.len())),
            sequence_width(history.len()),
            date,
            false,
            colors,
        ),
        visible(
            line_row(
                history[k],
                max_u64(line_totals(history)),
                width,
                line_label_width_spec(history, date, sequence_width(history.len())),
                sequence_width(history.len()),
                date,
                non_blank,
                colors,
            ),
        ).len() <= line_reserved_spec(history, date) + width + 1,
{
    let sw = sequence_width(history.len());
    let lw = line_label_width_spec(history, date, sw);
    let s = history[k];
    let maximum = max_u64(line_totals(history));
    let label = s.label_spec(date, sw);
    let bar = bar_spec(s.lines, maximum, width);
    let shown_bar = line_bar(s, maximum, width, non_blank, colors);
    let head = pad_left(label, lw) + seq![' ', ' '];
    let space = if bar.len() == 0 {
        Seq::<char>::empty()
    } else {
        seq![' ']
    };
    let tail = space + decimal(s.lines as nat) + seq!['\n'];
    lemma_decimal_plain(s.lines as nat);
    assert forall|i: int| 0 <= i < head.len() implies head[i] != '\x1b' by {
        let fill = repeat(' ', fill_count(label.len(), lw));
        if i >= fill.len() && i < fill.len() + label.len() {
            assert(head[i] == label[i - fill.len()]);
        }
    }
    assert forall|i: int| 0 <= i < tail.len() implies tail[i] != '\x1b' by {
        if space.len() <= i < space.len() + decimal(s.lines as nat).len() {
            assert(tail[i] == decimal(s.lines as nat)[i - space.len()]);
        }
    }
    lemma_visible_plain(tail, Seq::empty());
    assert(tail + Seq::<char>::empty() =~= tail);
    assert(visible_from(Seq::<char>::empty(), false) =~= Seq::<char>::empty());
    // The overlay is empty exactly when the plain bar is.
    if non_blank {
        lemma_layered_visible(s.non_blank_lines, s.lines, maximum, width, colors, tail);
        if colors && bar.len() > 0 {
            reveal_strlit("\x1b[0m");
            assert(shown_bar.len() > 0);
        }
    } else {
        crate::bars::lemma_bar_plain(s.lines, maximum, width);
        lemma_visible_plain(bar, tail);
    }
    lemma_visible_plain(head, shown_bar + tail);
    let row = line_row(s, maximum, width, lw, sw, date, non_blank, colors);
    assert(row =~= head + (shown_bar + tail));
    assert(line_row(s, maximum, width, lw, sw, date, false, colors) =~= head + (bar + tail));
    law_line_rows_fit_reserved_width(history, width, date, colors, k);
}

} // verus!
