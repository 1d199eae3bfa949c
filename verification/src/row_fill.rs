//! Each row of the language chart is normalized: however many lines the
//! snapshot has, the cells of its languages add up to the whole bar.
use vstd::prelude::*;
use vstd::set_lib::{lemma_int_range, lemma_map_size, lemma_subset_equality, set_int_range};
use crate::snapshot::LanguageSnapshot;
use crate::language::{language_at, language_index, lemma_language_at, lemma_language_index, Language, LANGUAGE_COUNT};
use crate::language_chart::{
    in_history, is_legend, lemma_sorted_distinct,
    allocated, base_cells, language_widths_spec, lemma_allocated_ge, lemma_base_le_width, lines_of,
    ordinal_total, rank, remainder, rounds_before, spare_cells, total_lines,
};

verus! {

/// The sum of a row's cells.
pub open spec fn cells_sum(cells: Seq<usize>) -> nat
    decreases cells.len(),
{
    if cells.len() == 0 {
        0
    } else {
        cells_sum(cells.drop_last()) + cells.last() as nat
    }
}

/// The lines of the first `n` languages of `langs`.
pub open spec fn lines_prefix(m: Map<Language, u64>, langs: Seq<Language>, n: nat) -> nat
    decreases n,
{
    if n == 0 {
        0
    } else {
        lines_prefix(m, langs, (n - 1) as nat) + lines_of(m, langs[n - 1])
    }
}

/// The lines of the languages of `s` with ordinals below `n`.
pub open spec fn ordinal_total_in(m: Map<Language, u64>, s: Set<Language>, n: nat) -> nat
    decreases n,
{
    if n == 0 {
        0
    } else {
        ordinal_total_in(m, s, (n - 1) as nat) + if s.contains(language_at((n - 1) as nat)) {
            lines_of(m, language_at((n - 1) as nat))
        } else {
            0
        }
    }
}

/// The first `n` languages of `langs`, as a set.
pub open spec fn first_langs(langs: Seq<Language>, n: nat) -> Set<Language> {
    Set::new(|l: Language| exists|i: int| 0 <= i < n && langs[i] == l)
}

proof fn lemma_total_in_insert(m: Map<Language, u64>, s: Set<Language>, l: Language, n: nat)
    requires
        !s.contains(l),
        n <= LANGUAGE_COUNT,
    ensures
        ordinal_total_in(m, s.insert(l), n) == ordinal_total_in(m, s, n) + if language_index(l) < n {
            lines_of(m, l)
        } else {
            0
        },
    decreases n,
{
    lemma_language_index(l);
    if n > 0 {
        lemma_total_in_insert(m, s, l, (n - 1) as nat);
        lemma_language_at((n - 1) as nat);
        if language_at((n - 1) as nat) == l {
            assert(language_index(l) == n - 1);
        } else {
            assert(language_index(l) != n - 1);
        }
    }
}

proof fn lemma_prefix_is_total_in(m: Map<Language, u64>, langs: Seq<Language>, n: nat)
    requires
        n <= langs.len(),
        langs.no_duplicates(),
    ensures
        lines_prefix(m, langs, n) == ordinal_total_in(m, first_langs(langs, n), LANGUAGE_COUNT as nat),
    decreases n,
{
    if n == 0 {
        assert(first_langs(langs, 0) =~= Set::<Language>::empty());
        lemma_total_in_empty(m, LANGUAGE_COUNT as nat);
    } else {
        let k = (n - 1) as nat;
        lemma_prefix_is_total_in(m, langs, k);
        let l = langs[n - 1];
        assert(!first_langs(langs, k).contains(l)) by {
            if first_langs(langs, k).contains(l) {
                let i = choose|i: int| 0 <= i < k && langs[i] == l;
                assert(langs[i] == langs[n - 1]);
            }
        }
        assert(first_langs(langs, n) =~= first_langs(langs, k).insert(l)) by {
            assert forall|x: Language| first_langs(langs, n).contains(x) implies first_langs(langs, k).insert(
                l,
            ).contains(x) by {
                let i = choose|i: int| 0 <= i < n && langs[i] == x;
                if i < k {
                    assert(first_langs(langs, k).contains(x));
                }
            }
            assert forall|x: Language| first_langs(langs, k).insert(l).contains(x) implies first_langs(
                langs,
                n,
            ).contains(x) by {
                if x == l {
                    assert(0 <= n - 1 < n && langs[n - 1] == x);
                } else {
                    let i = choose|i: int| 0 <= i < k && langs[i] == x;
                    assert(0 <= i < n && langs[i] == x);
                }
            }
        }
        lemma_total_in_insert(m, first_langs(langs, k), l, LANGUAGE_COUNT as nat);
        lemma_language_index(l);
    }
}

proof fn lemma_total_in_empty(m: Map<Language, u64>, n: nat)
    ensures
        ordinal_total_in(m, Set::empty(), n) == 0,
    decreases n,
{
    if n > 0 {
        lemma_total_in_empty(m, (n - 1) as nat);
    }
}

proof fn lemma_total_in_covers(m: Map<Language, u64>, s: Set<Language>, n: nat)
    requires
        forall|l: Language| lines_of(m, l) > 0 ==> s.contains(l),
    ensures
        ordinal_total_in(m, s, n) == ordinal_total(m, n),
    decreases n,
{
    if n > 0 {
        lemma_total_in_covers(m, s, (n - 1) as nat);
    }
}

/// The lines of the languages of `langs`, which holds each language with
/// lines once, are all the lines of the snapshot.
proof fn lemma_legend_holds_all_lines(m: Map<Language, u64>, langs: Seq<Language>)
    requires
        langs.no_duplicates(),
        forall|l: Language| lines_of(m, l) > 0 ==> langs.contains(l),
    ensures
        lines_prefix(m, langs, langs.len()) == total_lines(m),
{
    lemma_prefix_is_total_in(m, langs, langs.len());
    let s = first_langs(langs, langs.len());
    assert forall|l: Language| lines_of(m, l) > 0 implies s.contains(l) by {
        assert(langs.contains(l));
        let i = choose|i: int| 0 <= i < langs.len() && langs[i] == l;
    }
    lemma_total_in_covers(m, s, LANGUAGE_COUNT as nat);
}

/// What rounding down left over of the first `n` languages' shares.
pub open spec fn rem_sum(m: Map<Language, u64>, langs: Seq<Language>, width: usize, n: nat) -> nat
    decreases n,
{
    if n == 0 {
        0
    } else {
        rem_sum(m, langs, width, (n - 1) as nat) + remainder(m, langs, width, n - 1)
    }
}

/// Rounding down loses less than one cell per language: the whole cells and
/// the remainders of the first `n` languages make up their exact shares.
proof fn lemma_shares(m: Map<Language, u64>, langs: Seq<Language>, width: usize, n: nat)
    requires
        n <= langs.len(),
        total_lines(m) > 0,
    ensures
        total_lines(m) * allocated(m, langs, width, n) + rem_sum(m, langs, width, n) == (width as nat)
            * lines_prefix(m, langs, n),
        rem_sum(m, langs, width, n) + n <= n * total_lines(m),
    decreases n,
{
    if n > 0 {
        let k = (n - 1) as nat;
        lemma_shares(m, langs, width, k);
        lemma_base_le_width(m, langs, width, k as int);
        let c = lines_of(m, langs[k as int]);
        let t = total_lines(m);
        let w = width as nat;
        let x = c * w;
        vstd::arithmetic::div_mod::lemma_fundamental_div_mod(x as int, t as int);
        vstd::arithmetic::div_mod::lemma_mod_pos_bound(x as int, t as int);
        let b = base_cells(m, langs, width, k as int);
        let r = remainder(m, langs, width, k as int);
        assert(b == x / t);
        assert(r == x % t);
        let a0 = allocated(m, langs, width, k);
        let l0 = lines_prefix(m, langs, k);
        vstd::arithmetic::mul::lemma_mul_is_distributive_add(t as int, a0 as int, b as int);
        vstd::arithmetic::mul::lemma_mul_is_distributive_add(w as int, l0 as int, c as int);
        vstd::arithmetic::mul::lemma_mul_is_distributive_add_other_way(t as int, k as int, 1);
        assert(x == w * c) by {
            vstd::arithmetic::mul::lemma_mul_is_commutative(c as int, w as int);
        }
        assert(allocated(m, langs, width, n) == a0 + b);
        assert(lines_prefix(m, langs, n) == l0 + c);
        assert(rem_sum(m, langs, width, n) == rem_sum(m, langs, width, k) + r);
        assert(t * (a0 + b) == t * a0 + t * b);
        assert(w * (l0 + c) == w * l0 + w * c);
        assert(x == t * b + r);
    } else {
        let t = total_lines(m);
        let w = width as nat;
        assert(t * 0 == 0 && w * 0 == 0) by (nonlinear_arith);
    }
}

/// The cells left after rounding down are fewer than the languages.
proof fn lemma_spare_bound(m: Map<Language, u64>, langs: Seq<Language>, width: usize)
    requires
        total_lines(m) > 0,
        langs.no_duplicates(),
        forall|l: Language| lines_of(m, l) > 0 ==> langs.contains(l),
    ensures
        allocated(m, langs, width, langs.len()) <= width,
        spare_cells(m, langs, width) == width - allocated(m, langs, width, langs.len()),
        spare_cells(m, langs, width) <= langs.len(),
{
    let n = langs.len();
    lemma_shares(m, langs, width, n);
    lemma_legend_holds_all_lines(m, langs);
    let t = total_lines(m);
    let a = allocated(m, langs, width, n);
    let r = rem_sum(m, langs, width, n);
    let w = width as nat;
    assert(a <= w && w - a <= n) by (nonlinear_arith)
        requires
            t * a + r == w * t,
            r + n <= n * t,
            t > 0,
    {
        if a > w {
            assert(t * a >= t * (w + 1));
            assert(t * (w + 1) == t * w + t);
        }
        if w - a > n {
            assert(t * (w - a) == t * w - t * a);
            assert(t * (w - a) >= t * (n + 1));
        }
    }
}

// ------------------------------------------------------------------------
// The spare cells go to exactly as many languages as there are spare cells
// ------------------------------------------------------------------------

proof fn lemma_rank_bound(m: Map<Language, u64>, langs: Seq<Language>, width: usize, k: int, u: nat)
    ensures
        rank(m, langs, width, k, u) <= u,
        0 <= k < u ==> rank(m, langs, width, k, u) < u,
    decreases u,
{
    if u > 0 {
        lemma_rank_bound(m, langs, width, k, (u - 1) as nat);
    }
}

/// A language owed a spare cell before another has a smaller rank.
proof fn lemma_rank_order(m: Map<Language, u64>, langs: Seq<Language>, width: usize, j: int, k: int, u: nat)
    requires
        0 <= j,
        rounds_before(m, langs, width, j, k),
    ensures
        rank(m, langs, width, j, u) + (if j < u {
            1nat
        } else {
            0nat
        }) <= rank(m, langs, width, k, u),
    decreases u,
{
    if u > 0 {
        lemma_rank_order(m, langs, width, j, k, (u - 1) as nat);
    }
}

/// How many of the first `u` languages rank below `s`.
pub open spec fn ranked_below(m: Map<Language, u64>, langs: Seq<Language>, width: usize, s: nat, u: nat) -> nat
    decreases u,
{
    if u == 0 {
        0
    } else {
        ranked_below(m, langs, width, s, (u - 1) as nat) + if rank(m, langs, width, u - 1, langs.len()) < s {
            1nat
        } else {
            0nat
        }
    }
}

proof fn lemma_ranked_below_set(m: Map<Language, u64>, langs: Seq<Language>, width: usize, s: nat, u: nat)
    ensures
        set_int_range(0, u as int).filter(|k: int| rank(m, langs, width, k, langs.len()) < s).finite(),
        ranked_below(m, langs, width, s, u) == set_int_range(0, u as int).filter(
            |k: int| rank(m, langs, width, k, langs.len()) < s,
        ).len(),
    decreases u,
{
    let p = |k: int| rank(m, langs, width, k, langs.len()) < s;
    lemma_int_range(0, u as int);
    set_int_range(0, u as int).lemma_len_filter(p);
    if u == 0 {
        assert(set_int_range(0, 0).filter(p) =~= Set::<int>::empty());
    } else {
        let v = (u - 1) as nat;
        lemma_ranked_below_set(m, langs, width, s, v);
        let before = set_int_range(0, v as int).filter(p);
        if p(v as int) {
            assert(set_int_range(0, u as int).filter(p) =~= before.insert(v as int));
            assert(!before.contains(v as int));
        } else {
            assert(set_int_range(0, u as int).filter(p) =~= before);
        }
    }
}

/// Ranks are a permutation of the positions: exactly `s` languages rank
/// below `s`, for `s` up to the number of languages.
proof fn lemma_ranked_below_count(m: Map<Language, u64>, langs: Seq<Language>, width: usize, s: nat)
    requires
        s <= langs.len(),
    ensures
        ranked_below(m, langs, width, s, langs.len()) == s,
{
    let n = langs.len();
    let f = |k: int| rank(m, langs, width, k, n) as int;
    let x = set_int_range(0, n as int);
    lemma_int_range(0, n as int);
    lemma_int_range(0, s as int);
    assert forall|a: int, b: int| x.contains(a) && x.contains(b) && #[trigger] f(a) == #[trigger] f(b) implies a
        == b by {
        if a != b {
            if rounds_before(m, langs, width, a, b) {
                lemma_rank_order(m, langs, width, a, b, n);
            } else {
                assert(rounds_before(m, langs, width, b, a));
                lemma_rank_order(m, langs, width, b, a, n);
            }
        }
    }
    assert(vstd::relations::injective_on(f, x));
    let y = x.map(f);
    lemma_map_size(x, y, f);
    assert forall|r: int| y.contains(r) implies set_int_range(0, n as int).contains(r) by {
        let k = choose|k: int| x.contains(k) && f(k) == r;
        lemma_rank_bound(m, langs, width, k, n);
    }
    lemma_subset_equality(y, set_int_range(0, n as int));
    let p = |k: int| rank(m, langs, width, k, langs.len()) < s;
    let ks = x.filter(p);
    x.lemma_len_filter(p);
    assert(ks.map(f) =~= set_int_range(0, s as int)) by {
        assert forall|r: int| set_int_range(0, s as int).contains(r) implies ks.map(f).contains(r) by {
            assert(y.contains(r));
            let k = choose|k: int| x.contains(k) && f(k) == r;
            assert(ks.contains(k));
        }
    }
    assert(vstd::relations::injective_on(f, ks));
    lemma_map_size(ks, set_int_range(0, s as int), f);
    lemma_ranked_below_set(m, langs, width, s, n);
}

proof fn lemma_cells_prefix(m: Map<Language, u64>, langs: Seq<Language>, width: usize, u: nat)
    requires
        u <= langs.len(),
        total_lines(m) > 0,
        width > 0,
        langs.no_duplicates(),
        forall|l: Language| lines_of(m, l) > 0 ==> langs.contains(l),
    ensures
        cells_sum(language_widths_spec(m, langs, width).take(u as int)) == allocated(m, langs, width, u)
            + ranked_below(m, langs, width, spare_cells(m, langs, width), u),
    decreases u,
{
    let ws = language_widths_spec(m, langs, width);
    if u == 0 {
        assert(ws.take(0) =~= Seq::<usize>::empty());
    } else {
        let v = (u - 1) as nat;
        lemma_cells_prefix(m, langs, width, v);
        assert(ws.take(u as int).drop_last() =~= ws.take(v as int));
        lemma_spare_bound(m, langs, width);
        lemma_allocated_ge(m, langs, width, v as int, langs.len());
        let b = base_cells(m, langs, width, v as int);
        let spare = spare_cells(m, langs, width);
        if rank(m, langs, width, v as int, langs.len()) < spare {
            assert(b + 1 <= width);
        }
        assert(ws.take(u as int).last() == ws[v as int]);
    }
}

proof fn lemma_zero_cells(cells: Seq<usize>)
    requires
        forall|k: int| 0 <= k < cells.len() ==> cells[k] == 0,
    ensures
        cells_sum(cells) == 0,
    decreases cells.len(),
{
    if cells.len() > 0 {
        lemma_zero_cells(cells.drop_last());
    }
}

/// Each row is normalized to the whole bar: when the snapshot has lines and
/// `langs` holds each of its languages with lines exactly once (as the legend
/// does), the cells of the languages add up to `width`, whatever the number of
/// lines.
pub proof fn law_language_row_fills_bar(m: Map<Language, u64>, langs: Seq<Language>, width: usize)
    requires
        total_lines(m) > 0,
        langs.no_duplicates(),
        forall|l: Language| lines_of(m, l) > 0 ==> langs.contains(l),
    ensures
        cells_sum(language_widths_spec(m, langs, width)) == width,
{
    let ws = language_widths_spec(m, langs, width);
    if width == 0 {
        lemma_zero_cells(ws);
    } else {
        lemma_cells_prefix(m, langs, width, langs.len());
        assert(ws.take(langs.len() as int) =~= ws);
        lemma_spare_bound(m, langs, width);
        lemma_ranked_below_count(m, langs, width, spare_cells(m, langs, width));
    }
}

/// Every row of the language chart with lines fills the bar: with the
/// chart's legend, the cells of each snapshot that has lines add up to
/// `width`.
pub proof fn law_language_chart_rows_fill_bar(
    history: Seq<LanguageSnapshot>,
    legend: Seq<Language>,
    width: usize,
    i: int,
)
    requires
        is_legend(legend, history),
        0 <= i < history.len(),
        total_lines(history[i].lines@) > 0,
    ensures
        cells_sum(language_widths_spec(history[i].lines@, legend, width)) == width,
{
    let m = history[i].lines@;
    assert forall|a: int, b: int| 0 <= a < legend.len() && 0 <= b < legend.len() && a != b implies legend[a]
        != legend[b] by {
        lemma_sorted_distinct(legend, a, b);
    }
    assert forall|l: Language| lines_of(m, l) > 0 implies legend.contains(l) by {
        assert(history[i].lines@.contains_key(l));
        assert(in_history(history, l));
    }
    law_language_row_fills_bar(m, legend, width);
}

// ------------------------------------------------------------------------
// Only the fractions matter
// ------------------------------------------------------------------------

proof fn lemma_scaled_total(m: Map<Language, u64>, m2: Map<Language, u64>, c: nat, n: nat)
    requires
        forall|l: Language| lines_of(m2, l) == c * lines_of(m, l),
    ensures
        ordinal_total(m2, n) == c * ordinal_total(m, n),
    decreases n,
{
    if n > 0 {
        lemma_scaled_total(m, m2, c, (n - 1) as nat);
        vstd::arithmetic::mul::lemma_mul_is_distributive_add(
            c as int,
            ordinal_total(m, (n - 1) as nat) as int,
            lines_of(m, language_at((n - 1) as nat)) as int,
        );
    } else {
        assert(c * 0 == 0) by (nonlinear_arith);
    }
}

/// Scaling the lines and the total by `c` keeps the whole cells and scales
/// the remainder.
proof fn lemma_scaled_share(a: nat, t: nat, c: nat)
    requires
        t > 0,
        c > 0,
    ensures
        (c * a) / (c * t) == a / t,
        (c * a) % (c * t) == c * (a % t),
{
    vstd::arithmetic::div_mod::lemma_fundamental_div_mod(a as int, t as int);
    vstd::arithmetic::div_mod::lemma_mod_pos_bound(a as int, t as int);
    let q = a / t;
    let r = a % t;
    assert(c * a == q * (c * t) + c * r && 0 <= c * r < c * t) by (nonlinear_arith)
        requires
            a == t * q + r,
            0 <= r < t,
            c > 0,
    ;
    vstd::arithmetic::div_mod::lemma_fundamental_div_mod_converse(
        (c * a) as int,
        (c * t) as int,
        q as int,
        (c * r) as int,
    );
}

proof fn lemma_scaled_rank(
    m: Map<Language, u64>,
    m2: Map<Language, u64>,
    langs: Seq<Language>,
    width: usize,
    k: int,
    u: nat,
)
    requires
        forall|j: int| #[trigger]
            rounds_before(m2, langs, width, j, k) == rounds_before(m, langs, width, j, k),
    ensures
        rank(m2, langs, width, k, u) == rank(m, langs, width, k, u),
    decreases u,
{
    if u > 0 {
        lemma_scaled_rank(m, m2, langs, width, k, (u - 1) as nat);
        assert(rounds_before(m2, langs, width, u - 1, k) == rounds_before(m, langs, width, u - 1, k));
    }
}

proof fn lemma_scaled_allocated(
    m: Map<Language, u64>,
    m2: Map<Language, u64>,
    langs: Seq<Language>,
    width: usize,
    n: nat,
)
    requires
        forall|k: int| #[trigger] base_cells(m2, langs, width, k) == base_cells(m, langs, width, k),
    ensures
        allocated(m2, langs, width, n) == allocated(m, langs, width, n),
    decreases n,
{
    if n > 0 {
        lemma_scaled_allocated(m, m2, langs, width, (n - 1) as nat);
        assert(base_cells(m2, langs, width, n - 1) == base_cells(m, langs, width, n - 1));
    }
}

/// Absolute size does not affect a row: multiplying every language's lines
/// by the same factor leaves the cells of every language unchanged.
pub proof fn law_language_row_scale_free(
    m: Map<Language, u64>,
    m2: Map<Language, u64>,
    langs: Seq<Language>,
    width: usize,
    c: nat,
)
    requires
        c > 0,
        forall|l: Language| lines_of(m2, l) == c * lines_of(m, l),
    ensures
        language_widths_spec(m2, langs, width) == language_widths_spec(m, langs, width),
{
    lemma_scaled_total(m, m2, c, LANGUAGE_COUNT as nat);
    let t = total_lines(m);
    let w = width as nat;
    if t == 0 || width == 0 {
        assert(c * 0 == 0) by (nonlinear_arith);
        assert(language_widths_spec(m2, langs, width) =~= language_widths_spec(m, langs, width));
    } else {
        assert(c * t > 0) by (nonlinear_arith)
            requires
                c > 0,
                t > 0,
        ;
        assert forall|k: int|
            #![trigger base_cells(m2, langs, width, k)]
            #![trigger remainder(m2, langs, width, k)]
            base_cells(m2, langs, width, k) == base_cells(m, langs, width, k) && remainder(m2, langs, width, k)
                == c * remainder(m, langs, width, k) by {
            let x = lines_of(m, langs[k]);
            assert(lines_of(m2, langs[k]) * w == c * (x * w)) by (nonlinear_arith)
                requires
                    lines_of(m2, langs[k]) == c * x,
            ;
            lemma_scaled_share(x * w, t, c);
        }
        assert forall|j: int, k: int| #[trigger]
            rounds_before(m2, langs, width, j, k) == rounds_before(m, langs, width, j, k) by {
            let rj = remainder(m, langs, width, j);
            let rk = remainder(m, langs, width, k);
            assert(remainder(m2, langs, width, j) == c * rj);
            assert(remainder(m2, langs, width, k) == c * rk);
            assert((c * rj > c * rk) == (rj > rk) && (c * rj == c * rk) == (rj == rk)) by (nonlinear_arith)
                requires
                    c > 0,
            ;
        }
        lemma_scaled_allocated(m, m2, langs, width, langs.len());
        assert forall|k: int| 0 <= k < langs.len() implies rank(m2, langs, width, k, langs.len()) == rank(
            m,
            langs,
            width,
            k,
            langs.len(),
        ) by {
            lemma_scaled_rank(m, m2, langs, width, k, langs.len());
        }
        assert(language_widths_spec(m2, langs, width) =~= language_widths_spec(m, langs, width));
    }
}

} // verus!
