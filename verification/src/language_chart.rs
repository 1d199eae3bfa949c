//! The language-fraction chart: per commit, a bar of fixed width split among
//! the languages in proportion to their lines, with a legend.
use vstd::prelude::*;
use crate::language::{
    language_at, language_index, language_name, lemma_language_at, lemma_language_index, Language,
    LanguageCounts, LANGUAGE_COUNT,
};
use crate::snapshot::LanguageSnapshot;
use crate::text::{
    chars_eq, chars_lt, chars_of, concat, decimal, lemma_seq_lt_irreflexive, lemma_seq_lt_total,
    lemma_seq_lt_transitive, pad_left, push_char, push_decimal, push_padded, push_repeat, push_str,
    repeat, seq_lt,
};
use crate::line_chart::{label_bytes, max_nat, sequence_width, sequence_width_of};

verus! {

// ------------------------------------------------------------------------
// The order of the legend
// ------------------------------------------------------------------------

/// The legend order: `Other` after every named language, the others by name,
/// and languages of equal name by ordinal (the order a stable sort keeps).
pub open spec fn legend_before(a: Language, b: Language) -> bool {
    let oa = a == Language::Other;
    let ob = b == Language::Other;
    if oa != ob {
        ob
    } else if language_name(a) != language_name(b) {
        seq_lt(language_name(a), language_name(b))
    } else {
        language_index(a) < language_index(b)
    }
}

/// Strictly increasing in legend order.
pub open spec fn legend_sorted(s: Seq<Language>) -> bool {
    forall|i: int, j: int| 0 <= i < j < s.len() ==> legend_before(#[trigger] s[i], #[trigger] s[j])
}

/// A language occurs in some snapshot of the history (possibly with zero lines).
pub open spec fn in_history(history: Seq<LanguageSnapshot>, l: Language) -> bool {
    exists|i: int| 0 <= i < history.len() && #[trigger] history[i].lines@.contains_key(l)
}

/// `s` lists exactly the languages of the history, in legend order.
pub open spec fn is_legend(s: Seq<Language>, history: Seq<LanguageSnapshot>) -> bool {
    &&& legend_sorted(s)
    &&& forall|l: Language| s.contains(l) <==> in_history(history, l)
}

/// The languages of the chart: those of the history, in legend order.
pub open spec fn chart_languages(history: Seq<LanguageSnapshot>) -> Seq<Language> {
    choose|s: Seq<Language>| is_legend(s, history)
}

proof fn lemma_before_transitive(a: Language, b: Language, c: Language)
    requires
        legend_before(a, b),
        legend_before(b, c),
    ensures
        legend_before(a, c),
{
    let (na, nb, nc) = (language_name(a), language_name(b), language_name(c));
    if (a == Language::Other) == (b == Language::Other) && (b == Language::Other) == (c
        == Language::Other) {
        if na != nb && nb != nc {
            lemma_seq_lt_transitive(na, nb, nc);
            if na == nc {
                lemma_seq_lt_irreflexive(na);
            }
        } else if na != nb {
            assert(nb == nc);
        } else if nb != nc {
            assert(na == nb);
        }
    }
}

proof fn lemma_before_asymmetric(a: Language, b: Language)
    requires
        legend_before(a, b),
    ensures
        !legend_before(b, a),
{
    if legend_before(b, a) {
        lemma_before_transitive(a, b, a);
    }
}

proof fn lemma_before_total(a: Language, b: Language)
    requires
        a != b,
    ensures
        legend_before(a, b) || legend_before(b, a),
{
    lemma_seq_lt_total(language_name(a), language_name(b));
    lemma_language_index(a);
    lemma_language_index(b);
}

/// A sorted sequence has no element twice.
pub(crate) proof fn lemma_sorted_distinct(s: Seq<Language>, i: int, j: int)
    requires
        legend_sorted(s),
        0 <= i < s.len(),
        0 <= j < s.len(),
        i != j,
    ensures
        s[i] != s[j],
{
    if i < j {
        assert(legend_before(s[i], s[j]));
    } else {
        assert(legend_before(s[j], s[i]));
    }
}

/// Two sorted sequences with the same elements are equal.
proof fn lemma_sorted_unique(s1: Seq<Language>, s2: Seq<Language>)
    requires
        legend_sorted(s1),
        legend_sorted(s2),
        forall|l: Language| s1.contains(l) <==> s2.contains(l),
    ensures
        s1 == s2,
    decreases s1.len(),
{
    if s1.len() == 0 {
        if s2.len() > 0 {
            assert(s2.contains(s2[0]));
        }
        assert(s1 =~= s2);
    } else {
        assert(s1.contains(s1[0]));
        assert(s2.len() > 0);
        let j = choose|j: int| 0 <= j < s2.len() && s2[j] == s1[0];
        assert(s2.contains(s2[0]));
        let i = choose|i: int| 0 <= i < s1.len() && s1[i] == s2[0];
        if j > 0 {
            assert(legend_before(s2[0], s2[j]));
            if i > 0 {
                assert(legend_before(s1[0], s1[i]));
                lemma_before_asymmetric(s1[0], s1[i]);
            }
        }
        assert(s1[0] == s2[0]);
        let t1 = s1.drop_first();
        let t2 = s2.drop_first();
        assert forall|l: Language| t1.contains(l) <==> t2.contains(l) by {
            if t1.contains(l) {
                let a = choose|a: int| 0 <= a < t1.len() && t1[a] == l;
                lemma_sorted_distinct(s1, 0, a + 1);
                assert(s1.contains(l));
                let b = choose|b: int| 0 <= b < s2.len() && s2[b] == l;
                assert(b != 0);
                assert(t2[b - 1] == l);
            }
            if t2.contains(l) {
                let a = choose|a: int| 0 <= a < t2.len() && t2[a] == l;
                lemma_sorted_distinct(s2, 0, a + 1);
                assert(s2.contains(l));
                let b = choose|b: int| 0 <= b < s1.len() && s1[b] == l;
                assert(b != 0);
                assert(t1[b - 1] == l);
            }
        }
        lemma_sorted_unique(t1, t2);
        assert(s1 =~= seq![s1[0]] + t1);
        assert(s2 =~= seq![s2[0]] + t2);
    }
}

/// Whether `a` comes before `b` in the legend.
fn legend_before_exec(a: Language, b: Language) -> (r: bool)
    ensures
        r == legend_before(a, b),
{
    proof {
        lemma_language_index(a);
        lemma_language_index(b);
        lemma_language_at(20);
    }
    let other_a = a.index() == 20;
    let other_b = b.index() == 20;
    assert(other_a == (a == Language::Other));
    assert(other_b == (b == Language::Other));
    if other_a != other_b {
        return other_b;
    }
    let name_a = chars_of(a.name());
    let name_b = chars_of(b.name());
    if !chars_eq(&name_a, &name_b) {
        return chars_lt(&name_a, &name_b);
    }
    a.index() < b.index()
}

/// Whether some snapshot has `language`.
fn occurs(history: &[LanguageSnapshot], language: Language) -> (r: bool)
    ensures
        r == in_history(history@, language),
{
    let mut i: usize = 0;
    while i < history.len()
        invariant
            i <= history.len(),
            forall|j: int| 0 <= j < i ==> !(#[trigger] history@[j]).lines@.contains_key(language),
        decreases history.len() - i,
    {
        if history[i].lines.get(language).is_some() {
            assert(history@[i as int].lines@.contains_key(language));
            return true;
        }
        i += 1;
    }
    false
}

/// The languages of the history, in legend order.
pub fn legend_languages(history: &[LanguageSnapshot]) -> (languages: Vec<Language>)
    ensures
        languages@ == chart_languages(history@),
        is_legend(languages@, history@),
        languages.len() <= LANGUAGE_COUNT,
{
    let mut languages: Vec<Language> = Vec::new();
    let mut i: usize = 0;
    while i < LANGUAGE_COUNT
        invariant
            i <= LANGUAGE_COUNT,
            languages.len() <= i,
            legend_sorted(languages@),
            forall|l: Language|
                languages@.contains(l) <==> (in_history(history@, l) && language_index(l) < i),
        decreases LANGUAGE_COUNT - i,
    {
        let language = Language::from_index(i);
        if occurs(history, language) {
            let mut p: usize = 0;
            while p < languages.len() && !legend_before_exec(language, languages[p])
                invariant
                    p <= languages.len(),
                    forall|q: int| 0 <= q < p ==> !legend_before(language, #[trigger] languages@[q]),
                decreases languages.len() - p,
            {
                p += 1;
            }
            let ghost old_languages = languages@;
            proof {
                assert forall|q: int| 0 <= q < old_languages.len() implies old_languages[q]
                    != language by {
                    assert(old_languages.contains(old_languages[q]));
                }
                assert forall|q: int| 0 <= q < p implies legend_before(
                    #[trigger] old_languages[q],
                    language,
                ) by {
                    assert(old_languages[q] != language);
                    lemma_before_total(old_languages[q], language);
                }
                assert forall|q: int| p <= q < old_languages.len() implies legend_before(
                    language,
                    #[trigger] old_languages[q],
                ) by {
                    if q > p {
                        assert(legend_before(old_languages[p as int], old_languages[q]));
                        lemma_before_transitive(language, old_languages[p as int], old_languages[q]);
                    }
                }
            }
            languages.insert(p, language);
            proof {
                let s = languages@;
                assert forall|a: int, b: int| 0 <= a < b < s.len() implies legend_before(
                    #[trigger] s[a],
                    #[trigger] s[b],
                ) by {
                    if b < p {
                        assert(s[a] == old_languages[a] && s[b] == old_languages[b]);
                    } else if b == p {
                        assert(s[a] == old_languages[a]);
                    } else if a < p {
                        assert(s[a] == old_languages[a] && s[b] == old_languages[b - 1]);
                        lemma_before_transitive(s[a], language, s[b]);
                    } else if a == p {
                        assert(s[b] == old_languages[b - 1]);
                    } else {
                        assert(s[a] == old_languages[a - 1] && s[b] == old_languages[b - 1]);
                    }
                }
                assert forall|l: Language|
                    s.contains(l) <==> (in_history(history@, l) && language_index(l) < i + 1) by {
                    if s.contains(l) {
                        let c = choose|c: int| 0 <= c < s.len() && s[c] == l;
                        if c < p {
                            assert(old_languages[c] == l);
                            assert(old_languages.contains(l));
                        } else if c > p {
                            assert(old_languages[c - 1] == l);
                            assert(old_languages.contains(l));
                        }
                    }
                    if in_history(history@, l) && language_index(l) < i + 1 {
                        if language_index(l) == i {
                            lemma_language_index(l);
                            assert(s[p as int] == l);
                        } else {
                            assert(old_languages.contains(l));
                            let c = choose|c: int| 0 <= c < old_languages.len() && old_languages[c] == l;
                            if c < p {
                                assert(s[c] == l);
                            } else {
                                assert(s[c + 1] == l);
                            }
                        }
                    }
                }
            }
        } else {
            proof {
                assert forall|l: Language|
                    languages@.contains(l) <==> (in_history(history@, l) && language_index(l) < i + 1) by {
                    if language_index(l) == i {
                        lemma_language_index(l);
                    }
                }
            }
        }
        i += 1;
    }
    proof {
        assert forall|l: Language| languages@.contains(l) <==> in_history(history@, l) by {
            lemma_language_index(l);
        }
        assert(is_legend(languages@, history@));
        let c = chart_languages(history@);
        assert(is_legend(c, history@));
        lemma_sorted_unique(languages@, c);
    }
    languages
}

// ------------------------------------------------------------------------
// Splitting a row among the languages
// ------------------------------------------------------------------------

/// The lines of `l` in a snapshot's totals (zero when absent).
pub open spec fn lines_of(m: Map<Language, u64>, l: Language) -> nat {
    if m.contains_key(l) {
        m[l] as nat
    } else {
        0
    }
}

/// The lines of the languages with ordinals below `n`.
pub open spec fn ordinal_total(m: Map<Language, u64>, n: nat) -> nat
    decreases n,
{
    if n == 0 {
        0
    } else {
        ordinal_total(m, (n - 1) as nat) + lines_of(m, language_at((n - 1) as nat))
    }
}

/// All lines of a snapshot.
pub open spec fn total_lines(m: Map<Language, u64>) -> nat {
    ordinal_total(m, LANGUAGE_COUNT as nat)
}

/// The whole cells of language `k` of the row: its share of `width`, rounded down.
pub open spec fn base_cells(m: Map<Language, u64>, langs: Seq<Language>, width: usize, k: int) -> nat {
    (((lines_of(m, langs[k]) * (width as nat)) / total_lines(m)) as usize) as nat
}

/// What rounding down left over of language `k`'s share, in units of `1/total`.
pub open spec fn remainder(m: Map<Language, u64>, langs: Seq<Language>, width: usize, k: int) -> nat {
    (lines_of(m, langs[k]) * (width as nat)) % total_lines(m)
}

/// The whole cells of the first `n` languages.
pub open spec fn allocated(m: Map<Language, u64>, langs: Seq<Language>, width: usize, n: nat) -> nat
    decreases n,
{
    if n == 0 {
        0
    } else {
        allocated(m, langs, width, (n - 1) as nat) + base_cells(m, langs, width, n - 1)
    }
}

/// Language `j` is owed a spare cell before language `k`: it has the larger
/// remainder, or the same remainder and comes first.
pub open spec fn rounds_before(
    m: Map<Language, u64>,
    langs: Seq<Language>,
    width: usize,
    j: int,
    k: int,
) -> bool {
    remainder(m, langs, width, j) > remainder(m, langs, width, k) || (remainder(m, langs, width, j)
        == remainder(m, langs, width, k) && j < k)
}

/// How many of the first `n` languages are owed a spare cell before `k`.
pub open spec fn rank(m: Map<Language, u64>, langs: Seq<Language>, width: usize, k: int, n: nat) -> nat
    decreases n,
{
    if n == 0 {
        0
    } else {
        rank(m, langs, width, k, (n - 1) as nat) + if rounds_before(m, langs, width, n - 1, k) {
            1nat
        } else {
            0nat
        }
    }
}

/// The cells that rounding down left unassigned.
pub open spec fn spare_cells(m: Map<Language, u64>, langs: Seq<Language>, width: usize) -> nat {
    let whole = allocated(m, langs, width, langs.len());
    if whole < width {
        (width - whole) as nat
    } else {
        0
    }
}

/// The cells of each language in a row of `width` cells: its share rounded
/// down, plus one spare cell for each of the languages with the largest
/// remainders (ties to the earlier language) until the row is full; all zero
/// when the snapshot has no lines or the width is zero.
pub open spec fn language_widths_spec(m: Map<Language, u64>, langs: Seq<Language>, width: usize) -> Seq<
    usize,
> {
    if total_lines(m) == 0 || width == 0 {
        Seq::new(langs.len(), |k: int| 0usize)
    } else {
        Seq::new(
            langs.len(),
            |k: int|
                (base_cells(m, langs, width, k) + if rank(m, langs, width, k, langs.len())
                    < spare_cells(m, langs, width) {
                    1nat
                } else {
                    0nat
                }) as usize,
        )
    }
}

pub(crate) proof fn lemma_lines_le_total(m: Map<Language, u64>, l: Language, n: nat)
    requires
        language_index(l) < n <= LANGUAGE_COUNT,
    ensures
        lines_of(m, l) <= ordinal_total(m, n),
    decreases n,
{
    lemma_language_index(l);
    if language_index(l) < n - 1 {
        lemma_lines_le_total(m, l, (n - 1) as nat);
    }
}

pub(crate) proof fn lemma_base_le_width(m: Map<Language, u64>, langs: Seq<Language>, width: usize, k: int)
    requires
        0 <= k < langs.len(),
        total_lines(m) > 0,
    ensures
        base_cells(m, langs, width, k) <= width,
        (lines_of(m, langs[k]) * (width as nat)) / total_lines(m) <= width,
{
    lemma_language_index(langs[k]);
    lemma_lines_le_total(m, langs[k], LANGUAGE_COUNT as nat);
    let c = lines_of(m, langs[k]);
    let t = total_lines(m);
    assert((c * (width as nat)) / t <= width) by (nonlinear_arith)
        requires
            c <= t,
            t > 0,
            width >= 0,
    {
        assert(c * width <= t * width);
        vstd::arithmetic::div_mod::lemma_div_is_ordered(c * width, t * width, t as int);
        vstd::arithmetic::div_mod::lemma_div_by_multiple(width as int, t as int);
    }
}

pub(crate) proof fn lemma_allocated_ge(m: Map<Language, u64>, langs: Seq<Language>, width: usize, k: int, n: nat)
    requires
        0 <= k < n,
    ensures
        allocated(m, langs, width, n) >= base_cells(m, langs, width, k),
    decreases n,
{
    if k < n - 1 {
        lemma_allocated_ge(m, langs, width, k, (n - 1) as nat);
    }
}

proof fn lemma_allocated_bound(m: Map<Language, u64>, langs: Seq<Language>, width: usize, n: nat)
    ensures
        allocated(m, langs, width, n) <= n * (usize::MAX as nat),
    decreases n,
{
    if n > 0 {
        lemma_allocated_bound(m, langs, width, (n - 1) as nat);
        assert((n - 1) * (usize::MAX as nat) + usize::MAX as nat == n * (usize::MAX as nat)) by (nonlinear_arith);
    }
}

/// The lines of all languages of the totals.
fn total_of(lines: &LanguageCounts) -> (total: u128)
    ensures
        total == total_lines(lines@),
{
    let mut total: u128 = 0;
    let mut i: usize = 0;
    while i < LANGUAGE_COUNT
        invariant
            i <= LANGUAGE_COUNT,
            total == ordinal_total(lines@, i as nat),
            total <= i * (u64::MAX as nat),
        decreases LANGUAGE_COUNT - i,
    {
        let value = match lines.get(Language::from_index(i)) {
            Some(v) => v,
            None => 0,
        };
        total = total + value as u128;
        i += 1;
    }
    total
}

/// The cells of each language of `languages` in a row of `width` cells.
fn language_widths(lines: &LanguageCounts, languages: &[Language], width: usize) -> (widths: Vec<
    usize,
>)
    ensures
        widths@ == language_widths_spec(lines@, languages@, width),
{
    let ghost m = lines@;
    let ghost langs = languages@;
    let total = total_of(lines);
    let n = languages.len();
    let mut widths: Vec<usize> = Vec::new();
    if total == 0 || width == 0 {
        let mut k: usize = 0;
        while k < n
            invariant
                k <= n == languages.len(),
                widths@ =~= Seq::new(k as nat, |j: int| 0usize),
            decreases n - k,
        {
            widths.push(0);
            k += 1;
        }
        return widths;
    }
    let mut bases: Vec<usize> = Vec::new();
    let mut remainders: Vec<u128> = Vec::new();
    let mut whole: u128 = 0;
    let mut k: usize = 0;
    while k < n
        invariant
            k <= n == languages.len(),
            langs == languages@,
            m == lines@,
            total == total_lines(m),
            total > 0,
            width > 0,
            bases.len() == k,
            remainders.len() == k,
            forall|j: int| 0 <= j < k ==> bases@[j] == base_cells(m, langs, width, j),
            forall|j: int| 0 <= j < k ==> remainders@[j] == remainder(m, langs, width, j),
            whole == allocated(m, langs, width, k as nat),
        decreases n - k,
    {
        let count = match lines.get(languages[k]) {
            Some(v) => v,
            None => 0,
        };
        assert(count == lines_of(m, langs[k as int]));
        assert(count as u128 * width as u128 <= u128::MAX) by (nonlinear_arith)
            requires
                count <= u64::MAX,
                width <= u64::MAX,
        ;
        let scaled = count as u128 * width as u128;
        proof {
            lemma_base_le_width(m, langs, width, k as int);
            lemma_allocated_bound(m, langs, width, k as nat);
            assert(k * (usize::MAX as nat) + usize::MAX as nat <= u128::MAX) by (nonlinear_arith)
                requires
                    k <= usize::MAX,
            ;
        }
        let base = (scaled / total) as usize;
        bases.push(base);
        remainders.push(scaled % total);
        whole = whole + base as u128;
        k += 1;
    }
    let spare: u128 = if whole < width as u128 {
        width as u128 - whole
    } else {
        0
    };
    assert(spare == spare_cells(m, langs, width));
    let mut k: usize = 0;
    while k < n
        invariant
            k <= n == languages.len(),
            langs == languages@,
            m == lines@,
            total == total_lines(m),
            total > 0,
            width > 0,
            bases.len() == n,
            remainders.len() == n,
            forall|j: int| 0 <= j < n ==> bases@[j] == base_cells(m, langs, width, j),
            forall|j: int| 0 <= j < n ==> remainders@[j] == remainder(m, langs, width, j),
            whole == allocated(m, langs, width, n as nat),
            spare == spare_cells(m, langs, width),
            widths.len() == k,
            forall|j: int|
                0 <= j < k ==> widths@[j] == language_widths_spec(m, langs, width)[j],
        decreases n - k,
    {
        let mut r: usize = 0;
        let mut j: usize = 0;
        while j < n
            invariant
                j <= n == languages.len(),
                k < n,
                remainders.len() == n,
                forall|q: int| 0 <= q < n ==> remainders@[q] == remainder(m, langs, width, q),
                r == rank(m, langs, width, k as int, j as nat),
                r <= j,
            decreases n - j,
        {
            if remainders[j] > remainders[k] || (remainders[j] == remainders[k] && j < k) {
                r += 1;
            }
            j += 1;
        }
        proof {
            lemma_base_le_width(m, langs, width, k as int);
            lemma_allocated_ge(m, langs, width, k as int, n as nat);
        }
        let cells = if (r as u128) < spare {
            bases[k] + 1
        } else {
            bases[k]
        };
        widths.push(cells);
        k += 1;
    }
    assert(widths@ =~= language_widths_spec(m, langs, width));
    widths
}

// ------------------------------------------------------------------------
// Bars, rows and legend
// ------------------------------------------------------------------------

/// The 256-colour palette code of the language at legend position `i` (for
/// `i` below 36).
pub open spec fn color_code(i: nat) -> u8 {
    if i == 0 {
        39
    } else if i == 1 {
        208
    } else if i == 2 {
        70
    } else if i == 3 {
        135
    } else if i == 4 {
        220
    } else if i == 5 {
        45
    } else if i == 6 {
        203
    } else if i == 7 {
        33
    } else if i == 8 {
        112
    } else if i == 9 {
        214
    } else if i == 10 {
        171
    } else if i == 11 {
        81
    } else if i == 12 {
        196
    } else if i == 13 {
        118
    } else if i == 14 {
        207
    } else if i == 15 {
        44
    } else if i == 16 {
        178
    } else if i == 17 {
        69
    } else if i == 18 {
        141
    } else if i == 19 {
        215
    } else if i == 20 {
        77
    } else if i == 21 {
        204
    } else if i == 22 {
        38
    } else if i == 23 {
        172
    } else if i == 24 {
        62
    } else if i == 25 {
        210
    } else if i == 26 {
        36
    } else if i == 27 {
        180
    } else if i == 28 {
        75
    } else if i == 29 {
        168
    } else if i == 30 {
        48
    } else if i == 31 {
        202
    } else if i == 32 {
        99
    } else if i == 33 {
        114
    } else if i == 34 {
        217
    } else {
        51
    }
}

/// The plain-text symbol of the language at legend position `i` (for `i`
/// below 62): `A`..`Z`, then `a`..`z`, then `0`..`9`.
pub open spec fn symbol(i: nat) -> char {
    if i < 26 {
        ((65 + i) as u32) as char
    } else if i < 52 {
        ((97 + i - 26) as u32) as char
    } else {
        ((48 + i - 52) as u32) as char
    }
}

/// The piece of a bar for the language at legend position `k`, `cells` wide:
/// full blocks in the language's colour, or its symbol repeated.
pub open spec fn segment(k: nat, cells: nat, colors: bool) -> Seq<char> {
    if cells == 0 {
        Seq::empty()
    } else if colors {
        "\x1b[38;5;"@ + decimal(color_code(k % 36) as nat) + seq!['m'] + repeat(
            '\u{2588}',
            cells,
        ) + "\x1b[0m"@
    } else {
        repeat(symbol(k), cells)
    }
}

/// A bar made of the languages' pieces, in legend order.
pub open spec fn language_bar_spec(widths: Seq<usize>, colors: bool) -> Seq<char> {
    concat(Seq::new(widths.len(), |k: int| segment(k as nat, widths[k] as nat, colors)))
}

fn color_of(i: usize) -> (code: u8)
    requires
        i < 36,
    ensures
        code == color_code(i as nat),
{
    if i == 0 {
        39
    } else if i == 1 {
        208
    } else if i == 2 {
        70
    } else if i == 3 {
        135
    } else if i == 4 {
        220
    } else if i == 5 {
        45
    } else if i == 6 {
        203
    } else if i == 7 {
        33
    } else if i == 8 {
        112
    } else if i == 9 {
        214
    } else if i == 10 {
        171
    } else if i == 11 {
        81
    } else if i == 12 {
        196
    } else if i == 13 {
        118
    } else if i == 14 {
        207
    } else if i == 15 {
        44
    } else if i == 16 {
        178
    } else if i == 17 {
        69
    } else if i == 18 {
        141
    } else if i == 19 {
        215
    } else if i == 20 {
        77
    } else if i == 21 {
        204
    } else if i == 22 {
        38
    } else if i == 23 {
        172
    } else if i == 24 {
        62
    } else if i == 25 {
        210
    } else if i == 26 {
        36
    } else if i == 27 {
        180
    } else if i == 28 {
        75
    } else if i == 29 {
        168
    } else if i == 30 {
        48
    } else if i == 31 {
        202
    } else if i == 32 {
        99
    } else if i == 33 {
        114
    } else if i == 34 {
        217
    } else {
        51
    }
}

fn symbol_of(i: usize) -> (c: char)
    requires
        i < 62,
    ensures
        c == symbol(i as nat),
{
    let b: u8 = i as u8;
    if b < 26 {
        (65 + b) as char
    } else if b < 52 {
        (97 + b - 26) as char
    } else {
        (48 + b - 52) as char
    }
}

fn push_segment(out: &mut String, k: usize, cells: usize, colors: bool)
    requires
        k < 62,
    ensures
        final(out)@ == old(out)@ + segment(k as nat, cells as nat, colors),
{
    if cells == 0 {
        assert(out@ =~= old(out)@ + segment(k as nat, cells as nat, colors));
        return;
    }
    if colors {
        push_str(out, "\x1b[38;5;");
        push_decimal(out, color_of(k % 36) as u64);
        push_char(out, 'm');
        push_repeat(out, '\u{2588}', cells);
        push_str(out, "\x1b[0m");
    } else {
        push_repeat(out, symbol_of(k), cells);
    }
    assert(out@ =~= old(out)@ + segment(k as nat, cells as nat, colors));
}

/// The bar of one row: the pieces of the languages with a non-zero width.
fn render_language_bar(widths: &[usize], colors: bool) -> (bar: String)
    requires
        widths.len() <= 62,
    ensures
        bar@ == language_bar_spec(widths@, colors),
{
    let ghost parts = Seq::new(widths@.len(), |k: int| segment(k as nat, widths@[k] as nat, colors));
    let mut bar = String::new();
    let mut k: usize = 0;
    while k < widths.len()
        invariant
            k <= widths.len() <= 62,
            parts == Seq::new(widths@.len(), |k: int| segment(k as nat, widths@[k] as nat, colors)),
            bar@ == concat(parts.take(k as int)),
        decreases widths.len() - k,
    {
        push_segment(&mut bar, k, widths[k], colors);
        assert(parts.take(k + 1).drop_last() =~= parts.take(k as int));
        k += 1;
    }
    assert(parts.take(widths.len() as int) =~= parts);
    bar
}

/// One row: the label and the bar, or `0 lines` when every width is zero.
pub open spec fn language_row(
    s: LanguageSnapshot,
    langs: Seq<Language>,
    width: usize,
    label_width: nat,
    sequence_width: nat,
    date: bool,
    colors: bool,
) -> Seq<char> {
    let widths = language_widths_spec(s.lines@, langs, width);
    let label = pad_left(s.label_spec(date, sequence_width), label_width);
    if forall|k: int| 0 <= k < widths.len() ==> widths[k] == 0 {
        label + "  0 lines\n"@
    } else {
        label + seq![' ', ' '] + language_bar_spec(widths, colors) + seq!['\n']
    }
}

/// The header: `0%` over the start of the bars and `100%` over their end.
pub open spec fn language_header(label_width: nat, width: usize) -> Seq<char> {
    repeat(' ', label_width) + seq![' ', ' ', '0', '%'] + pad_left(
        "100%"@,
        (if width >= 2 {
            width - 2
        } else {
            0
        }) as nat,
    ) + seq!['\n']
}

/// The legend entry of the language at position `k`.
pub open spec fn legend_entry(k: nat, l: Language, colors: bool) -> Seq<char> {
    (if k != 0 {
        seq![',', ' ']
    } else {
        Seq::empty()
    }) + if colors {
        "\x1b[38;5;"@ + decimal(color_code(k % 36) as nat) + "m\u{2588}\x1b[0m "@ + language_name(l)
    } else {
        seq![symbol(k), ' '] + language_name(l)
    }
}

/// The legend: every language with its colour or symbol, in legend order;
/// nothing when there are no languages.
pub open spec fn legend_spec(langs: Seq<Language>, colors: bool) -> Seq<char> {
    if langs.len() == 0 {
        Seq::empty()
    } else {
        seq!['\n'] + "Legend: "@ + concat(
            Seq::new(langs.len(), |k: int| legend_entry(k as nat, langs[k], colors)),
        ) + seq!['\n']
    }
}

/// The width of the label column: the longest label in bytes, or 15 when
/// there are no rows.
pub open spec fn language_label_width_spec(
    history: Seq<LanguageSnapshot>,
    date: bool,
    sequence_width: nat,
) -> nat {
    if history.len() == 0 {
        15
    } else {
        max_nat(
            history.map_values(
                |s: LanguageSnapshot| label_bytes(s.label_spec(date, sequence_width)),
            ),
        )
    }
}

/// The language chart: the header, a row per snapshot in history order, and
/// the legend. Each non-empty row is `width` cells split among the languages
/// in proportion to their lines.
pub open spec fn language_chart_spec(
    history: Seq<LanguageSnapshot>,
    width: usize,
    date: bool,
    colors: bool,
) -> Seq<char> {
    let langs = chart_languages(history);
    let sw = sequence_width(history.len());
    let lw = language_label_width_spec(history, date, sw);
    language_header(lw, width) + concat(
        history.map_values(|s: LanguageSnapshot| language_row(s, langs, width, lw, sw, date, colors)),
    ) + legend_spec(langs, colors)
}

/// The width of the label column of the language chart.
fn language_chart_label_width(history: &[LanguageSnapshot], date: bool, sequence_width: usize) -> (w:
    usize)
    ensures
        w == language_label_width_spec(history@, date, sequence_width as nat),
{
    if history.len() == 0 {
        return 15;
    }
    let ghost lens = history@.map_values(
        |s: LanguageSnapshot| label_bytes(s.label_spec(date, sequence_width as nat)),
    );
    let mut m: usize = 0;
    let mut i: usize = 0;
    while i < history.len()
        invariant
            i <= history.len(),
            lens == history@.map_values(
                |s: LanguageSnapshot| label_bytes(s.label_spec(date, sequence_width as nat)),
            ),
            m == max_nat(lens.take(i as int)),
        decreases history.len() - i,
    {
        let label = history[i].label(date, sequence_width);
        let len = label.as_str().len();
        assert(lens.take(i + 1).drop_last() =~= lens.take(i as int));
        if len > m {
            m = len;
        }
        i += 1;
    }
    assert(lens.take(history.len() as int) =~= lens);
    m
}

fn push_language_row(
    chart: &mut String,
    snapshot: &LanguageSnapshot,
    languages: &Vec<Language>,
    width: usize,
    lw: usize,
    sw: usize,
    date: bool,
    colors: bool,
)
    requires
        languages.len() <= 62,
    ensures
        final(chart)@ == old(chart)@ + language_row(
            *snapshot,
            languages@,
            width,
            lw as nat,
            sw as nat,
            date,
            colors,
        ),
{
    let label = snapshot.label(date, sw);
    let widths = language_widths(&snapshot.lines, languages.as_slice(), width);
    let mut all_zero = true;
    let mut k: usize = 0;
    while k < widths.len()
        invariant
            k <= widths.len(),
            all_zero == forall|j: int| 0 <= j < k ==> widths@[j] == 0,
        decreases widths.len() - k,
    {
        if widths[k] != 0 {
            all_zero = false;
        }
        k += 1;
    }
    push_padded(chart, label.as_str(), lw);
    if all_zero {
        push_str(chart, "  0 lines\n");
    } else {
        let bar = render_language_bar(widths.as_slice(), colors);
        push_str(chart, "  ");
        push_str(chart, bar.as_str());
        push_char(chart, '\n');
        proof {
            reveal_strlit("  ");
        }
    }
    assert(chart@ =~= old(chart)@ + language_row(
        *snapshot,
        languages@,
        width,
        lw as nat,
        sw as nat,
        date,
        colors,
    ));
}

fn push_legend(chart: &mut String, languages: &Vec<Language>, colors: bool)
    requires
        languages.len() <= 62,
    ensures
        final(chart)@ == old(chart)@ + legend_spec(languages@, colors),
{
    if languages.len() == 0 {
        assert(chart@ =~= old(chart)@ + legend_spec(languages@, colors));
        return;
    }
    let ghost entries = Seq::new(
        languages@.len(),
        |k: int| legend_entry(k as nat, languages@[k], colors),
    );
    push_char(chart, '\n');
    push_str(chart, "Legend: ");
    let ghost start = chart@;
    let mut k: usize = 0;
    while k < languages.len()
        invariant
            k <= languages.len() <= 62,
            entries == Seq::new(
                languages@.len(),
                |k: int| legend_entry(k as nat, languages@[k], colors),
            ),
            chart@ == start + concat(entries.take(k as int)),
        decreases languages.len() - k,
    {
        let ghost before = chart@;
        if k != 0 {
            push_str(chart, ", ");
            proof {
                reveal_strlit(", ");
            }
        }
        let language = languages[k];
        if colors {
            push_str(chart, "\x1b[38;5;");
            push_decimal(chart, color_of(k % 36) as u64);
            push_str(chart, "m\u{2588}\x1b[0m ");
        } else {
            push_char(chart, symbol_of(k));
            push_char(chart, ' ');
        }
        push_str(chart, language.name());
        assert(chart@ =~= before + entries[k as int]);
        assert(entries.take(k + 1).drop_last() =~= entries.take(k as int));
        k += 1;
    }
    assert(entries.take(languages.len() as int) =~= entries);
    push_char(chart, '\n');
    assert(chart@ =~= old(chart)@ + legend_spec(languages@, colors));
}

/// The chart of language fractions along the history: a header, a row per
/// snapshot splitting `width` cells among its languages in proportion to their
/// lines (`0 lines` for a snapshot without lines), and a legend. With `colors`
/// the languages are told apart by colour, otherwise by letters.
pub fn render_language_chart(
    history: &[LanguageSnapshot],
    width: usize,
    date: bool,
    colors: bool,
) -> (chart: String)
    ensures
        chart@ == language_chart_spec(history@, width, date, colors),
{
    let languages = legend_languages(history);
    let sw = sequence_width_of(history.len());
    let lw = language_chart_label_width(history, date, sw);
    let ghost langs = languages@;
    let ghost rows = history@.map_values(
        |s: LanguageSnapshot| language_row(s, langs, width, lw as nat, sw as nat, date, colors),
    );
    let mut chart = String::new();
    push_repeat(&mut chart, ' ', lw);
    push_str(&mut chart, "  0%");
    let marker = if width >= 2 {
        width - 2
    } else {
        0
    };
    push_padded(&mut chart, "100%", marker);
    push_char(&mut chart, '\n');
    proof {
        reveal_strlit("  0%");
    }
    let ghost header = chart@;
    assert(header =~= language_header(lw as nat, width));
    let mut i: usize = 0;
    while i < history.len()
        invariant
            i <= history.len(),
            languages.len() <= 62,
            langs == languages@,
            rows == history@.map_values(
                |s: LanguageSnapshot| language_row(s, langs, width, lw as nat, sw as nat, date, colors),
            ),
            chart@ == header + concat(rows.take(i as int)),
        decreases history.len() - i,
    {
        let ghost before = chart@;
        push_language_row(&mut chart, &history[i], &languages, width, lw, sw, date, colors);
        assert(rows.take(i + 1).drop_last() =~= rows.take(i as int));
        assert(chart@ =~= before + rows[i as int]);
        i += 1;
    }
    assert(rows.take(history.len() as int) =~= rows);
    push_legend(&mut chart, &languages, colors);
    chart
}

/// The columns the language chart uses besides its bars: the label and the
/// two spaces.
pub open spec fn language_reserved_spec(history: Seq<LanguageSnapshot>, date: bool) -> nat {
    language_label_width_spec(history, date, sequence_width(history.len())) + 2
}

/// The columns the chart reserves besides its bars, or `None` when they do
/// not fit in `usize`.
pub fn checked_language_chart_reserved_width(history: &[LanguageSnapshot], date: bool) -> (w: Option<usize>)
    ensures
        w == (if language_reserved_spec(history@, date) <= usize::MAX {
            Some(language_reserved_spec(history@, date) as usize)
        } else {
            None
        }),
{
    let sw = sequence_width_of(history.len());
    language_chart_label_width(history, date, sw).checked_add(2)
}

/// The number of terminal columns the language chart needs besides its bars.
pub fn language_chart_reserved_width(history: &[LanguageSnapshot], date: bool) -> (w: usize)
    requires
        language_reserved_spec(history@, date) <= usize::MAX,
    ensures
        w == language_reserved_spec(history@, date),
{
    match checked_language_chart_reserved_width(history, date) {
        Some(w) => w,
        None => {
            proof {
                assert(false);
            }
            0
        },
    }
}

/// Each language keeps one visual identity across the chart: the pieces of
/// the bars of the language at legend position `k` are drawn in the colour
/// code of its legend entry when colours are on, and with the letter of its
/// legend entry when they are off.
pub proof fn law_segments_match_legend(k: nat, cells: nat, l: Language)
    requires
        cells > 0,
    ensures
        exists|code: Seq<char>|
            #![trigger code.len()]
            segment(k, cells, true) == "\x1b[38;5;"@ + code + seq!['m'] + repeat('\u{2588}', cells) + "\x1b[0m"@
                && legend_entry(k, l, true) == (if k != 0 {
                seq![',', ' ']
            } else {
                Seq::empty()
            }) + ("\x1b[38;5;"@ + code + "m\u{2588}\x1b[0m "@ + language_name(l)),
        exists|c: char|
            #![trigger repeat(c, cells)]
            segment(k, cells, false) == repeat(c, cells) && legend_entry(k, l, false) == (if k != 0 {
                seq![',', ' ']
            } else {
                Seq::empty()
            }) + (seq![c, ' '] + language_name(l)),
{
    let code = decimal(color_code(k % 36) as nat);
    assert(segment(k, cells, true) == "\x1b[38;5;"@ + code + seq!['m'] + repeat('\u{2588}', cells) + "\x1b[0m"@);
    assert(legend_entry(k, l, true) == (if k != 0 {
        seq![',', ' ']
    } else {
        Seq::empty()
    }) + ("\x1b[38;5;"@ + code + "m\u{2588}\x1b[0m "@ + language_name(l)));
    assert(code.len() == code.len());
    let c = symbol(k);
    assert(segment(k, cells, false) == repeat(c, cells));
}

/// Languages at different legend positions get different colours (the
/// first 36) and different letters (the first 62).
pub proof fn law_legend_identities_differ(a: nat, b: nat)
    requires
        a != b,
    ensures
        a < 36 && b < 36 ==> color_code(a) != color_code(b),
        a < 62 && b < 62 ==> symbol(a) != symbol(b),
{
    if a < 62 && b < 62 {
        assert(symbol(a) as u32 != symbol(b) as u32);
    }
}

} // verus!
