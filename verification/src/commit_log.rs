//! What `git log` prints: the commits of the first-parent history with their
//! dates, and the dates counted per calendar interval.
use vstd::prelude::*;
use vstd::utf8::{decode_utf8, valid_utf8};
use crate::lines::{line_at, lemma_text_lines_end, lemma_text_lines_start, text_lines};
use crate::numbers::find_char;
use crate::text::{
    chars_eq, chars_lt, chars_of, decode_text, lemma_seq_lt_irreflexive, lemma_seq_lt_total,
    lemma_seq_lt_transitive, push_str, seq_lt, string_of, utf8_error_text,
};
use crate::commit_chart::label_counts;
use crate::numbers::find_char_in;

verus! {

/// The message for output that is not UTF-8.
pub open spec fn non_utf8_log_message(bytes: Seq<u8>) -> Seq<char> {
    "git log returned non-UTF-8 output: "@ + utf8_error_text(bytes)
}

/// How many of `lines` equal `x`.
pub open spec fn count_of(lines: Seq<Seq<char>>, x: Seq<char>) -> nat
    decreases lines.len(),
{
    if lines.len() == 0 {
        0
    } else {
        count_of(lines.drop_last(), x) + if lines.last() == x {
            1nat
        } else {
            0nat
        }
    }
}

/// `tally` lists each distinct line once, in code point order, with the number
/// of times it occurs (what a sorted map from line to count holds).
pub open spec fn is_tally(lines: Seq<Seq<char>>, tally: Seq<(Seq<char>, u64)>) -> bool {
    &&& forall|i: int, j: int|
        0 <= i < j < tally.len() ==> seq_lt(#[trigger] tally[i].0, #[trigger] tally[j].0)
    &&& forall|x: Seq<char>|
        lines.contains(x) <==> exists|i: int| 0 <= i < tally.len() && #[trigger] tally[i].0 == x
    &&& forall|i: int| 0 <= i < tally.len() ==> #[trigger] tally[i].1 == count_of(lines, tally[i].0)
}

proof fn lemma_count_absent(lines: Seq<Seq<char>>, x: Seq<char>)
    requires
        !lines.contains(x),
    ensures
        count_of(lines, x) == 0,
    decreases lines.len(),
{
    if lines.len() > 0 {
        assert(!lines.drop_last().contains(x)) by {
            if lines.drop_last().contains(x) {
                let i = choose|i: int| 0 <= i < lines.drop_last().len() && lines.drop_last()[i] == x;
                assert(lines[i] == x);
            }
        }
        assert(lines[lines.len() - 1] != x);
        lemma_count_absent(lines.drop_last(), x);
    }
}

proof fn lemma_count_le(lines: Seq<Seq<char>>, x: Seq<char>)
    ensures
        count_of(lines, x) <= lines.len(),
    decreases lines.len(),
{
    if lines.len() > 0 {
        lemma_count_le(lines.drop_last(), x);
    }
}

/// The tally of keys and counts.
pub open spec fn tally_view(keys: Seq<Vec<char>>, counts: Seq<u64>) -> Seq<(Seq<char>, u64)> {
    Seq::new(keys.len(), |i: int| (keys[i]@, counts[i]))
}

/// Adds one line to a tally.
fn tally_add(
    keys: &mut Vec<Vec<char>>,
    counts: &mut Vec<u64>,
    line: Vec<char>,
    Ghost(lines): Ghost<Seq<Seq<char>>>,
)
    requires
        old(keys).len() == old(counts).len(),
        is_tally(lines, tally_view(old(keys)@, old(counts)@)),
        lines.len() < u64::MAX,
    ensures
        final(keys).len() == final(counts).len(),
        is_tally(lines.push(line@), tally_view(final(keys)@, final(counts)@)),
{
    let ghost t0 = tally_view(keys@, counts@);
    let ghost new_lines = lines.push(line@);
    assert(new_lines.drop_last() =~= lines);
    let mut p = keys.len();
    while p > 0 && chars_lt(&line, &keys[p - 1])
        invariant
            p <= keys.len(),
            keys@ == old(keys)@,
            forall|q: int| p <= q < keys.len() ==> seq_lt(line@, #[trigger] keys@[q]@),
        decreases p,
    {
        p -= 1;
    }
    if p > 0 && chars_eq(&keys[p - 1], &line) {
        let c = counts[p - 1];
        proof {
            assert(t0[p - 1] == (keys@[p - 1]@, c));
            assert(t0[p - 1].1 == count_of(lines, t0[p - 1].0));
            lemma_count_le(lines, line@);
        }
        counts.set(p - 1, c + 1);
        proof {
            let t1 = tally_view(keys@, counts@);
            assert forall|i: int| 0 <= i < t0.len() && i != p - 1 implies t0[i].0 != line@ by {
                if i < p - 1 {
                    assert(seq_lt(t0[i].0, t0[p - 1].0));
                } else {
                    assert(seq_lt(t0[p - 1].0, t0[i].0));
                }
                lemma_seq_lt_irreflexive(line@);
            }
            assert forall|x: Seq<char>|
                new_lines.contains(x) <==> exists|i: int| 0 <= i < t1.len() && #[trigger] t1[i].0
                    == x by {
                if new_lines.contains(x) {
                    let k = choose|k: int| 0 <= k < new_lines.len() && new_lines[k] == x;
                    if k < lines.len() {
                        assert(lines.contains(x));
                        let i = choose|i: int| 0 <= i < t0.len() && #[trigger] t0[i].0 == x;
                        assert(t1[i].0 == x);
                    } else {
                        assert(t1[p - 1].0 == x);
                    }
                }
                if exists|i: int| 0 <= i < t1.len() && #[trigger] t1[i].0 == x {
                    let i = choose|i: int| 0 <= i < t1.len() && #[trigger] t1[i].0 == x;
                    assert(t0[i].0 == x);
                    assert(lines.contains(x));
                    let k = choose|k: int| 0 <= k < lines.len() && lines[k] == x;
                    assert(new_lines[k] == x);
                }
            }
            assert forall|i: int| 0 <= i < t1.len() implies #[trigger] t1[i].1 == count_of(
                new_lines,
                t1[i].0,
            ) by {
                assert(t0[i].1 == count_of(lines, t0[i].0));
                assert(count_of(new_lines, t1[i].0) == count_of(lines, t1[i].0) + if line@ == t1[i].0 {
                    1nat
                } else {
                    0nat
                });
            }
            assert forall|i: int, j: int| 0 <= i < j < t1.len() implies seq_lt(
                #[trigger] t1[i].0,
                #[trigger] t1[j].0,
            ) by {
                assert(seq_lt(t0[i].0, t0[j].0));
            }
        }
    } else {
        proof {
            assert(!lines.contains(line@)) by {
                if lines.contains(line@) {
                    let i = choose|i: int| 0 <= i < t0.len() && #[trigger] t0[i].0 == line@;
                    if i >= p {
                        assert(seq_lt(line@, keys@[i]@));
                        lemma_seq_lt_irreflexive(line@);
                    } else if i < p - 1 {
                        assert(seq_lt(t0[i].0, t0[p - 1].0));
                        assert(!seq_lt(line@, keys@[p - 1]@));
                        lemma_seq_lt_total(line@, keys@[p - 1]@);
                        lemma_seq_lt_transitive(line@, keys@[p - 1]@, line@);
                        lemma_seq_lt_irreflexive(line@);
                    }
                }
            }
            lemma_count_absent(lines, line@);
            if p > 0 {
                lemma_seq_lt_total(line@, keys@[p - 1]@);
            }
        }
        let ghost k0 = keys@;
        let ghost c0 = counts@;
        keys.insert(p, line);
        counts.insert(p, 1);
        proof {
            let t1 = tally_view(keys@, counts@);
            let l = keys@[p as int]@;
            assert(t1.len() == t0.len() + 1);
            assert forall|i: int| 0 <= i < t1.len() implies #[trigger] t1[i] == (if i < p {
                t0[i]
            } else if i == p {
                (l, 1u64)
            } else {
                t0[i - 1]
            }) by {}
            assert forall|i: int, j: int| 0 <= i < j < t1.len() implies seq_lt(
                #[trigger] t1[i].0,
                #[trigger] t1[j].0,
            ) by {
                if j < p {
                    assert(seq_lt(t0[i].0, t0[j].0));
                } else if j == p {
                    if i < p - 1 {
                        assert(seq_lt(t0[i].0, t0[p - 1].0));
                        lemma_seq_lt_transitive(t0[i].0, t0[p - 1].0, l);
                    }
                } else if i < p {
                    assert(seq_lt(l, k0[j - 1]@));
                    if i < p - 1 {
                        assert(seq_lt(t0[i].0, t0[p - 1].0));
                        lemma_seq_lt_transitive(t0[i].0, t0[p - 1].0, l);
                    }
                    lemma_seq_lt_transitive(t0[i].0, l, t0[j - 1].0);
                } else if i == p {
                    assert(seq_lt(l, k0[j - 1]@));
                } else {
                    assert(seq_lt(t0[i - 1].0, t0[j - 1].0));
                }
            }
            assert forall|x: Seq<char>|
                new_lines.contains(x) <==> exists|i: int| 0 <= i < t1.len() && #[trigger] t1[i].0
                    == x by {
                if new_lines.contains(x) {
                    let k = choose|k: int| 0 <= k < new_lines.len() && new_lines[k] == x;
                    if k < lines.len() {
                        assert(lines.contains(x));
                        let i = choose|i: int| 0 <= i < t0.len() && #[trigger] t0[i].0 == x;
                        if i < p {
                            assert(t1[i].0 == x);
                        } else {
                            assert(t1[i + 1].0 == x);
                        }
                    } else {
                        assert(t1[p as int].0 == x);
                    }
                }
                if exists|i: int| 0 <= i < t1.len() && #[trigger] t1[i].0 == x {
                    let i = choose|i: int| 0 <= i < t1.len() && #[trigger] t1[i].0 == x;
                    if i == p {
                        assert(new_lines[lines.len() as int] == x);
                    } else {
                        let i0 = if i < p {
                            i
                        } else {
                            i - 1
                        };
                        assert(t0[i0].0 == x);
                        assert(lines.contains(x));
                        let k = choose|k: int| 0 <= k < lines.len() && lines[k] == x;
                        assert(new_lines[k] == x);
                    }
                }
            }
            assert forall|i: int| 0 <= i < t1.len() implies #[trigger] t1[i].1 == count_of(
                new_lines,
                t1[i].0,
            ) by {
                if i != p {
                    let i0 = if i < p {
                        i
                    } else {
                        i - 1
                    };
                    assert(t0[i0].1 == count_of(lines, t0[i0].0));
                    assert(t0[i0].0 != l) by {
                        let x = t0[i0].0;
                        assert(exists|q: int| 0 <= q < t0.len() && #[trigger] t0[q].0 == x);
                        assert(lines.contains(x));
                    }
                }
            }
        }
    }
}

/// Counts the dates that `git log --format=%cd` printed, one per line: each
/// distinct date once, in code point order (which is the byte order of the
/// text, as a sorted map keeps it), with the number of its lines. Output that
/// is not UTF-8 is an error.
pub fn count_commit_dates(stdout: &[u8]) -> (result: Result<Vec<(String, u64)>, String>)
    ensures
        result is Ok <==> valid_utf8(stdout@),
        result matches Ok(counts) ==> is_tally(
            text_lines(decode_utf8(stdout@)),
            label_counts(counts@),
        ),
        result matches Err(message) ==> message@ == non_utf8_log_message(stdout@),
{
    let text = match decode_text(stdout) {
        Ok(text) => text,
        Err(error) => {
            let mut message = String::from_str("git log returned non-UTF-8 output: ");
            push_str(&mut message, error.as_str());
            return Err(message);
        },
    };
    let chars = chars_of(text.as_str());
    let ghost all = text_lines(chars@);
    let mut keys: Vec<Vec<char>> = Vec::new();
    let mut counts: Vec<u64> = Vec::new();
    let ghost mut done: Seq<Seq<char>> = Seq::empty();
    let mut pos: usize = 0;
    proof {
        lemma_text_lines_start(chars@);
        assert(done + text_lines(chars@.skip(0)) =~= all);
    }
    while pos < chars.len()
        invariant
            pos <= chars.len(),
            all == text_lines(chars@),
            done + text_lines(chars@.skip(pos as int)) == all,
            done.len() <= pos,
            keys.len() == counts.len(),
            is_tally(done, tally_view(keys@, counts@)),
        decreases chars.len() - pos,
    {
        let (end, next) = line_at(&chars, pos);
        let line = chars_sub(&chars, pos, end);
        proof {
            assert(done.push(line@) + text_lines(chars@.skip(next as int)) =~= done + text_lines(
                chars@.skip(pos as int),
            ));
        }
        tally_add(&mut keys, &mut counts, line, Ghost(done));
        proof {
            done = done.push(chars@.subrange(pos as int, end as int));
        }
        pos = next;
    }
    proof {
        lemma_text_lines_end(chars@, pos as int);
        assert(done =~= all);
    }
    let mut result: Vec<(String, u64)> = Vec::new();
    let mut i: usize = 0;
    while i < keys.len()
        invariant
            i <= keys.len() == counts.len(),
            label_counts(result@) == tally_view(keys@, counts@).take(i as int),
        decreases keys.len() - i,
    {
        let key = string_of(&keys[i], 0, keys[i].len());
        assert(keys@[i as int]@.subrange(0, keys@[i as int]@.len() as int) =~= keys@[i as int]@);
        assert(key@ == keys@[i as int]@);
        let ghost before = result@;
        result.push((key, counts[i]));
        assert(label_counts(result@) =~= label_counts(before).push((keys@[i as int]@, counts@[i as int])));
        assert(label_counts(result@) =~= tally_view(keys@, counts@).take(i + 1));
        i += 1;
    }
    assert(tally_view(keys@, counts@).take(keys.len() as int) =~= tally_view(keys@, counts@));
    Ok(result)
}

/// A copy of `chars[from..to]`.
pub fn chars_sub(chars: &Vec<char>, from: usize, to: usize) -> (v: Vec<char>)
    requires
        from <= to <= chars.len(),
    ensures
        v@ == chars@.subrange(from as int, to as int),
{
    let mut v: Vec<char> = Vec::new();
    let mut i = from;
    while i < to
        invariant
            from <= i <= to <= chars.len(),
            v@ == chars@.subrange(from as int, i as int),
        decreases to - i,
    {
        v.push(chars[i]);
        assert(chars@.subrange(from as int, i + 1) =~= chars@.subrange(from as int, i as int).push(
            chars@[i as int],
        ));
        i += 1;
    }
    v
}

/// A line `commit<TAB>date` split at its first tab.
pub open spec fn split_tab(line: Seq<char>) -> Option<(Seq<char>, Seq<char>)> {
    match find_char(line, '\t', 0) {
        Some(p) => Some((line.take(p), line.skip(p + 1))),
        None => None,
    }
}

/// The commits and dates of the lines, or the first line without a tab.
pub open spec fn commit_entries(lines: Seq<Seq<char>>) -> Result<
    Seq<(Seq<char>, Seq<char>)>,
    Seq<char>,
>
    decreases lines.len(),
{
    if lines.len() == 0 {
        Ok(Seq::empty())
    } else {
        match commit_entries(lines.drop_last()) {
            Err(e) => Err(e),
            Ok(v) => match split_tab(lines.last()) {
                Some(pair) => Ok(v.push(pair)),
                None => Err("malformed git log output: "@ + lines.last()),
            },
        }
    }
}

/// The texts of commit/date pairs.
pub open spec fn pair_texts(pairs: Seq<(String, String)>) -> Seq<(Seq<char>, Seq<char>)> {
    pairs.map_values(|p: (String, String)| (p.0@, p.1@))
}

/// The commits of `git log --format=%H%x09%cd`, oldest first: each line split
/// at its first tab into the commit id and its date. Output that is not UTF-8,
/// or a line without a tab, is an error.
pub fn parse_commit_log(stdout: &[u8]) -> (result: Result<Vec<(String, String)>, String>)
    ensures
        !valid_utf8(stdout@) ==> (result matches Err(m) && m@ == non_utf8_log_message(stdout@)),
        valid_utf8(stdout@) ==> match (result, commit_entries(text_lines(decode_utf8(stdout@)))) {
            (Ok(v), Ok(w)) => pair_texts(v@) == w,
            (Err(m), Err(e)) => m@ == e,
            _ => false,
        },
{
    let text = match decode_text(stdout) {
        Ok(text) => text,
        Err(error) => {
            let mut message = String::from_str("git log returned non-UTF-8 output: ");
            push_str(&mut message, error.as_str());
            return Err(message);
        },
    };
    let chars = chars_of(text.as_str());
    let ghost all = text_lines(chars@);
    let ghost mut done: Seq<Seq<char>> = Seq::empty();
    let mut commits: Vec<(String, String)> = Vec::new();
    let mut pos: usize = 0;
    proof {
        lemma_text_lines_start(chars@);
        assert(done + text_lines(chars@.skip(0)) =~= all);
        assert(pair_texts(commits@) =~= Seq::<(Seq<char>, Seq<char>)>::empty());
    }
    while pos < chars.len()
        invariant
            valid_utf8(stdout@),
            chars@ == decode_utf8(stdout@),
            pos <= chars.len(),
            all == text_lines(chars@),
            done + text_lines(chars@.skip(pos as int)) == all,
            commit_entries(done) == Ok::<Seq<(Seq<char>, Seq<char>)>, Seq<char>>(
                pair_texts(commits@),
            ),
        decreases chars.len() - pos,
    {
        let (end, next) = line_at(&chars, pos);
        let line = chars_sub(&chars, pos, end);
        proof {
            assert(done.push(line@) + text_lines(chars@.skip(next as int)) =~= done + text_lines(
                chars@.skip(pos as int),
            ));
            assert(done.push(line@).drop_last() =~= done);
        }
        match find_char_in(&line, '\t', 0) {
            Some(tab) => {
                let commit = string_of(&line, 0, tab);
                let date = string_of(&line, tab + 1, line.len());
                proof {
                    assert(line@.take(tab as int) =~= line@.subrange(0, tab as int));
                    assert(line@.skip(tab + 1) =~= line@.subrange(tab + 1, line@.len() as int));
                }
                let ghost before = commits@;
                commits.push((commit, date));
                assert(split_tab(line@) == Some((line@.take(tab as int), line@.skip(tab + 1))));
                assert(pair_texts(commits@) =~= pair_texts(before).push(
                    (line@.take(tab as int), line@.skip(tab + 1)),
                ));
                assert(commit_entries(done.push(line@)) == Ok::<Seq<(Seq<char>, Seq<char>)>, Seq<char>>(
                    pair_texts(commits@),
                ));
            },
            None => {
                let mut message = String::from_str("malformed git log output: ");
                let shown = string_of(&line, 0, line.len());
                assert(line@.subrange(0, line@.len() as int) =~= line@);
                push_str(&mut message, shown.as_str());
                proof {
                    lemma_commit_entries_prefix_err(done.push(line@), text_lines(chars@.skip(next as int)));
                    assert(done.push(line@) + text_lines(chars@.skip(next as int)) == all);
                }
                return Err(message);
            },
        }
        proof {
            done = done.push(line@);
        }
        pos = next;
    }
    proof {
        lemma_text_lines_end(chars@, pos as int);
        assert(done =~= all);
    }
    Ok(commits)
}

/// An error in a prefix of the lines is the error of all lines.
proof fn lemma_commit_entries_prefix_err(prefix: Seq<Seq<char>>, rest: Seq<Seq<char>>)
    requires
        commit_entries(prefix) is Err,
    ensures
        commit_entries(prefix + rest) == commit_entries(prefix),
    decreases rest.len(),
{
    if rest.len() > 0 {
        lemma_commit_entries_prefix_err(prefix, rest.drop_last());
        assert((prefix + rest).drop_last() =~= prefix + rest.drop_last());
    } else {
        assert(prefix + rest =~= prefix);
    }
}

/// The sum of the counts of a tally.
pub open spec fn tally_total(tally: Seq<(Seq<char>, u64)>) -> nat
    decreases tally.len(),
{
    if tally.len() == 0 {
        0
    } else {
        tally_total(tally.drop_last()) + tally.last().1 as nat
    }
}

/// The occurrences in `lines` of each of `keys`, added up.
spec fn key_counts(lines: Seq<Seq<char>>, keys: Seq<Seq<char>>) -> nat
    decreases keys.len(),
{
    if keys.len() == 0 {
        0
    } else {
        key_counts(lines, keys.drop_last()) + count_of(lines, keys.last())
    }
}

/// How many of `keys` equal `x`.
spec fn hits(keys: Seq<Seq<char>>, x: Seq<char>) -> nat
    decreases keys.len(),
{
    if keys.len() == 0 {
        0
    } else {
        hits(keys.drop_last(), x) + if keys.last() == x {
            1nat
        } else {
            0nat
        }
    }
}

proof fn lemma_hits_once(keys: Seq<Seq<char>>, x: Seq<char>)
    requires
        keys.no_duplicates(),
    ensures
        hits(keys, x) == if keys.contains(x) {
            1nat
        } else {
            0nat
        },
    decreases keys.len(),
{
    if keys.len() > 0 {
        let d = keys.drop_last();
        lemma_hits_once(d, x);
        if keys.last() == x {
            assert(!d.contains(x)) by {
                if d.contains(x) {
                    let i = choose|i: int| 0 <= i < d.len() && d[i] == x;
                    assert(keys[i] == keys[keys.len() - 1]);
                }
            }
            assert(keys[keys.len() - 1] == x);
        } else {
            if keys.contains(x) {
                let i = choose|i: int| 0 <= i < keys.len() && keys[i] == x;
                assert(d[i] == x);
            }
            if d.contains(x) {
                let i = choose|i: int| 0 <= i < d.len() && d[i] == x;
                assert(keys[i] == x);
            }
        }
    }
}

proof fn lemma_key_counts_step(lines: Seq<Seq<char>>, keys: Seq<Seq<char>>)
    requires
        lines.len() > 0,
    ensures
        key_counts(lines, keys) == key_counts(lines.drop_last(), keys) + hits(keys, lines.last()),
    decreases keys.len(),
{
    if keys.len() > 0 {
        lemma_key_counts_step(lines, keys.drop_last());
    }
}

proof fn lemma_key_counts_all(lines: Seq<Seq<char>>, keys: Seq<Seq<char>>)
    requires
        keys.no_duplicates(),
        forall|x: Seq<char>| lines.contains(x) ==> keys.contains(x),
    ensures
        key_counts(lines, keys) == lines.len(),
    decreases lines.len(),
{
    if lines.len() == 0 {
        lemma_key_counts_empty(lines, keys);
    } else {
        let d = lines.drop_last();
        assert forall|x: Seq<char>| d.contains(x) implies keys.contains(x) by {
            let i = choose|i: int| 0 <= i < d.len() && d[i] == x;
            assert(lines[i] == x);
        }
        lemma_key_counts_all(d, keys);
        lemma_key_counts_step(lines, keys);
        assert(lines.contains(lines[lines.len() - 1]));
        lemma_hits_once(keys, lines.last());
    }
}

proof fn lemma_key_counts_empty(lines: Seq<Seq<char>>, keys: Seq<Seq<char>>)
    requires
        lines.len() == 0,
    ensures
        key_counts(lines, keys) == 0,
    decreases keys.len(),
{
    if keys.len() > 0 {
        lemma_key_counts_empty(lines, keys.drop_last());
    }
}

proof fn lemma_tally_total_keys(lines: Seq<Seq<char>>, tally: Seq<(Seq<char>, u64)>)
    requires
        forall|i: int| 0 <= i < tally.len() ==> #[trigger] tally[i].1 == count_of(lines, tally[i].0),
    ensures
        tally_total(tally) == key_counts(lines, tally.map_values(|p: (Seq<char>, u64)| p.0)),
    decreases tally.len(),
{
    if tally.len() > 0 {
        let d = tally.drop_last();
        lemma_tally_total_keys(lines, d);
        assert(tally.map_values(|p: (Seq<char>, u64)| p.0).drop_last() =~= d.map_values(
            |p: (Seq<char>, u64)| p.0,
        ));
        assert(tally[tally.len() - 1].1 == count_of(lines, tally[tally.len() - 1].0));
    }
}

/// Every line is counted once: the counts of a tally add up to the number of
/// lines (every commit of the history falls in exactly one interval).
pub proof fn law_tally_counts_every_line(lines: Seq<Seq<char>>, tally: Seq<(Seq<char>, u64)>)
    requires
        is_tally(lines, tally),
    ensures
        tally_total(tally) == lines.len(),
{
    let keys = tally.map_values(|p: (Seq<char>, u64)| p.0);
    lemma_tally_total_keys(lines, tally);
    assert forall|a: int, b: int| 0 <= a < keys.len() && 0 <= b < keys.len() && a != b implies keys[a]
        != keys[b] by {
        if a < b {
            assert(seq_lt(tally[a].0, tally[b].0));
        } else {
            assert(seq_lt(tally[b].0, tally[a].0));
        }
        lemma_seq_lt_irreflexive(keys[a]);
    }
    assert forall|x: Seq<char>| lines.contains(x) implies keys.contains(x) by {
        let i = choose|i: int| 0 <= i < tally.len() && #[trigger] tally[i].0 == x;
        assert(keys[i] == x);
    }
    lemma_key_counts_all(lines, keys);
}

} // verus!
