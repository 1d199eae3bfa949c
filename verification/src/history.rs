//! The history of both line charts: which blobs the changes of the history
//! need counted, and the running totals those counts give commit by commit.
use vstd::prelude::*;
use vstd::utf8::{decode_utf8, encode_utf8};
use crate::blob::{
    add_language_lines, added_to, all_positive, language_added, law_language_steps_keep_positive, total_of, language_removed, remove_language_lines, removed_from,
    LineCount,
};
use crate::language::{classify_path, language_name, path_language, Language, LanguageCounts};
use crate::commit_log::pair_texts;
use crate::diff_tree::{history_view, Delta, DeltaModel};
use crate::snapshot::{LanguageSnapshot, Snapshot};
use crate::git_requests::{byte_strings, first_occurrences, law_first_occurrences_once, locate, mode_has_blob, mode_is_blob, strictly_sorted};
use crate::text::{bytes_lt, lemma_bytes_lt_transitive, text_bytes};

verus! {

broadcast use vstd::utf8::encode_utf8_decode_utf8;

/// The blobs one change needs counted: the old blob when the old mode holds
/// one (its lines leave), then the new blob when the new mode holds one.
pub open spec fn change_blobs(d: DeltaModel) -> Seq<Seq<char>> {
    (if mode_is_blob(d.old_mode) {
        seq![d.old_oid]
    } else {
        Seq::empty()
    }) + (if mode_is_blob(d.new_mode) {
        seq![d.new_oid]
    } else {
        Seq::empty()
    })
}

/// The blobs the changes of one commit need, in order.
pub open spec fn commit_blobs(changes: Seq<DeltaModel>) -> Seq<Seq<char>>
    decreases changes.len(),
{
    if changes.len() == 0 {
        Seq::empty()
    } else {
        commit_blobs(changes.drop_last()) + change_blobs(changes.last())
    }
}

/// The blobs the whole history needs, commit by commit, in order.
pub open spec fn blob_ids(history: Seq<Seq<DeltaModel>>) -> Seq<Seq<char>>
    decreases history.len(),
{
    if history.len() == 0 {
        Seq::empty()
    } else {
        blob_ids(history.drop_last()) + commit_blobs(history.last())
    }
}

/// The texts of a list of ids.
pub open spec fn oid_texts(oids: Seq<String>) -> Seq<Seq<char>> {
    oids.map_values(|s: String| s@)
}

/// Some change of the history needs blob `oid` counted.
pub open spec fn needs_blob(history: Seq<Seq<DeltaModel>>, oid: Seq<char>) -> bool {
    exists|i: int, j: int|
        0 <= i < history.len() && 0 <= j < history[i].len() && #[trigger] change_blobs(
            history[i][j],
        ).contains(oid)
}

proof fn lemma_commit_blobs_hold(cs: Seq<DeltaModel>, j: int, o: Seq<char>)
    requires
        0 <= j < cs.len(),
        change_blobs(cs[j]).contains(o),
    ensures
        commit_blobs(cs).contains(o),
    decreases cs.len(),
{
    let d = cs.drop_last();
    let c = change_blobs(cs.last());
    if j < cs.len() - 1 {
        assert(d[j] == cs[j]);
        lemma_commit_blobs_hold(d, j, o);
        let p = choose|p: int| 0 <= p < commit_blobs(d).len() && commit_blobs(d)[p] == o;
        assert(commit_blobs(cs)[p] == o);
    } else {
        let p = choose|p: int| 0 <= p < c.len() && c[p] == o;
        assert(commit_blobs(cs)[commit_blobs(d).len() + p] == o);
    }
}

proof fn lemma_blob_ids_hold(history: Seq<Seq<DeltaModel>>, i: int, o: Seq<char>)
    requires
        0 <= i < history.len(),
        commit_blobs(history[i]).contains(o),
    ensures
        blob_ids(history).contains(o),
    decreases history.len(),
{
    let d = history.drop_last();
    if i < history.len() - 1 {
        assert(d[i] == history[i]);
        lemma_blob_ids_hold(d, i, o);
        let p = choose|p: int| 0 <= p < blob_ids(d).len() && blob_ids(d)[p] == o;
        assert(blob_ids(history)[p] == o);
    } else {
        let c = commit_blobs(history.last());
        let p = choose|p: int| 0 <= p < c.len() && c[p] == o;
        assert(blob_ids(history)[blob_ids(d).len() + p] == o);
    }
}

/// The blobs to count cover the history: every blob some change needs is
/// among the first occurrences of the history's blobs (what `blobs_to_count`
/// gives), each once.
pub proof fn law_blobs_to_count_cover(history: Seq<Seq<DeltaModel>>, o: Seq<char>)
    requires
        needs_blob(history, o),
    ensures
        first_occurrences(blob_ids(history)).contains(o),
        first_occurrences(blob_ids(history)).no_duplicates(),
{
    let (i, j) = choose|i: int, j: int|
        0 <= i < history.len() && 0 <= j < history[i].len() && #[trigger] change_blobs(
            history[i][j],
        ).contains(o);
    lemma_commit_blobs_hold(history[i], j, o);
    lemma_blob_ids_hold(history, i, o);
    law_first_occurrences_once(blob_ids(history));
}

/// Inserts `key` at `at` in the sorted keys, where it belongs.
pub(crate) fn insert_key(keys: &mut Vec<Vec<u8>>, at: usize, key: Vec<u8>)
    requires
        strictly_sorted(byte_strings(old(keys)@)),
        at <= old(keys).len(),
        forall|k: int| 0 <= k < at ==> bytes_lt(#[trigger] byte_strings(old(keys)@)[k], key@),
        forall|k: int|
            at <= k < old(keys).len() ==> bytes_lt(key@, #[trigger] byte_strings(old(keys)@)[k]),
    ensures
        strictly_sorted(byte_strings(final(keys)@)),
        byte_strings(final(keys)@) == byte_strings(old(keys)@).insert(at as int, key@),
        forall|x: Seq<u8>|
            byte_strings(final(keys)@).contains(x) <==> (byte_strings(old(keys)@).contains(x) || x
                == key@),
{
    let ghost old_keys = byte_strings(keys@);
    let ghost k = key@;
    keys.insert(at, key);
    let ghost new_keys = byte_strings(keys@);
    assert(new_keys =~= old_keys.insert(at as int, k));
    assert forall|a: int, b: int| 0 <= a < b < new_keys.len() implies bytes_lt(
        #[trigger] new_keys[a],
        #[trigger] new_keys[b],
    ) by {
        if b < at {
        } else if b == at {
        } else if a < at {
            lemma_bytes_lt_transitive(new_keys[a], k, new_keys[b]);
        } else if a == at {
        } else {
            assert(new_keys[a] == old_keys[a - 1]);
            assert(new_keys[b] == old_keys[b - 1]);
        }
    }
    assert forall|x: Seq<u8>| new_keys.contains(x) <==> (old_keys.contains(x) || x == k) by {
        if new_keys.contains(x) {
            let p = choose|p: int| 0 <= p < new_keys.len() && new_keys[p] == x;
            if p < at {
                assert(old_keys[p] == x);
            } else if p > at {
                assert(old_keys[p - 1] == x);
            }
        }
        if old_keys.contains(x) {
            let p = choose|p: int| 0 <= p < old_keys.len() && old_keys[p] == x;
            if p < at {
                assert(new_keys[p] == x);
            } else {
                assert(new_keys[p + 1] == x);
            }
        }
        if x == k {
            assert(new_keys[at as int] == x);
        }
    }
}

/// The ids seen so far are the keys (their encodings), and `oids` lists them
/// once each in the order of first sight.
pub open spec fn tracks_ids(keys: Seq<Seq<u8>>, oids: Seq<Seq<char>>, seen: Seq<Seq<char>>) -> bool {
    &&& strictly_sorted(keys)
    &&& forall|o: Seq<char>| #[trigger] keys.contains(encode_utf8(o)) <==> seen.contains(o)
    &&& oids == first_occurrences(seen)
}

/// Notes that `oid` is needed.
fn note_blob(keys: &mut Vec<Vec<u8>>, oids: &mut Vec<String>, oid: &String, Ghost(seen): Ghost<Seq<Seq<char>>>)
    requires
        tracks_ids(byte_strings(old(keys)@), oid_texts(old(oids)@), seen),
    ensures
        tracks_ids(byte_strings(final(keys)@), oid_texts(final(oids)@), seen.push(oid@)),
{
    let key = text_bytes(oid.as_str());
    let (at, found) = locate(keys, key.as_slice());
    let ghost old_keys = byte_strings(keys@);
    let ghost old_oids = oid_texts(oids@);
    let ghost next = seen.push(oid@);
    assert(next.drop_last() =~= seen);
    assert(found == seen.contains(oid@));
    assert forall|o: Seq<char>| next.contains(o) <==> (seen.contains(o) || o == oid@) by {
        if next.contains(o) {
            let p = choose|p: int| 0 <= p < next.len() && next[p] == o;
            if p < seen.len() {
                assert(seen[p] == o);
            }
        }
        if seen.contains(o) {
            let p = choose|p: int| 0 <= p < seen.len() && seen[p] == o;
            assert(next[p] == o);
        }
        if o == oid@ {
            assert(next[seen.len() as int] == o);
        }
    }
    if !found {
        insert_key(keys, at, key);
        oids.push(oid.clone());
        assert(oid_texts(oids@) =~= old_oids.push(oid@));
        assert forall|o: Seq<char>| #[trigger] byte_strings(keys@).contains(encode_utf8(o)) <==> next.contains(o) by {
            if encode_utf8(o) == encode_utf8(oid@) {
                assert(decode_utf8(encode_utf8(o)) == decode_utf8(encode_utf8(oid@)));
            }
        }
    } else {
        assert forall|o: Seq<char>| #[trigger] old_keys.contains(encode_utf8(o)) <==> next.contains(o) by {
        }
    }
}

/// The blobs whose lines the history needs, each once, in the order in which
/// the changes first need them: for each change the old blob (when its mode
/// holds one), then the new one. Reading them in this order asks `git
/// cat-file` for each blob once, at its first use.
pub fn blobs_to_count(history: &[Vec<Delta>]) -> (oids: Vec<String>)
    ensures
        oid_texts(oids@) == first_occurrences(blob_ids(history_view(history@))),
{
    let ghost hv = history_view(history@);
    let mut keys: Vec<Vec<u8>> = Vec::new();
    let mut oids: Vec<String> = Vec::new();
    let ghost mut seen: Seq<Seq<char>> = Seq::empty();
    assert(byte_strings(keys@) =~= Seq::<Seq<u8>>::empty());
    assert(oid_texts(oids@) =~= Seq::<Seq<char>>::empty());
    assert(hv.take(0) =~= Seq::<Seq<DeltaModel>>::empty());
    let mut i: usize = 0;
    while i < history.len()
        invariant
            i <= history.len(),
            hv == history_view(history@),
            seen == blob_ids(hv.take(i as int)),
            tracks_ids(byte_strings(keys@), oid_texts(oids@), seen),
        decreases history.len() - i,
    {
        let changes = &history[i];
        let ghost base = seen;
        let ghost cs = hv[i as int];
        assert(cs.take(0) =~= Seq::<DeltaModel>::empty());
        let mut j: usize = 0;
        while j < changes.len()
            invariant
                i < history.len(),
                j <= changes.len(),
                changes == history@[i as int],
                hv == history_view(history@),
                cs == hv[i as int],
                cs.len() == changes.len(),
                seen == base + commit_blobs(cs.take(j as int)),
                tracks_ids(byte_strings(keys@), oid_texts(oids@), seen),
            decreases changes.len() - j,
        {
            let change = &changes[j];
            assert(cs[j as int] == change@);
            let ghost before = seen;
            if mode_has_blob(change.old_mode.as_str()) {
                note_blob(&mut keys, &mut oids, &change.old_oid, Ghost(seen));
                proof {
                    seen = seen.push(change.old_oid@);
                }
            }
            if mode_has_blob(change.new_mode.as_str()) {
                note_blob(&mut keys, &mut oids, &change.new_oid, Ghost(seen));
                proof {
                    seen = seen.push(change.new_oid@);
                }
            }
            proof {
                assert(cs.take(j + 1).drop_last() =~= cs.take(j as int));
                assert(cs.take(j + 1).last() == change@);
                assert(seen =~= before + change_blobs(change@));
                assert(seen =~= base + commit_blobs(cs.take(j + 1)));
            }
            j += 1;
        }
        proof {
            assert(cs.take(j as int) =~= cs);
            assert(hv.take(i + 1).drop_last() =~= hv.take(i as int));
            assert(hv.take(i + 1).last() == cs);
        }
        i += 1;
    }
    assert(hv.take(history.len() as int) =~= hv);
    oids
}

// ------------------------------------------------------------------------
// The counts of the blobs
// ------------------------------------------------------------------------

/// The count of each id: `counts[k]` belongs to `oids[k]`, the first position
/// of an id deciding when it occurs twice.
pub open spec fn count_map(oids: Seq<Seq<char>>, counts: Seq<LineCount>) -> Map<Seq<char>, LineCount>
    decreases oids.len(),
{
    if oids.len() == 0 {
        Map::empty()
    } else {
        let m = count_map(oids.drop_last(), counts);
        if m.contains_key(oids.last()) {
            m
        } else {
            m.insert(oids.last(), counts[oids.len() - 1])
        }
    }
}

proof fn lemma_count_map_domain(oids: Seq<Seq<char>>, counts: Seq<LineCount>)
    ensures
        forall|o: Seq<char>| #[trigger] count_map(oids, counts).contains_key(o) <==> oids.contains(o),
    decreases oids.len(),
{
    if oids.len() > 0 {
        let d = oids.drop_last();
        lemma_count_map_domain(d, counts);
        assert forall|o: Seq<char>| #[trigger] count_map(oids, counts).contains_key(o) <==> oids.contains(o) by {
            assert(count_map(d, counts).contains_key(o) == d.contains(o));
            if oids.contains(o) {
                let p = choose|p: int| 0 <= p < oids.len() && oids[p] == o;
                if p < d.len() {
                    assert(d[p] == o);
                }
            }
            if d.contains(o) {
                let p = choose|p: int| 0 <= p < d.len() && d[p] == o;
                assert(oids[p] == o);
            }
            if o == oids.last() {
                assert(oids[oids.len() - 1] == o);
            }
        }
    }
}

/// A sorted table of id encodings and their counts that agrees with `m`.
pub open spec fn table_holds(keys: Seq<Seq<u8>>, vals: Seq<LineCount>, m: Map<Seq<char>, LineCount>) -> bool {
    &&& keys.len() == vals.len()
    &&& strictly_sorted(keys)
    &&& forall|o: Seq<char>| #[trigger] m.contains_key(o) <==> keys.contains(encode_utf8(o))
    &&& forall|p: int|
        0 <= p < keys.len() ==> keys[p] == encode_utf8(decode_utf8(#[trigger] keys[p])) && m.contains_key(
            decode_utf8(keys[p]),
        ) && m[decode_utf8(keys[p])] == vals[p]
}

/// The table of the counts of `oids`.
fn count_table(oids: &[String], counts: &[LineCount]) -> (table: (Vec<Vec<u8>>, Vec<LineCount>))
    requires
        oids.len() == counts.len(),
    ensures
        table_holds(byte_strings(table.0@), table.1@, count_map(oid_texts(oids@), counts@)),
{
    let ghost os = oid_texts(oids@);
    let mut keys: Vec<Vec<u8>> = Vec::new();
    let mut vals: Vec<LineCount> = Vec::new();
    let mut k: usize = 0;
    assert(byte_strings(keys@) =~= Seq::<Seq<u8>>::empty());
    assert(os.take(0) =~= Seq::<Seq<char>>::empty());
    while k < oids.len()
        invariant
            k <= oids.len() == counts.len(),
            os == oid_texts(oids@),
            table_holds(byte_strings(keys@), vals@, count_map(os.take(k as int), counts@)),
        decreases oids.len() - k,
    {
        let ghost m = count_map(os.take(k as int), counts@);
        let ghost o = oids@[k as int]@;
        assert(os.take(k + 1).drop_last() =~= os.take(k as int));
        assert(os.take(k + 1).last() == o);
        let key = text_bytes(oids[k].as_str());
        let (at, found) = locate(&keys, key.as_slice());
        if !found {
            let ghost old_keys = byte_strings(keys@);
            let ghost old_vals = vals@;
            insert_key(&mut keys, at, key);
            vals.insert(at, counts[k]);
            let ghost m2 = m.insert(o, counts@[k as int]);
            let ghost nk = byte_strings(keys@);
            assert(count_map(os.take(k + 1), counts@) == m2);
            assert forall|x: Seq<char>| #[trigger] m2.contains_key(x) <==> nk.contains(encode_utf8(x)) by {
                if encode_utf8(x) == encode_utf8(o) {
                    assert(decode_utf8(encode_utf8(x)) == decode_utf8(encode_utf8(o)));
                }
            }
            assert forall|p: int| 0 <= p < nk.len() implies nk[p] == encode_utf8(decode_utf8(#[trigger] nk[p]))
                && m2.contains_key(decode_utf8(nk[p])) && m2[decode_utf8(nk[p])] == vals@[p] by {
                if p < at {
                    assert(nk[p] == old_keys[p]);
                    assert(vals@[p] == old_vals[p]);
                    assert(decode_utf8(nk[p]) != o);
                } else if p == at {
                    assert(nk[p] == encode_utf8(o));
                } else {
                    assert(nk[p] == old_keys[p - 1]);
                    assert(vals@[p] == old_vals[p - 1]);
                    assert(decode_utf8(nk[p]) != o);
                }
            }
        } else {
            assert(count_map(os.take(k + 1), counts@) == m);
        }
        k += 1;
    }
    assert(os.take(oids.len() as int) =~= os);
    (keys, vals)
}

/// The count of `oid` in the table.
fn count_of_blob(keys: &Vec<Vec<u8>>, vals: &Vec<LineCount>, oid: &str, Ghost(m): Ghost<Map<Seq<char>, LineCount>>) -> (c: LineCount)
    requires
        table_holds(byte_strings(keys@), vals@, m),
        m.contains_key(oid@),
    ensures
        c == m[oid@],
{
    let key = text_bytes(oid);
    let (at, found) = locate(keys, key.as_slice());
    assert(byte_strings(keys@)[at as int] == encode_utf8(oid@));
    assert(decode_utf8(encode_utf8(oid@)) == oid@);
    vals[at]
}

// ------------------------------------------------------------------------
// The line history
// ------------------------------------------------------------------------

/// The message when removing `removed` from `total` goes below zero.
pub open spec fn removal_error(total: LineCount, removed: LineCount, oid: Seq<char>) -> Seq<char> {
    if total.all < removed.all {
        "line count underflow while removing "@ + oid
    } else {
        "non-blank line count underflow while removing "@ + oid
    }
}

/// The message when adding `added` to `total` passes `u64`.
pub open spec fn addition_error(total: LineCount, added: LineCount, oid: Seq<char>) -> Seq<char> {
    if total.all + added.all > u64::MAX {
        "line count overflow while adding "@ + oid
    } else {
        "non-blank line count overflow while adding "@ + oid
    }
}

/// The totals after one change: the old blob's lines leave when its mode
/// holds a blob, then the new blob's lines come when its mode does.
pub open spec fn change_lines(total: LineCount, d: DeltaModel, m: Map<Seq<char>, LineCount>) -> Result<
    LineCount,
    Seq<char>,
> {
    let after_old = if mode_is_blob(d.old_mode) {
        match removed_from(total, m[d.old_oid]) {
            Some(t) => Ok(t),
            None => Err(removal_error(total, m[d.old_oid], d.old_oid)),
        }
    } else {
        Ok(total)
    };
    match after_old {
        Err(e) => Err(e),
        Ok(t) => if mode_is_blob(d.new_mode) {
            match added_to(t, m[d.new_oid]) {
                Some(t2) => Ok(t2),
                None => Err(addition_error(t, m[d.new_oid], d.new_oid)),
            }
        } else {
            Ok(t)
        },
    }
}

/// The totals after the changes of one commit, or the first error.
pub open spec fn commit_lines(total: LineCount, changes: Seq<DeltaModel>, m: Map<Seq<char>, LineCount>) -> Result<
    LineCount,
    Seq<char>,
>
    decreases changes.len(),
{
    if changes.len() == 0 {
        Ok(total)
    } else {
        match commit_lines(total, changes.drop_last(), m) {
            Err(e) => Err(e),
            Ok(t) => change_lines(t, changes.last(), m),
        }
    }
}

/// No lines.
pub open spec fn no_lines() -> LineCount {
    LineCount { all: 0, non_blank: 0 }
}

/// The totals after each of the first `n` commits, starting from no lines,
/// or the first error.
pub open spec fn line_totals(history: Seq<Seq<DeltaModel>>, m: Map<Seq<char>, LineCount>, n: nat) -> Result<
    Seq<LineCount>,
    Seq<char>,
>
    decreases n,
{
    if n == 0 {
        Ok(Seq::empty())
    } else {
        match line_totals(history, m, (n - 1) as nat) {
            Err(e) => Err(e),
            Ok(ts) => match commit_lines(
                if n == 1 {
                    no_lines()
                } else {
                    ts.last()
                },
                history[n - 1],
                m,
            ) {
                Err(e) => Err(e),
                Ok(t) => Ok(ts.push(t)),
            },
        }
    }
}

proof fn lemma_commit_err_stays(total: LineCount, cs: Seq<DeltaModel>, m: Map<Seq<char>, LineCount>, k: int)
    requires
        0 <= k <= cs.len(),
        commit_lines(total, cs.take(k), m) is Err,
    ensures
        commit_lines(total, cs, m) == commit_lines(total, cs.take(k), m),
    decreases cs.len() - k,
{
    if k == cs.len() {
        assert(cs.take(k) =~= cs);
    } else {
        assert(cs.take(k + 1).drop_last() =~= cs.take(k));
        lemma_commit_err_stays(total, cs, m, k + 1);
    }
}

proof fn lemma_totals_err_stays(history: Seq<Seq<DeltaModel>>, m: Map<Seq<char>, LineCount>, k: nat, n: nat)
    requires
        k <= n,
        line_totals(history, m, k) is Err,
    ensures
        line_totals(history, m, n) == line_totals(history, m, k),
    decreases n - k,
{
    if k < n {
        lemma_totals_err_stays(history, m, k, (n - 1) as nat);
    }
}

/// One of a count's two numbers: all lines, or the non-blank ones.
pub open spec fn lines_part(c: LineCount, all: bool) -> int {
    if all {
        c.all as int
    } else {
        c.non_blank as int
    }
}

/// The lines a change brings: its new blob's, less its old blob's.
pub open spec fn change_net(d: DeltaModel, m: Map<Seq<char>, LineCount>, all: bool) -> int {
    (if mode_is_blob(d.new_mode) {
        lines_part(m[d.new_oid], all)
    } else {
        0
    }) - (if mode_is_blob(d.old_mode) {
        lines_part(m[d.old_oid], all)
    } else {
        0
    })
}

/// The lines the changes of a commit bring.
pub open spec fn commit_net(changes: Seq<DeltaModel>, m: Map<Seq<char>, LineCount>, all: bool) -> int
    decreases changes.len(),
{
    if changes.len() == 0 {
        0
    } else {
        commit_net(changes.drop_last(), m, all) + change_net(changes.last(), m, all)
    }
}

/// The lines the first `n` commits bring.
pub open spec fn history_net(history: Seq<Seq<DeltaModel>>, m: Map<Seq<char>, LineCount>, n: nat, all: bool) -> int
    decreases n,
{
    if n == 0 {
        0
    } else {
        history_net(history, m, (n - 1) as nat, all) + commit_net(history[n - 1], m, all)
    }
}

proof fn lemma_commit_net(total: LineCount, cs: Seq<DeltaModel>, m: Map<Seq<char>, LineCount>, all: bool)
    requires
        commit_lines(total, cs, m) is Ok,
    ensures
        lines_part(commit_lines(total, cs, m)->Ok_0, all) == lines_part(total, all) + commit_net(cs, m, all),
    decreases cs.len(),
{
    if cs.len() > 0 {
        lemma_commit_net(total, cs.drop_last(), m, all);
    }
}

/// Each point of the line history is the running sum of the blob counts:
/// after commit `k`, the lines (all, and non-blank) are those that the
/// changes of commits `0..=k` brought, each new blob's lines added and each
/// old blob's taken away.
pub proof fn law_line_history_is_running_sum(
    history: Seq<Seq<DeltaModel>>,
    m: Map<Seq<char>, LineCount>,
    n: nat,
    k: int,
    all: bool,
)
    requires
        line_totals(history, m, n) is Ok,
        0 <= k < n,
    ensures
        line_totals(history, m, n)->Ok_0.len() == n,
        lines_part(line_totals(history, m, n)->Ok_0[k], all) == history_net(history, m, (k + 1) as nat, all),
    decreases n,
{
    let prev = line_totals(history, m, (n - 1) as nat);
    assert(prev is Ok);
    let ps = prev->Ok_0;
    let start = if n == 1 {
        no_lines()
    } else {
        ps.last()
    };
    assert(commit_lines(start, history[n - 1], m) is Ok);
    let t = commit_lines(start, history[n - 1], m)->Ok_0;
    assert(line_totals(history, m, n) == Ok::<Seq<LineCount>, Seq<char>>(ps.push(t)));
    lemma_commit_net(start, history[n - 1], m, all);
    assert(history_net(history, m, n, all) == history_net(history, m, (n - 1) as nat, all) + commit_net(
        history[n - 1],
        m,
        all,
    ));
    if n > 1 {
        law_line_history_is_running_sum(history, m, (n - 1) as nat, (n - 2) as int, all);
    } else {
        assert(ps.len() == 0);
    }
    assert(ps.push(t)[n - 1] == t);
    if n == 1 {
        assert(lines_part(start, all) == 0);
        assert(history_net(history, m, 0, all) == 0);
    }
    if n > 1 {
        law_line_history_is_running_sum(history, m, (n - 1) as nat, (n - 2) as int, all);
        assert(ps.last() == ps[n - 2]);
        if k < n - 1 {
            law_line_history_is_running_sum(history, m, (n - 1) as nat, k, all);
            assert(ps.push(t)[k] == ps[k]);
        }
    }
}

/// The snapshots are the commits, numbered from one, with the totals.
pub open spec fn snapshots_match(
    snapshots: Seq<Snapshot>,
    commits: Seq<(Seq<char>, Seq<char>)>,
    totals: Seq<LineCount>,
) -> bool {
    &&& snapshots.len() == totals.len()
    &&& forall|i: int|
        0 <= i < totals.len() ==> {
            &&& (#[trigger] snapshots[i]).sequence == i + 1
            &&& snapshots[i].commit@ == commits[i].0
            &&& snapshots[i].datetime@ == commits[i].1
            &&& snapshots[i].lines == totals[i].all
            &&& snapshots[i].non_blank_lines == totals[i].non_blank
        }
}

/// The line history along the commits (oldest first, each with its date)
/// from their changes: after each commit, the totals so far less the lines
/// of each old blob and plus those of each new blob, `counts[k]` being the
/// lines of blob `oids[k]`. A total below zero or beyond `u64` is an error,
/// the first one met, with the message of `LineCount::remove` or `add`.
#[verifier::rlimit(40)]
pub fn replay_line_history(
    commits: &[(String, String)],
    history: &[Vec<Delta>],
    oids: &[String],
    counts: &[LineCount],
) -> (result: Result<Vec<Snapshot>, String>)
    requires
        commits.len() == history.len(),
        oids.len() == counts.len(),
        forall|o: Seq<char>| needs_blob(history_view(history@), o) ==> oid_texts(oids@).contains(o),
    ensures
        match (result, line_totals(history_view(history@), count_map(oid_texts(oids@), counts@), history@.len())) {
            (Ok(s), Ok(ts)) => snapshots_match(s@, pair_texts(commits@), ts),
            (Err(a), Err(b)) => a@ == b,
            _ => false,
        },
{
    let ghost hv = history_view(history@);
    let ghost m = count_map(oid_texts(oids@), counts@);
    let ghost cm = pair_texts(commits@);
    proof {
        lemma_count_map_domain(oid_texts(oids@), counts@);
    }
    let (keys, vals) = count_table(oids, counts);
    let mut snapshots: Vec<Snapshot> = Vec::new();
    let mut total = LineCount { all: 0, non_blank: 0 };
    let ghost mut ts: Seq<LineCount> = Seq::empty();
    let mut i: usize = 0;
    while i < history.len()
        invariant
            i <= history.len() == commits.len(),
            hv == history_view(history@),
            m == count_map(oid_texts(oids@), counts@),
            cm == pair_texts(commits@),
            forall|o: Seq<char>| needs_blob(hv, o) ==> m.contains_key(o),
            table_holds(byte_strings(keys@), vals@, m),
            line_totals(hv, m, i as nat) == Ok::<Seq<LineCount>, Seq<char>>(ts),
            ts.len() == i,
            total == (if i == 0 {
                no_lines()
            } else {
                ts.last()
            }),
            snapshots_match(snapshots@, cm, ts),
        decreases history.len() - i,
    {
        let changes = &history[i];
        let ghost cs = hv[i as int];
        let ghost start = total;
        assert(cs.take(0) =~= Seq::<DeltaModel>::empty());
        let mut j: usize = 0;
        while j < changes.len()
            invariant
                i < history.len(),
                j <= changes.len(),
                changes == history@[i as int],
                hv == history_view(history@),
                cs == hv[i as int],
                cs.len() == changes.len(),
                i < commits.len(),
                forall|o: Seq<char>| needs_blob(hv, o) ==> m.contains_key(o),
                table_holds(byte_strings(keys@), vals@, m),
                commit_lines(start, cs.take(j as int), m) == Ok::<LineCount, Seq<char>>(total),
                m == count_map(oid_texts(oids@), counts@),
                cm == pair_texts(commits@),
                line_totals(hv, m, i as nat) == Ok::<Seq<LineCount>, Seq<char>>(ts),
                ts.len() == i,
                start == (if i == 0 {
                    no_lines()
                } else {
                    ts.last()
                }),
                snapshots_match(snapshots@, cm, ts),
            decreases changes.len() - j,
        {
            let change = &changes[j];
            assert(cs[j as int] == change@);
            assert(cs.take(j + 1).drop_last() =~= cs.take(j as int));
            assert(cs.take(j + 1).last() == change@);
            if mode_has_blob(change.old_mode.as_str()) {
                assert(change_blobs(change@).contains(change.old_oid@)) by {
                    assert(change_blobs(change@)[0] == change.old_oid@);
                }
                assert(needs_blob(hv, change.old_oid@));
                let removed = count_of_blob(&keys, &vals, change.old_oid.as_str(), Ghost(m));
                if let Err(message) = total.remove(removed, change.old_oid.as_str()) {
                    proof {
                        lemma_commit_err_stays(start, cs, m, j + 1);
                        assert(commit_lines(start, cs, m) == Err::<LineCount, Seq<char>>(message@));
                        assert(line_totals(hv, m, (i + 1) as nat) == Err::<Seq<LineCount>, Seq<char>>(message@));
                        lemma_totals_err_stays(hv, m, (i + 1) as nat, hv.len());
                    }
                    return Err(message);
                }
            }
            let ghost mid = total;
            if mode_has_blob(change.new_mode.as_str()) {
                assert(change_blobs(change@).contains(change.new_oid@)) by {
                    let c = change_blobs(change@);
                    assert(c[c.len() - 1] == change.new_oid@);
                }
                assert(needs_blob(hv, change.new_oid@));
                let added = count_of_blob(&keys, &vals, change.new_oid.as_str(), Ghost(m));
                if let Err(message) = total.add(added, change.new_oid.as_str()) {
                    proof {
                        lemma_commit_err_stays(start, cs, m, j + 1);
                        assert(commit_lines(start, cs, m) == Err::<LineCount, Seq<char>>(message@));
                        assert(line_totals(hv, m, (i + 1) as nat) == Err::<Seq<LineCount>, Seq<char>>(message@));
                        lemma_totals_err_stays(hv, m, (i + 1) as nat, hv.len());
                    }
                    return Err(message);
                }
            }
            j += 1;
        }
        assert(cs.take(j as int) =~= cs);
        assert(commits@[i as int].0@ == cm[i as int].0);
        let snapshot = Snapshot::new(i + 1, commits[i].0.as_str(), commits[i].1.as_str(), total.all, total.non_blank);
        let ghost old_ts = ts;
        proof {
            ts = ts.push(total);
        }
        snapshots.push(snapshot);
        assert(snapshots_match(snapshots@, cm, ts)) by {
            assert forall|k: int| 0 <= k < ts.len() implies (#[trigger] snapshots@[k]).sequence == k + 1 && snapshots@[k].commit@ == cm[k].0
                && snapshots@[k].datetime@ == cm[k].1 && snapshots@[k].lines == ts[k].all && snapshots@[k].non_blank_lines == ts[k].non_blank by {
                if k < old_ts.len() {
                    assert(ts[k] == old_ts[k]);
                }
            }
        }
        i += 1;
    }
    Ok(snapshots)
}

// ------------------------------------------------------------------------
// The language history
// ------------------------------------------------------------------------

/// The language totals after one change: the old blob's lines leave the
/// path's language when its mode holds a blob, then the new blob's lines come
/// to it when its mode does.
pub open spec fn change_languages(
    totals: Map<Language, u64>,
    d: DeltaModel,
    m: Map<Seq<char>, LineCount>,
) -> Result<Map<Language, u64>, Seq<char>> {
    let l = path_language(d.path);
    let after_old = if mode_is_blob(d.old_mode) {
        match language_removed(totals, l, m[d.old_oid].all) {
            Some(t) => Ok(t),
            None => Err(language_name(l) + " line count underflow while removing "@ + d.old_oid),
        }
    } else {
        Ok(totals)
    };
    match after_old {
        Err(e) => Err(e),
        Ok(t) => if mode_is_blob(d.new_mode) {
            match language_added(t, l, m[d.new_oid].all) {
                Some(t2) => Ok(t2),
                None => Err(language_name(l) + " line count overflow while adding "@ + d.new_oid),
            }
        } else {
            Ok(t)
        },
    }
}

/// The language totals after the changes of one commit, or the first error.
pub open spec fn commit_languages(
    totals: Map<Language, u64>,
    changes: Seq<DeltaModel>,
    m: Map<Seq<char>, LineCount>,
) -> Result<Map<Language, u64>, Seq<char>>
    decreases changes.len(),
{
    if changes.len() == 0 {
        Ok(totals)
    } else {
        match commit_languages(totals, changes.drop_last(), m) {
            Err(e) => Err(e),
            Ok(t) => change_languages(t, changes.last(), m),
        }
    }
}

/// The language totals after each of the first `n` commits, starting from
/// none, or the first error.
pub open spec fn language_totals(history: Seq<Seq<DeltaModel>>, m: Map<Seq<char>, LineCount>, n: nat) -> Result<
    Seq<Map<Language, u64>>,
    Seq<char>,
>
    decreases n,
{
    if n == 0 {
        Ok(Seq::empty())
    } else {
        match language_totals(history, m, (n - 1) as nat) {
            Err(e) => Err(e),
            Ok(ts) => match commit_languages(
                if n == 1 {
                    Map::empty()
                } else {
                    ts.last()
                },
                history[n - 1],
                m,
            ) {
                Err(e) => Err(e),
                Ok(t) => Ok(ts.push(t)),
            },
        }
    }
}

proof fn lemma_commit_languages_err_stays(
    totals: Map<Language, u64>,
    cs: Seq<DeltaModel>,
    m: Map<Seq<char>, LineCount>,
    k: int,
)
    requires
        0 <= k <= cs.len(),
        commit_languages(totals, cs.take(k), m) is Err,
    ensures
        commit_languages(totals, cs, m) == commit_languages(totals, cs.take(k), m),
    decreases cs.len() - k,
{
    if k == cs.len() {
        assert(cs.take(k) =~= cs);
    } else {
        assert(cs.take(k + 1).drop_last() =~= cs.take(k));
        lemma_commit_languages_err_stays(totals, cs, m, k + 1);
    }
}

proof fn lemma_language_totals_err_stays(history: Seq<Seq<DeltaModel>>, m: Map<Seq<char>, LineCount>, k: nat, n: nat)
    requires
        k <= n,
        language_totals(history, m, k) is Err,
    ensures
        language_totals(history, m, n) == language_totals(history, m, k),
    decreases n - k,
{
    if k < n {
        lemma_language_totals_err_stays(history, m, k, (n - 1) as nat);
    }
}

/// The lines a change brings to language `l`: those of a change to a path of
/// that language.
pub open spec fn change_language_net(d: DeltaModel, m: Map<Seq<char>, LineCount>, l: Language) -> int {
    if path_language(d.path) == l {
        change_net(d, m, true)
    } else {
        0
    }
}

/// The lines the changes of a commit bring to language `l`.
pub open spec fn commit_language_net(changes: Seq<DeltaModel>, m: Map<Seq<char>, LineCount>, l: Language) -> int
    decreases changes.len(),
{
    if changes.len() == 0 {
        0
    } else {
        commit_language_net(changes.drop_last(), m, l) + change_language_net(changes.last(), m, l)
    }
}

/// The lines the first `n` commits bring to language `l`.
pub open spec fn history_language_net(
    history: Seq<Seq<DeltaModel>>,
    m: Map<Seq<char>, LineCount>,
    n: nat,
    l: Language,
) -> int
    decreases n,
{
    if n == 0 {
        0
    } else {
        history_language_net(history, m, (n - 1) as nat, l) + commit_language_net(history[n - 1], m, l)
    }
}

proof fn lemma_commit_language_net(
    totals: Map<Language, u64>,
    cs: Seq<DeltaModel>,
    m: Map<Seq<char>, LineCount>,
    l: Language,
)
    requires
        commit_languages(totals, cs, m) is Ok,
    ensures
        total_of(commit_languages(totals, cs, m)->Ok_0, l) == total_of(totals, l) + commit_language_net(cs, m, l),
    decreases cs.len(),
{
    if cs.len() > 0 {
        lemma_commit_language_net(totals, cs.drop_last(), m, l);
    }
}

/// Each point of the language history is the running sum of the blob counts:
/// after commit `k`, the lines of each language are those that the changes of
/// commits `0..=k` to paths of that language brought (a language absent from
/// the totals having none).
pub proof fn law_language_history_is_running_sum(
    history: Seq<Seq<DeltaModel>>,
    m: Map<Seq<char>, LineCount>,
    n: nat,
    k: int,
    l: Language,
)
    requires
        language_totals(history, m, n) is Ok,
        0 <= k < n,
    ensures
        language_totals(history, m, n)->Ok_0.len() == n,
        total_of(language_totals(history, m, n)->Ok_0[k], l) == history_language_net(history, m, (k + 1) as nat, l),
    decreases n,
{
    let prev = language_totals(history, m, (n - 1) as nat);
    assert(prev is Ok);
    let ps = prev->Ok_0;
    let start = if n == 1 {
        Map::<Language, u64>::empty()
    } else {
        ps.last()
    };
    assert(commit_languages(start, history[n - 1], m) is Ok);
    let t = commit_languages(start, history[n - 1], m)->Ok_0;
    assert(language_totals(history, m, n) == Ok::<Seq<Map<Language, u64>>, Seq<char>>(ps.push(t)));
    lemma_commit_language_net(start, history[n - 1], m, l);
    assert(history_language_net(history, m, n, l) == history_language_net(history, m, (n - 1) as nat, l)
        + commit_language_net(history[n - 1], m, l));
    if n > 1 {
        law_language_history_is_running_sum(history, m, (n - 1) as nat, (n - 2) as int, l);
    } else {
        assert(ps.len() == 0);
    }
    assert(ps.push(t)[n - 1] == t);
    if n == 1 {
        assert(total_of(start, l) == 0);
        assert(history_language_net(history, m, 0, l) == 0);
    }
    if n > 1 {
        assert(ps.last() == ps[n - 2]);
        if k < n - 1 {
            law_language_history_is_running_sum(history, m, (n - 1) as nat, k, l);
            assert(ps.push(t)[k] == ps[k]);
        }
    }
}

proof fn lemma_commit_languages_positive(totals: Map<Language, u64>, cs: Seq<DeltaModel>, m: Map<Seq<char>, LineCount>)
    requires
        all_positive(totals),
        commit_languages(totals, cs, m) is Ok,
    ensures
        all_positive(commit_languages(totals, cs, m)->Ok_0),
    decreases cs.len(),
{
    if cs.len() > 0 {
        let d = cs.last();
        lemma_commit_languages_positive(totals, cs.drop_last(), m);
        let t = commit_languages(totals, cs.drop_last(), m)->Ok_0;
        let l = path_language(d.path);
        law_language_steps_keep_positive(t, l, m[d.old_oid].all);
        if mode_is_blob(d.old_mode) {
            let t1 = language_removed(t, l, m[d.old_oid].all);
            if t1 is Some {
                law_language_steps_keep_positive(t1->0, l, m[d.new_oid].all);
            }
        } else {
            law_language_steps_keep_positive(t, l, m[d.new_oid].all);
        }
    }
}

/// The language history holds only languages with lines: a language is in a
/// snapshot's totals only with a positive number of lines, so a file without
/// lines (binary or empty) leaves no trace.
pub proof fn law_language_history_has_no_empty_languages(
    history: Seq<Seq<DeltaModel>>,
    m: Map<Seq<char>, LineCount>,
    n: nat,
    k: int,
)
    requires
        language_totals(history, m, n) is Ok,
        0 <= k < n,
    ensures
        language_totals(history, m, n)->Ok_0.len() == n,
        all_positive(language_totals(history, m, n)->Ok_0[k]),
    decreases n,
{
    let prev = language_totals(history, m, (n - 1) as nat);
    assert(prev is Ok);
    let ps = prev->Ok_0;
    let start = if n == 1 {
        Map::<Language, u64>::empty()
    } else {
        ps.last()
    };
    if n > 1 {
        law_language_history_has_no_empty_languages(history, m, (n - 1) as nat, (n - 2) as int);
        assert(ps.last() == ps[n - 2]);
    } else {
        assert(ps.len() == 0);
    }
    assert(all_positive(start));
    assert(commit_languages(start, history[n - 1], m) is Ok);
    let t = commit_languages(start, history[n - 1], m)->Ok_0;
    lemma_commit_languages_positive(start, history[n - 1], m);
    assert(language_totals(history, m, n) == Ok::<Seq<Map<Language, u64>>, Seq<char>>(ps.push(t)));
    assert(ps.push(t)[n - 1] == t);
    if n > 1 && k < n - 1 {
        law_language_history_has_no_empty_languages(history, m, (n - 1) as nat, k);
        assert(ps.push(t)[k] == ps[k]);
    }
}

/// The language snapshots are the commits, numbered from one, with the
/// totals.
pub open spec fn language_snapshots_match(
    snapshots: Seq<LanguageSnapshot>,
    commits: Seq<(Seq<char>, Seq<char>)>,
    totals: Seq<Map<Language, u64>>,
) -> bool {
    &&& snapshots.len() == totals.len()
    &&& forall|i: int|
        0 <= i < totals.len() ==> {
            &&& (#[trigger] snapshots[i]).sequence == i + 1
            &&& snapshots[i].commit@ == commits[i].0
            &&& snapshots[i].datetime@ == commits[i].1
            &&& snapshots[i].lines@ == totals[i]
        }
}

/// The language history along the commits (oldest first, each with its
/// date) from their changes: after each commit, the lines of each language,
/// each changed path counted under its language, its old blob's lines leaving
/// and its new blob's lines coming, `counts[k]` being the lines of blob
/// `oids[k]`. A language whose lines fall to zero leaves the totals. A total
/// below zero or beyond `u64` is an error, the first one met.
#[verifier::rlimit(40)]
pub fn replay_language_history(
    commits: &[(String, String)],
    history: &[Vec<Delta>],
    oids: &[String],
    counts: &[LineCount],
) -> (result: Result<Vec<LanguageSnapshot>, String>)
    requires
        commits.len() == history.len(),
        oids.len() == counts.len(),
        forall|o: Seq<char>| needs_blob(history_view(history@), o) ==> oid_texts(oids@).contains(o),
    ensures
        match (result, language_totals(history_view(history@), count_map(oid_texts(oids@), counts@), history@.len())) {
            (Ok(s), Ok(ts)) => language_snapshots_match(s@, pair_texts(commits@), ts),
            (Err(a), Err(b)) => a@ == b,
            _ => false,
        },
{
    let ghost hv = history_view(history@);
    let ghost m = count_map(oid_texts(oids@), counts@);
    let ghost cm = pair_texts(commits@);
    proof {
        lemma_count_map_domain(oid_texts(oids@), counts@);
    }
    let (keys, vals) = count_table(oids, counts);
    let mut snapshots: Vec<LanguageSnapshot> = Vec::new();
    let mut totals = LanguageCounts::new();
    let ghost mut ts: Seq<Map<Language, u64>> = Seq::empty();
    let mut i: usize = 0;
    while i < history.len()
        invariant
            i <= history.len() == commits.len(),
            hv == history_view(history@),
            m == count_map(oid_texts(oids@), counts@),
            cm == pair_texts(commits@),
            forall|o: Seq<char>| needs_blob(hv, o) ==> m.contains_key(o),
            table_holds(byte_strings(keys@), vals@, m),
            language_totals(hv, m, i as nat) == Ok::<Seq<Map<Language, u64>>, Seq<char>>(ts),
            ts.len() == i,
            totals@ == (if i == 0 {
                Map::<Language, u64>::empty()
            } else {
                ts.last()
            }),
            language_snapshots_match(snapshots@, cm, ts),
        decreases history.len() - i,
    {
        let changes = &history[i];
        let ghost cs = hv[i as int];
        let ghost start = totals@;
        assert(cs.take(0) =~= Seq::<DeltaModel>::empty());
        let mut j: usize = 0;
        while j < changes.len()
            invariant
                i < history.len(),
                i < commits.len(),
                j <= changes.len(),
                changes == history@[i as int],
                hv == history_view(history@),
                cs == hv[i as int],
                cs.len() == changes.len(),
                forall|o: Seq<char>| needs_blob(hv, o) ==> m.contains_key(o),
                table_holds(byte_strings(keys@), vals@, m),
                commit_languages(start, cs.take(j as int), m) == Ok::<Map<Language, u64>, Seq<char>>(totals@),
                m == count_map(oid_texts(oids@), counts@),
                cm == pair_texts(commits@),
                language_totals(hv, m, i as nat) == Ok::<Seq<Map<Language, u64>>, Seq<char>>(ts),
                ts.len() == i,
                start == (if i == 0 {
                    Map::<Language, u64>::empty()
                } else {
                    ts.last()
                }),
                language_snapshots_match(snapshots@, cm, ts),
            decreases changes.len() - j,
        {
            let change = &changes[j];
            assert(cs[j as int] == change@);
            assert(cs.take(j + 1).drop_last() =~= cs.take(j as int));
            assert(cs.take(j + 1).last() == change@);
            let language = classify_path(change.path.as_slice());
            if mode_has_blob(change.old_mode.as_str()) {
                assert(change_blobs(change@).contains(change.old_oid@)) by {
                    assert(change_blobs(change@)[0] == change.old_oid@);
                }
                assert(needs_blob(hv, change.old_oid@));
                let removed = count_of_blob(&keys, &vals, change.old_oid.as_str(), Ghost(m));
                if let Err(message) = remove_language_lines(&mut totals, language, removed.all, change.old_oid.as_str()) {
                    proof {
                        lemma_commit_languages_err_stays(start, cs, m, j + 1);
                        assert(commit_languages(start, cs, m) == Err::<Map<Language, u64>, Seq<char>>(message@));
                        assert(language_totals(hv, m, (i + 1) as nat) == Err::<Seq<Map<Language, u64>>, Seq<char>>(message@));
                        lemma_language_totals_err_stays(hv, m, (i + 1) as nat, hv.len());
                    }
                    return Err(message);
                }
            }
            if mode_has_blob(change.new_mode.as_str()) {
                assert(change_blobs(change@).contains(change.new_oid@)) by {
                    let c = change_blobs(change@);
                    assert(c[c.len() - 1] == change.new_oid@);
                }
                assert(needs_blob(hv, change.new_oid@));
                let added = count_of_blob(&keys, &vals, change.new_oid.as_str(), Ghost(m));
                if let Err(message) = add_language_lines(&mut totals, language, added.all, change.new_oid.as_str()) {
                    proof {
                        lemma_commit_languages_err_stays(start, cs, m, j + 1);
                        assert(commit_languages(start, cs, m) == Err::<Map<Language, u64>, Seq<char>>(message@));
                        assert(language_totals(hv, m, (i + 1) as nat) == Err::<Seq<Map<Language, u64>>, Seq<char>>(message@));
                        lemma_language_totals_err_stays(hv, m, (i + 1) as nat, hv.len());
                    }
                    return Err(message);
                }
            }
            j += 1;
        }
        assert(cs.take(j as int) =~= cs);
        let snapshot = LanguageSnapshot::new(i + 1, commits[i].0.as_str(), commits[i].1.as_str(), totals.clone());
        let ghost old_ts = ts;
        proof {
            ts = ts.push(totals@);
        }
        snapshots.push(snapshot);
        assert(language_snapshots_match(snapshots@, cm, ts)) by {
            assert forall|k: int| 0 <= k < ts.len() implies (#[trigger] snapshots@[k]).sequence == k + 1 && snapshots@[k].commit@ == cm[k].0
                && snapshots@[k].datetime@ == cm[k].1 && snapshots@[k].lines@ == ts[k] by {
                if k < old_ts.len() {
                    assert(ts[k] == old_ts[k]);
                }
            }
        }
        i += 1;
    }
    Ok(snapshots)
}

} // verus!
