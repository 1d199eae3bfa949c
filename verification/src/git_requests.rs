//! What the program sends to git, and the small decisions it takes on what
//! git answers: which tree entries hold blobs, whether attributes may change
//! how files count, and how a failed command is reported.
use vstd::prelude::*;
use vstd::utf8::encode_utf8;
use crate::cli::{texts, CommitInterval};
use crate::diff_tree::{
    bytes_sub, commit_texts, history_view, lemma_split_bytes_len, nul_field_ranges, nul_fields, split_bytes, Delta, DeltaModel,
};
use crate::language::{file_name, find_after_last};
use crate::text::{
    chars_of, decode_text_lossy, join, lossy_text, string_of,
    bytes_eq, bytes_less, bytes_lt, lemma_bytes_lt_irreflexive, lemma_bytes_lt_total,
    lemma_bytes_lt_transitive, bytes_eq_text, push_char, push_str, starts_with_text, text_bytes, text_eq};

verus! {

/// Whether a tree entry of this mode has a blob as contents: a regular file
/// (`100644`, `100755`, ...) or a symbolic link (`120000`).
pub open spec fn mode_is_blob(mode: Seq<char>) -> bool {
    (mode.len() >= 3 && mode.take(3) == "100"@) || mode == "120000"@
}

/// Whether a tree entry of this mode has a blob as contents.
pub fn mode_has_blob(mode: &str) -> (r: bool)
    ensures
        r == mode_is_blob(mode@),
{
    proof {
        reveal_strlit("100");
    }
    starts_with_text(mode, "100") || text_eq(mode, "120000")
}

/// Whether `path` names a `.gitattributes` file, in any directory.
pub open spec fn is_attributes_file(path: Seq<u8>) -> bool {
    file_name(path) == encode_utf8(".gitattributes"@)
}

/// Whether some change of the history touches a `.gitattributes` file.
pub open spec fn touches_attributes(history: Seq<Seq<DeltaModel>>) -> bool {
    exists|i: int, j: int|
        0 <= i < history.len() && 0 <= j < history[i].len() && #[trigger] is_attributes_file(
            history[i][j].path,
        )
}

/// Whether the history ever changes a `.gitattributes` file, so that the
/// attributes, and with them what counts as text, may differ between commits.
pub fn uses_versioned_attributes(history: &[Vec<Delta>]) -> (r: bool)
    ensures
        r == touches_attributes(history_view(history@)),
{
    let ghost hv = history_view(history@);
    let mut i: usize = 0;
    while i < history.len()
        invariant
            i <= history.len(),
            hv == history_view(history@),
            forall|a: int, b: int|
                0 <= a < i && 0 <= b < hv[a].len() ==> !#[trigger] is_attributes_file(hv[a][b].path),
        decreases history.len() - i,
    {
        let changes = &history[i];
        let mut j: usize = 0;
        while j < changes.len()
            invariant
                i < history.len(),
                j <= changes.len(),
                changes == history@[i as int],
                hv == history_view(history@),
                hv[i as int].len() == changes.len(),
                forall|a: int, b: int|
                    0 <= a < i && 0 <= b < hv[a].len() ==> !#[trigger] is_attributes_file(hv[a][b].path),
                forall|b: int| 0 <= b < j ==> !#[trigger] is_attributes_file(hv[i as int][b].path),
            decreases changes.len() - j,
        {
            let path = changes[j].path.as_slice();
            assert(hv[i as int][j as int].path == path@);
            let named = match find_after_last(path, 0x2F) {
                Some(start) => bytes_eq_text(&path[start..path.len()], ".gitattributes"),
                None => bytes_eq_text(path, ".gitattributes"),
            };
            if named {
                assert(is_attributes_file(hv[i as int][j as int].path));
                return true;
            }
            j += 1;
        }
        i += 1;
    }
    false
}

/// The lines of `git diff-tree --stdin` input after the first: for each
/// commit from the second on, the commit and the one before it.
pub open spec fn pair_lines(commits: Seq<Seq<char>>, n: int) -> Seq<char>
    decreases n,
{
    if n <= 1 || n > commits.len() {
        Seq::empty()
    } else {
        pair_lines(commits, n - 1) + commits[n - 1] + " "@ + commits[n - 2] + "\n"@
    }
}

/// The input for `git diff-tree --stdin`: the first commit alone (compared
/// with the empty tree), then each commit with the one before it.
pub open spec fn diff_tree_request(commits: Seq<Seq<char>>) -> Seq<char> {
    if commits.len() == 0 {
        Seq::empty()
    } else {
        commits[0] + "\n"@ + pair_lines(commits, commits.len() as int)
    }
}

/// The input that makes `git diff-tree --stdin` report the changes of each
/// commit of `commits` (oldest first).
pub fn diff_tree_input(commits: &[&str]) -> (input: Vec<u8>)
    ensures
        input@ == encode_utf8(diff_tree_request(commit_texts(commits@))),
{
    let ghost cs = commit_texts(commits@);
    let mut text = String::new();
    if commits.len() > 0 {
        proof {
            reveal_strlit("\n");
            reveal_strlit(" ");
        }
        push_str(&mut text, commits[0]);
        push_char(&mut text, '\n');
        assert(cs[0] == commits@[0]@);
        let mut i: usize = 1;
        while i < commits.len()
            invariant
                1 <= i <= commits.len(),
                cs == commit_texts(commits@),
                text@ == cs[0] + "\n"@ + pair_lines(cs, i as int),
                "\n"@ == seq!['\n'],
                " "@ == seq![' '],
            decreases commits.len() - i,
        {
            let ghost before = text@;
            push_str(&mut text, commits[i]);
            push_char(&mut text, ' ');
            push_str(&mut text, commits[i - 1]);
            push_char(&mut text, '\n');
            assert(cs[i as int] == commits@[i as int]@);
            assert(cs[i - 1] == commits@[i - 1]@);
            assert(pair_lines(cs, i + 1) == pair_lines(cs, i as int) + cs[i as int] + " "@ + cs[i - 1] + "\n"@);
            assert(text@ =~= cs[0] + "\n"@ + pair_lines(cs, i + 1));
            i += 1;
        }
    }
    text_bytes(text.as_str())
}

/// The paths of all changes, commit by commit.
pub open spec fn change_paths(history: Seq<Seq<DeltaModel>>) -> Seq<Seq<u8>>
    decreases history.len(),
{
    if history.len() == 0 {
        Seq::empty()
    } else {
        change_paths(history.drop_last()) + history.last().map_values(|d: DeltaModel| d.path)
    }
}

/// Each item of `s` once, in the order in which it first occurs.
pub open spec fn first_occurrences<A>(s: Seq<A>) -> Seq<A>
    decreases s.len(),
{
    if s.len() == 0 {
        Seq::empty()
    } else if s.drop_last().contains(s.last()) {
        first_occurrences(s.drop_last())
    } else {
        first_occurrences(s.drop_last()).push(s.last())
    }
}

/// Each path is asked about once: the first occurrences hold every item of
/// `s` and none twice.
pub proof fn law_first_occurrences_once<A>(s: Seq<A>)
    ensures
        first_occurrences(s).no_duplicates(),
        forall|x: A| first_occurrences(s).contains(x) <==> s.contains(x),
    decreases s.len(),
{
    if s.len() > 0 {
        let d = s.drop_last();
        law_first_occurrences_once(d);
        let f = first_occurrences(d);
        assert forall|x: A| s.contains(x) <==> (d.contains(x) || x == s.last()) by {
            if s.contains(x) {
                let i = choose|i: int| 0 <= i < s.len() && s[i] == x;
                if i < d.len() {
                    assert(d[i] == x);
                }
            }
            if d.contains(x) {
                let i = choose|i: int| 0 <= i < d.len() && d[i] == x;
                assert(s[i] == x);
            }
            if x == s.last() {
                assert(s[s.len() - 1] == x);
            }
        }
        if !d.contains(s.last()) {
            let g = f.push(s.last());
            assert forall|x: A| g.contains(x) <==> (f.contains(x) || x == s.last()) by {
                if g.contains(x) {
                    let i = choose|i: int| 0 <= i < g.len() && g[i] == x;
                    if i < f.len() {
                        assert(f[i] == x);
                    }
                }
                if f.contains(x) {
                    let i = choose|i: int| 0 <= i < f.len() && f[i] == x;
                    assert(g[i] == x);
                }
                if x == s.last() {
                    assert(g[g.len() - 1] == x);
                }
            }
            assert forall|a: int, b: int| 0 <= a < g.len() && 0 <= b < g.len() && a != b implies g[a]
                != g[b] by {
                if a < f.len() && b < f.len() {
                    assert(g[a] == f[a] && g[b] == f[b]);
                } else if a < f.len() {
                    assert(f.contains(g[a]));
                } else {
                    assert(f.contains(g[b]));
                }
            }
        }
    }
}

/// The items, each followed by a NUL byte.
pub open spec fn nul_terminated(items: Seq<Seq<u8>>) -> Seq<u8>
    decreases items.len(),
{
    if items.len() == 0 {
        Seq::empty()
    } else {
        nul_terminated(items.drop_last()) + items.last().push(0u8)
    }
}

/// The byte strings of a vector of byte vectors.
pub open spec fn byte_strings(v: Seq<Vec<u8>>) -> Seq<Seq<u8>> {
    v.map_values(|b: Vec<u8>| b@)
}

/// Strictly increasing in byte order.
pub open spec fn strictly_sorted(s: Seq<Seq<u8>>) -> bool {
    forall|a: int, b: int| 0 <= a < b < s.len() ==> bytes_lt(#[trigger] s[a], #[trigger] s[b])
}

/// Where `p` belongs in the sorted `seen`, and whether it is there already.
pub(crate) fn locate(seen: &Vec<Vec<u8>>, p: &[u8]) -> (r: (usize, bool))
    requires
        strictly_sorted(byte_strings(seen@)),
    ensures
        r.0 <= seen.len(),
        forall|k: int| 0 <= k < r.0 ==> bytes_lt(#[trigger] byte_strings(seen@)[k], p@),
        forall|k: int| r.0 <= k < seen.len() && !r.1 ==> bytes_lt(p@, #[trigger] byte_strings(seen@)[k]),
        r.1 == byte_strings(seen@).contains(p@),
        r.1 ==> r.0 < seen.len() && byte_strings(seen@)[r.0 as int] == p@,
{
    let ghost sv = byte_strings(seen@);
    let mut lo: usize = 0;
    let mut hi: usize = seen.len();
    while lo < hi
        invariant
            lo <= hi <= seen.len(),
            sv == byte_strings(seen@),
            strictly_sorted(sv),
            forall|k: int| 0 <= k < lo ==> bytes_lt(#[trigger] sv[k], p@),
            forall|k: int| hi <= k < seen.len() ==> !bytes_lt(#[trigger] sv[k], p@),
        decreases hi - lo,
    {
        let mid = lo + (hi - lo) / 2;
        assert(sv[mid as int] == seen@[mid as int]@);
        if bytes_less(seen[mid].as_slice(), p) {
            assert forall|k: int| 0 <= k < mid + 1 implies bytes_lt(#[trigger] sv[k], p@) by {
                if k < mid {
                    lemma_bytes_lt_transitive(sv[k], sv[mid as int], p@);
                }
            }
            lo = mid + 1;
        } else {
            assert forall|k: int| mid <= k < seen.len() implies !bytes_lt(#[trigger] sv[k], p@) by {
                if k > mid && k < hi {
                    lemma_bytes_lt_total(sv[mid as int], p@);
                    if bytes_lt(sv[k], p@) {
                        if bytes_lt(p@, sv[mid as int]) {
                            lemma_bytes_lt_transitive(sv[k], p@, sv[mid as int]);
                            lemma_bytes_lt_transitive(sv[mid as int], sv[k], sv[mid as int]);
                            lemma_bytes_lt_irreflexive(sv[mid as int]);
                        } else {
                            lemma_bytes_lt_transitive(p@, sv[k], p@);
                            lemma_bytes_lt_irreflexive(p@);
                        }
                    }
                }
            }
            hi = mid;
        }
    }
    let found = lo < seen.len() && bytes_eq(seen[lo].as_slice(), p);
    proof {
        if lo < seen.len() {
            assert(sv[lo as int] == seen@[lo as int]@);
        }
        if !found {
            assert forall|k: int| lo <= k < seen.len() implies bytes_lt(p@, #[trigger] sv[k]) by {
                lemma_bytes_lt_total(sv[lo as int], p@);
                if k > lo {
                    lemma_bytes_lt_transitive(p@, sv[lo as int], sv[k]);
                }
            }
            assert forall|k: int| 0 <= k < sv.len() implies sv[k] != p@ by {
                if k < lo {
                    lemma_bytes_lt_irreflexive(p@);
                } else {
                    lemma_bytes_lt_irreflexive(p@);
                }
            }
        }
    }
    (lo, found)
}

/// The input for `git check-attr -z --stdin`: each path that the history
/// changes, once, in the order of its first change, followed by a NUL byte.
pub fn check_attr_input(history: &[Vec<Delta>]) -> (input: Vec<u8>)
    ensures
        input@ == nul_terminated(first_occurrences(change_paths(history_view(history@)))),
{
    let ghost hv = history_view(history@);
    let mut seen: Vec<Vec<u8>> = Vec::new();
    let mut input: Vec<u8> = Vec::new();
    let ghost mut done: Seq<Seq<u8>> = Seq::empty();
    let mut i: usize = 0;
    assert(byte_strings(seen@) =~= Seq::<Seq<u8>>::empty());
    while i < history.len()
        invariant
            i <= history.len(),
            hv == history_view(history@),
            done == change_paths(hv.take(i as int)),
            strictly_sorted(byte_strings(seen@)),
            forall|x: Seq<u8>| byte_strings(seen@).contains(x) <==> done.contains(x),
            input@ == nul_terminated(first_occurrences(done)),
        decreases history.len() - i,
    {
        let changes = &history[i];
        let ghost base = done;
        let ghost paths = hv[i as int].map_values(|d: DeltaModel| d.path);
        let mut j: usize = 0;
        assert(paths.take(0) =~= Seq::<Seq<u8>>::empty());
        assert(base + paths.take(0) =~= base);
        while j < changes.len()
            invariant
                i < history.len(),
                j <= changes.len(),
                changes == history@[i as int],
                hv == history_view(history@),
                paths == hv[i as int].map_values(|d: DeltaModel| d.path),
                paths.len() == changes.len(),
                done == base + paths.take(j as int),
                strictly_sorted(byte_strings(seen@)),
                forall|x: Seq<u8>| byte_strings(seen@).contains(x) <==> done.contains(x),
                input@ == nul_terminated(first_occurrences(done)),
            decreases changes.len() - j,
        {
            let path = changes[j].path.as_slice();
            assert(paths[j as int] == path@);
            let ghost old_seen = byte_strings(seen@);
            let ghost old_done = done;
            let (at, found) = locate(&seen, path);
            proof {
                done = done.push(path@);
                assert(done.drop_last() =~= old_done);
                assert(paths.take(j + 1) =~= paths.take(j as int).push(path@));
                assert(done =~= base + paths.take(j + 1));
            }
            if !found {
                let copy = bytes_sub(path, 0, path.len());
                assert(path@.subrange(0, path@.len() as int) =~= path@);
                seen.insert(at, copy);
                let ghost new_seen = byte_strings(seen@);
                assert(new_seen =~= old_seen.insert(at as int, path@));
                assert forall|a: int, b: int| 0 <= a < b < new_seen.len() implies bytes_lt(
                    #[trigger] new_seen[a],
                    #[trigger] new_seen[b],
                ) by {
                    if b < at {
                    } else if b == at {
                    } else if a < at {
                        lemma_bytes_lt_transitive(new_seen[a], path@, new_seen[b]);
                    } else if a == at {
                    } else {
                        assert(new_seen[a] == old_seen[a - 1]);
                        assert(new_seen[b] == old_seen[b - 1]);
                    }
                }
                assert forall|x: Seq<u8>| new_seen.contains(x) <==> done.contains(x) by {
                    if new_seen.contains(x) {
                        let k = choose|k: int| 0 <= k < new_seen.len() && new_seen[k] == x;
                        if k < at {
                            assert(old_seen[k] == x);
                        } else if k > at {
                            assert(old_seen[k - 1] == x);
                        }
                        if x != path@ {
                            assert(old_done.contains(x));
                            let m = choose|m: int| 0 <= m < old_done.len() && old_done[m] == x;
                            assert(done[m] == x);
                        } else {
                            assert(done[done.len() - 1] == x);
                        }
                    }
                    if done.contains(x) {
                        let m = choose|m: int| 0 <= m < done.len() && done[m] == x;
                        if m < old_done.len() {
                            assert(old_done[m] == x);
                            assert(old_done.contains(x));
                            assert(old_seen.contains(x));
                            let k = choose|k: int| 0 <= k < old_seen.len() && old_seen[k] == x;
                            if k < at {
                                assert(new_seen[k] == x);
                            } else {
                                assert(new_seen[k + 1] == x);
                            }
                        } else {
                            assert(new_seen[at as int] == x);
                        }
                    }
                }
                let mut k: usize = 0;
                let ghost before_input = input@;
                while k < path.len()
                    invariant
                        k <= path.len(),
                        input@ == before_input + path@.take(k as int),
                    decreases path.len() - k,
                {
                    input.push(path[k]);
                    assert(path@.take(k + 1) =~= path@.take(k as int).push(path@[k as int]));
                    k += 1;
                }
                input.push(0);
                proof {
                    assert(!old_done.contains(path@));
                    assert(path@.take(path@.len() as int) =~= path@);
                    assert(input@ =~= before_input + path@.push(0u8));
                    assert(done.last() == path@);
                    assert(first_occurrences(done) == first_occurrences(old_done).push(path@));
                    let fo = first_occurrences(done);
                    assert(fo.drop_last() =~= first_occurrences(old_done));
                    assert(nul_terminated(fo) == nul_terminated(fo.drop_last()) + fo.last().push(0u8));
                }
            } else {
                proof {
                    assert(old_seen.contains(path@));
                    assert(old_done.contains(path@));
                    assert(done.last() == path@);
                    assert(first_occurrences(done) == first_occurrences(old_done));
                    assert forall|x: Seq<u8>| old_seen.contains(x) <==> done.contains(x) by {
                        if done.contains(x) && x != path@ {
                            let m = choose|m: int| 0 <= m < done.len() && done[m] == x;
                            assert(old_done[m] == x);
                        }
                        if old_done.contains(x) {
                            let m = choose|m: int| 0 <= m < old_done.len() && old_done[m] == x;
                            assert(done[m] == x);
                        }
                    }
                }
            }
            j += 1;
        }
        proof {
            assert(paths.take(j as int) =~= paths);
            assert(hv.take(i + 1).drop_last() =~= hv.take(i as int));
            assert(hv.take(i + 1).last() == hv[i as int]);
        }
        i += 1;
    }
    assert(hv.take(history.len() as int) =~= hv);
    input
}

/// The fields that are not empty.
pub open spec fn nonempty_fields(fields: Seq<Seq<u8>>) -> Seq<Seq<u8>>
    decreases fields.len(),
{
    if fields.len() == 0 {
        Seq::empty()
    } else if fields.last().len() > 0 {
        nonempty_fields(fields.drop_last()).push(fields.last())
    } else {
        nonempty_fields(fields.drop_last())
    }
}

/// Whether field `k` is the attribute `diff` and the next field the value
/// `unspecified`.
pub open spec fn diff_unspecified(fields: Seq<Seq<u8>>, k: int) -> bool {
    fields[k] == encode_utf8("diff"@) && fields[k + 1] == encode_utf8("unspecified"@)
}

/// Whether some record of `git check-attr -z` output (path, attribute,
/// value, in fields `3k`, `3k + 1`, `3k + 2`) reports anything but the `diff`
/// attribute left unspecified.
pub open spec fn sets_diff_attribute(fields: Seq<Seq<u8>>) -> bool {
    exists|k: int|
        0 <= k < fields.len() - 1 && k % 3 == 1 && !#[trigger] diff_unspecified(fields, k)
}

/// What `parse_check_attr_output` gives: an error when the non-empty NUL
/// separated fields do not make whole records, else whether some path has
/// the `diff` attribute set or unset.
pub open spec fn check_attr_spec(stdout: Seq<u8>) -> Result<bool, Seq<char>> {
    let fields = nonempty_fields(split_bytes(stdout, 0));
    if fields.len() % 3 != 0 {
        Err("malformed git check-attr output"@)
    } else {
        Ok(sets_diff_attribute(fields))
    }
}

/// Reads the output of `git check-attr -z --stdin diff`: whether an attribute
/// file (also one outside the history, such as `.git/info/attributes`) sets
/// or unsets `diff` for one of the paths, which changes what counts as text.
pub fn parse_check_attr_output(stdout: &[u8]) -> (result: Result<bool, String>)
    ensures
        match (result, check_attr_spec(stdout@)) {
            (Ok(a), Ok(b)) => a == b,
            (Err(a), Err(b)) => a@ == b,
            _ => false,
        },
{
    let ghost all = split_bytes(stdout@, 0);
    let ghost pieces = nul_fields(stdout@);
    let ranges = nul_field_ranges(stdout);
    proof {
        lemma_split_bytes_len(stdout@, 0);
        if all.last().len() == 0 {
            assert(pieces == all.drop_last());
            assert(nonempty_fields(all) == nonempty_fields(pieces));
        } else {
            assert(pieces == all);
        }
    }
    let mut kept: Vec<(usize, usize)> = Vec::new();
    let mut i: usize = 0;
    while i < ranges.len()
        invariant
            i <= ranges.len() == pieces.len(),
            pieces == nul_fields(stdout@),
            forall|k: int|
                0 <= k < ranges@.len() ==> {
                    let (a, b) = #[trigger] ranges@[k];
                    a <= b <= stdout.len() && stdout@.subrange(a as int, b as int) == pieces[k]
                },
            kept@.len() == nonempty_fields(pieces.take(i as int)).len(),
            forall|k: int|
                0 <= k < kept@.len() ==> {
                    let (a, b) = #[trigger] kept@[k];
                    a <= b <= stdout.len() && stdout@.subrange(a as int, b as int) == nonempty_fields(
                        pieces.take(i as int),
                    )[k]
                },
        decreases ranges.len() - i,
    {
        let (a, b) = ranges[i];
        assert(pieces.take(i + 1).drop_last() =~= pieces.take(i as int));
        assert(pieces.take(i + 1).last() == pieces[i as int]);
        if a < b {
            kept.push((a, b));
        }
        i += 1;
    }
    assert(pieces.take(ranges.len() as int) =~= pieces);
    let ghost fields = nonempty_fields(pieces);
    if kept.len() % 3 != 0 {
        return Err(String::from_str("malformed git check-attr output"));
    }
    let mut k: usize = 0;
    while k < kept.len()
        invariant
            k <= kept.len(),
            kept.len() % 3 == 0,
            kept@.len() == fields.len(),
            fields == nonempty_fields(split_bytes(stdout@, 0)),
            forall|m: int|
                0 <= m < kept@.len() ==> {
                    let (a, b) = #[trigger] kept@[m];
                    a <= b <= stdout.len() && stdout@.subrange(a as int, b as int) == fields[m]
                },
            forall|m: int|
                0 <= m < k && m < fields.len() - 1 && m % 3 == 1 ==> #[trigger] diff_unspecified(fields, m),
        decreases kept.len() - k,
    {
        if k % 3 == 1 {
            let (a, b) = kept[k];
            let (c, d) = kept[k + 1];
            let attribute = &stdout[a..b];
            let value = &stdout[c..d];
            assert(attribute@ == fields[k as int]);
            assert(value@ == fields[k + 1]);
            if !bytes_eq_text(attribute, "diff") || !bytes_eq_text(value, "unspecified") {
                assert(!diff_unspecified(fields, k as int));
                assert(sets_diff_attribute(fields));
                return Ok(true);
            }
            assert(fields[k as int] == encode_utf8("diff"@));
            assert(fields[k + 1] == encode_utf8("unspecified"@));
        }
        assert forall|m: int| 0 <= m < k + 1 && m < fields.len() - 1 && m % 3 == 1 implies #[trigger] diff_unspecified(fields, m) by {
            if m == k {
                assert(fields[m] == encode_utf8("diff"@));
            }
        }
        k += 1;
    }
    Ok(false)
}

/// Unicode `White_Space`, which `char::is_whitespace` and `str::trim` go by.
pub open spec fn is_white_space(c: char) -> bool {
    let u = c as u32;
    (0x09 <= u <= 0x0D) || u == 0x20 || u == 0x85 || u == 0xA0 || u == 0x1680 || (0x2000 <= u
        <= 0x200A) || u == 0x2028 || u == 0x2029 || u == 0x202F || u == 0x205F || u == 0x3000
}

/// `s` without its leading white space.
pub open spec fn trim_start(s: Seq<char>) -> Seq<char>
    decreases s.len(),
{
    if s.len() > 0 && is_white_space(s[0]) {
        trim_start(s.drop_first())
    } else {
        s
    }
}

/// `s` without its trailing white space.
pub open spec fn trim_end(s: Seq<char>) -> Seq<char>
    decreases s.len(),
{
    if s.len() > 0 && is_white_space(s.last()) {
        trim_end(s.drop_last())
    } else {
        s
    }
}

/// `s` without leading and trailing white space (`str::trim`).
pub open spec fn trim(s: Seq<char>) -> Seq<char> {
    trim_end(trim_start(s))
}

/// Whether a character is Unicode white space.
fn white_space(c: char) -> (r: bool)
    ensures
        r == is_white_space(c),
{
    let u = c as u32;
    (0x09 <= u && u <= 0x0D) || u == 0x20 || u == 0x85 || u == 0xA0 || u == 0x1680 || (0x2000 <= u
        && u <= 0x200A) || u == 0x2028 || u == 0x2029 || u == 0x202F || u == 0x205F || u == 0x3000
}

/// `s` without leading and trailing white space.
pub fn trim_text(s: &str) -> (t: String)
    ensures
        t@ == trim(s@),
{
    let chars = chars_of(s);
    let n = chars.len();
    let mut a: usize = 0;
    assert(chars@.subrange(0, n as int) =~= chars@);
    while a < n && white_space(chars[a])
        invariant
            a <= n == chars@.len(),
            trim_start(chars@) == trim_start(chars@.subrange(a as int, n as int)),
        decreases n - a,
    {
        assert(chars@.subrange(a as int, n as int).drop_first() =~= chars@.subrange(a + 1, n as int));
        a += 1;
    }
    let mut b: usize = n;
    assert(trim_start(chars@) == chars@.subrange(a as int, n as int));
    while b > a && white_space(chars[b - 1])
        invariant
            a <= b <= n == chars@.len(),
            trim_end(chars@.subrange(a as int, n as int)) == trim_end(chars@.subrange(a as int, b as int)),
        decreases b - a,
    {
        assert(chars@.subrange(a as int, b as int).drop_last() =~= chars@.subrange(a as int, b - 1));
        b -= 1;
    }
    assert(chars@ == s@);
    string_of(&chars, a, b)
}

/// How a failed command is reported: with what it wrote to its standard
/// error, trimmed, or with its exit status when that is blank.
pub open spec fn failure_text(command: Seq<char>, detail: Seq<char>, status: Seq<char>) -> Seq<char> {
    if trim(detail).len() == 0 {
        command + " failed with "@ + status
    } else {
        command + " failed: "@ + trim(detail)
    }
}

/// The report of a failed command, `command` naming it, `detail` holding
/// what it wrote to its standard error and `status` the text of its exit
/// status.
pub fn command_failure(command: &str, detail: &str, status: &str) -> (message: String)
    ensures
        message@ == failure_text(command@, detail@, status@),
{
    let trimmed = trim_text(detail);
    let mut message = String::new();
    push_str(&mut message, command);
    if trimmed.as_str().is_empty() {
        push_str(&mut message, " failed with ");
        push_str(&mut message, status);
    } else {
        push_str(&mut message, " failed: ");
        push_str(&mut message, trimmed.as_str());
    }
    message
}

/// The report of a failed git command run with `args`: its standard error
/// (decoded with replacement characters), trimmed, or its exit status.
pub fn git_failure(args: &[&str], stderr: &[u8], status: &str) -> (message: String)
    ensures
        message@ == failure_text("git "@ + join(commit_texts(args@), " "@), lossy_text(stderr@), status@),
{
    let ghost parts = commit_texts(args@);
    let mut command = String::from_str("git ");
    let mut i: usize = 0;
    proof {
        reveal_strlit("git ");
    }
    while i < args.len()
        invariant
            i <= args.len(),
            parts == commit_texts(args@),
            command@ == "git "@ + join(parts.take(i as int), " "@),
        decreases args.len() - i,
    {
        let ghost before = command@;
        if i > 0 {
            push_str(&mut command, " ");
        }
        push_str(&mut command, args[i]);
        proof {
            let t = parts.take(i + 1);
            assert(t.drop_last() =~= parts.take(i as int));
            assert(t.last() == args@[i as int]@);
            if i == 0 {
                assert(parts.take(0) =~= Seq::<Seq<char>>::empty());
                assert(t.len() == 1);
                assert(command@ =~= "git "@ + join(t, " "@));
            } else {
                assert(command@ =~= "git "@ + join(t, " "@));
            }
        }
        i += 1;
    }
    assert(parts.take(args.len() as int) =~= parts);
    let detail = decode_text_lossy(stderr);
    command_failure(command.as_str(), detail.as_str(), status)
}

/// The `--date` format under which `git log` prints each commit's interval.
pub open spec fn interval_date_format(interval: CommitInterval) -> Seq<char> {
    match interval {
        CommitInterval::Daily => "%Y-%m-%d"@,
        CommitInterval::Weekly => "%G-W%V"@,
        CommitInterval::Monthly => "%Y-%m"@,
        CommitInterval::Yearly => "%Y"@,
    }
}

/// The `--date=format:` argument of `git log` that prints each commit's
/// interval: the day, the ISO week, the month or the year.
pub fn log_date_argument(interval: CommitInterval) -> (argument: String)
    ensures
        argument@ == "--date=format:"@ + interval_date_format(interval),
{
    let mut argument = String::from_str("--date=format:");
    let format = match interval {
        CommitInterval::Daily => "%Y-%m-%d",
        CommitInterval::Weekly => "%G-W%V",
        CommitInterval::Monthly => "%Y-%m",
        CommitInterval::Yearly => "%Y",
    };
    push_str(&mut argument, format);
    argument
}

/// Whether attributes may make a file count differently from commit to
/// commit, so that each commit must be counted as a whole with `git grep`:
/// `None` when the history changes a `.gitattributes` file; else the input
/// for `git check-attr` (an attribute file outside the history may still
/// apply, which `parse_check_attr_output` reads from its answer).
pub fn attribute_query(history: &[Vec<Delta>]) -> (query: Option<Vec<u8>>)
    ensures
        query is None <==> touches_attributes(history_view(history@)),
        query matches Some(input) ==> input@ == nul_terminated(
            first_occurrences(change_paths(history_view(history@))),
        ),
{
    if uses_versioned_attributes(history) {
        None
    } else {
        Some(check_attr_input(history))
    }
}

/// The arguments of the `git log` that lists the commits of the history:
/// only the first-parent path of `revision`, oldest first, each commit with
/// its date and time after a tab.
pub open spec fn history_log_spec(revision: Seq<char>) -> Seq<Seq<char>> {
    seq![
        "log"@,
        "--format=%H%x09%cd"@,
        "--date=format:%Y-%m-%d %H:%M:%S"@,
        "--reverse"@,
        "--first-parent"@,
        revision,
    ]
}

/// The arguments of the `git log` that lists the commits of the history.
pub fn history_log_arguments(revision: &str) -> (args: Vec<String>)
    ensures
        texts(args@) == history_log_spec(revision@),
{
    let mut args: Vec<String> = Vec::new();
    args.push(String::from_str("log"));
    args.push(String::from_str("--format=%H%x09%cd"));
    args.push(String::from_str("--date=format:%Y-%m-%d %H:%M:%S"));
    args.push(String::from_str("--reverse"));
    args.push(String::from_str("--first-parent"));
    args.push(String::from_str(revision));
    assert(texts(args@) =~= history_log_spec(revision@));
    args
}

/// The arguments of the `git log` that prints the interval of each commit of
/// the first-parent path of `revision`, oldest first.
pub open spec fn interval_log_spec(revision: Seq<char>, interval: CommitInterval) -> Seq<Seq<char>> {
    seq![
        "log"@,
        "--format=%cd"@,
        "--date=format:"@ + interval_date_format(interval),
        "--reverse"@,
        "--first-parent"@,
        revision,
    ]
}

/// The arguments of the `git log` that prints each commit's interval.
pub fn interval_log_arguments(revision: &str, interval: CommitInterval) -> (args: Vec<String>)
    ensures
        texts(args@) == interval_log_spec(revision@, interval),
{
    let mut args: Vec<String> = Vec::new();
    args.push(String::from_str("log"));
    args.push(String::from_str("--format=%cd"));
    args.push(log_date_argument(interval));
    args.push(String::from_str("--reverse"));
    args.push(String::from_str("--first-parent"));
    args.push(String::from_str(revision));
    assert(texts(args@) =~= interval_log_spec(revision@, interval));
    args
}

/// The arguments of the `git grep` that counts, per text file of `commit`,
/// its lines, or with `non_blank` its lines with something besides white
/// space (binary files left out).
pub open spec fn line_grep_spec(commit: Seq<char>, non_blank: bool) -> Seq<Seq<char>> {
    seq!["grep"@, "-I"@, "-c"@, if non_blank {
        "[^[:space:]]"@
    } else {
        "^"@
    }, commit, "--"@]
}

/// The arguments of the `git grep` that counts lines per text file.
pub fn line_grep_arguments(commit: &str, non_blank: bool) -> (args: Vec<String>)
    ensures
        texts(args@) == line_grep_spec(commit@, non_blank),
{
    let mut args: Vec<String> = Vec::new();
    args.push(String::from_str("grep"));
    args.push(String::from_str("-I"));
    args.push(String::from_str("-c"));
    if non_blank {
        args.push(String::from_str("[^[:space:]]"));
    } else {
        args.push(String::from_str("^"));
    }
    args.push(String::from_str(commit));
    args.push(String::from_str("--"));
    assert(texts(args@) =~= line_grep_spec(commit@, non_blank));
    args
}

/// The arguments of the `git grep` that counts the lines of each text file of
/// `commit`, the paths ending in NUL bytes.
pub open spec fn language_grep_spec(commit: Seq<char>) -> Seq<Seq<char>> {
    seq!["grep"@, "-I"@, "-c"@, "-z"@, "^"@, commit, "--"@]
}

/// The arguments of the `git grep` that counts lines per path.
pub fn language_grep_arguments(commit: &str) -> (args: Vec<String>)
    ensures
        texts(args@) == language_grep_spec(commit@),
{
    let mut args: Vec<String> = Vec::new();
    args.push(String::from_str("grep"));
    args.push(String::from_str("-I"));
    args.push(String::from_str("-c"));
    args.push(String::from_str("-z"));
    args.push(String::from_str("^"));
    args.push(String::from_str(commit));
    args.push(String::from_str("--"));
    assert(texts(args@) =~= language_grep_spec(commit@));
    args
}

/// Whether `git grep` answered: it succeeded, or it exited with status 1,
/// which only means that nothing matched.
pub fn grep_answered(success: bool, code: Option<i32>) -> (r: bool)
    ensures
        r == (success || code == Some(1i32)),
{
    success || code == Some(1i32)
}

/// The arguments of the `git diff-tree` that reads commits from its input
/// and reports every changed file of each (the first against the empty
/// tree), in raw form with full ids and NUL-separated fields, a rename as a
/// deletion and an addition.
pub open spec fn diff_tree_spec() -> Seq<Seq<char>> {
    seq!["diff-tree"@, "--stdin"@, "--root"@, "-r"@, "--raw"@, "-z"@, "--no-renames"@, "--no-abbrev"@]
}

/// The arguments of the `git diff-tree` that reports the changes.
pub fn diff_tree_arguments() -> (args: Vec<String>)
    ensures
        texts(args@) == diff_tree_spec(),
{
    let mut args: Vec<String> = Vec::new();
    args.push(String::from_str("diff-tree"));
    args.push(String::from_str("--stdin"));
    args.push(String::from_str("--root"));
    args.push(String::from_str("-r"));
    args.push(String::from_str("--raw"));
    args.push(String::from_str("-z"));
    args.push(String::from_str("--no-renames"));
    args.push(String::from_str("--no-abbrev"));
    assert(texts(args@) =~= diff_tree_spec());
    args
}

/// The arguments of the `git check-attr` that reads NUL-terminated paths and
/// reports their `diff` attribute.
pub open spec fn check_attr_spec_arguments() -> Seq<Seq<char>> {
    seq!["check-attr"@, "-z"@, "--stdin"@, "diff"@]
}

/// The arguments of the `git check-attr` that reports the `diff` attribute.
pub fn check_attr_arguments() -> (args: Vec<String>)
    ensures
        texts(args@) == check_attr_spec_arguments(),
{
    let mut args: Vec<String> = Vec::new();
    args.push(String::from_str("check-attr"));
    args.push(String::from_str("-z"));
    args.push(String::from_str("--stdin"));
    args.push(String::from_str("diff"));
    assert(texts(args@) =~= check_attr_spec_arguments());
    args
}

} // verus!
