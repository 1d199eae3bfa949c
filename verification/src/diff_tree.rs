//! The changes of each commit, as `git diff-tree --stdin --root -r --raw -z
//! --no-renames --no-abbrev` reports them, and what they tell about the files.
use vstd::prelude::*;
use vstd::utf8::{decode_utf8, encode_utf8, valid_utf8};
use crate::language::file_name;
use crate::lines::{ascii_word_ranges, ascii_words};
use crate::text::{
    byte_len, bytes_eq, bytes_eq_text, chars_of, decode_text, decode_text_lossy, lemma_encode_utf8_concat,
    lossy_text, push_str, string_of, text_bytes, text_eq, utf8_error_text,
};

verus! {

broadcast use {vstd::utf8::encode_utf8_valid_utf8, vstd::utf8::encode_utf8_decode_utf8};

/// One file that a commit changed: the modes and object ids before and after,
/// and the path.
#[derive(Debug)]
pub struct Delta {
    pub old_mode: String,
    pub new_mode: String,
    pub old_oid: String,
    pub new_oid: String,
    pub path: Vec<u8>,
}

/// The mathematical model of a change.
pub struct DeltaModel {
    pub old_mode: Seq<char>,
    pub new_mode: Seq<char>,
    pub old_oid: Seq<char>,
    pub new_oid: Seq<char>,
    pub path: Seq<u8>,
}

impl View for Delta {
    type V = DeltaModel;

    open spec fn view(&self) -> DeltaModel {
        DeltaModel {
            old_mode: self.old_mode@,
            new_mode: self.new_mode@,
            old_oid: self.old_oid@,
            new_oid: self.new_oid@,
            path: self.path@,
        }
    }
}

/// The changes of each commit.
pub open spec fn history_view(history: Seq<Vec<Delta>>) -> Seq<Seq<DeltaModel>> {
    history.map_values(|changes: Vec<Delta>| changes@.map_values(|d: Delta| d@))
}

/// The pieces of `s` between the bytes `sep` (one more than there are `sep`).
pub open spec fn split_bytes(s: Seq<u8>, sep: u8) -> Seq<Seq<u8>>
    decreases s.len(),
{
    if s.len() == 0 {
        seq![Seq::empty()]
    } else if s.last() == sep {
        split_bytes(s.drop_last(), sep).push(Seq::empty())
    } else {
        let p = split_bytes(s.drop_last(), sep);
        p.update(p.len() - 1, p.last().push(s.last()))
    }
}

/// The NUL-separated fields of the output, without the empty one after a
/// final NUL.
pub open spec fn nul_fields(output: Seq<u8>) -> Seq<Seq<u8>> {
    let p = split_bytes(output, 0);
    if p.last().len() == 0 {
        p.drop_last()
    } else {
        p
    }
}

/// The changes that follow a commit's header, from field `cursor` on: each
/// is a `:`-field of five words (modes, ids and a one-byte status) and a path
/// field. Gives the changes and the field after them, or the first error.
pub open spec fn block_changes(fields: Seq<Seq<u8>>, cursor: int, acc: Seq<DeltaModel>) -> Result<
    (Seq<DeltaModel>, int),
    Seq<char>,
>
    decreases fields.len() - cursor,
{
    if 0 <= cursor < fields.len() && fields[cursor].len() > 0 && fields[cursor][0] == 0x3Au8 {
        let meta = fields[cursor].skip(1);
        if !valid_utf8(meta) {
            Err("non-UTF-8 diff-tree metadata: "@ + utf8_error_text(meta))
        } else {
            let metadata = decode_utf8(meta);
            let words = ascii_words(metadata);
            if words.len() != 5 {
                Err("malformed diff-tree metadata: "@ + metadata)
            } else if byte_len(words[4]) != 1 {
                Err("unexpected diff-tree status: "@ + metadata)
            } else if cursor + 1 >= fields.len() {
                Err("missing path after diff-tree metadata"@)
            } else {
                block_changes(
                    fields,
                    cursor + 2,
                    acc.push(
                        DeltaModel {
                            old_mode: words[0],
                            new_mode: words[1],
                            old_oid: words[2],
                            new_oid: words[3],
                            path: fields[cursor + 1],
                        },
                    ),
                )
            }
        }
    } else {
        Ok((acc, cursor))
    }
}

/// The changes of commits `k..` from field `cursor` on: each commit's id as a
/// header field, then its changes; after the last commit no field may remain.
pub open spec fn commit_blocks(
    fields: Seq<Seq<u8>>,
    commits: Seq<Seq<char>>,
    k: int,
    cursor: int,
    acc: Seq<Seq<DeltaModel>>,
) -> Result<Seq<Seq<DeltaModel>>, Seq<char>>
    decreases commits.len() - k,
{
    if k < 0 || k >= commits.len() {
        if cursor != fields.len() {
            Err("unexpected trailing diff-tree output"@)
        } else {
            Ok(acc)
        }
    } else if cursor < 0 || cursor >= fields.len() {
        Err("missing diff-tree header for "@ + commits[k])
    } else if fields[cursor] != encode_utf8(commits[k]) {
        Err("unexpected diff-tree header: "@ + lossy_text(fields[cursor]))
    } else {
        match block_changes(fields, cursor + 1, Seq::empty()) {
            Err(e) => Err(e),
            Ok((changes, next)) => commit_blocks(fields, commits, k + 1, next, acc.push(changes)),
        }
    }
}

/// The texts of the commit ids.
pub open spec fn commit_texts(commits: Seq<&str>) -> Seq<Seq<char>> {
    commits.map_values(|c: &str| c@)
}

/// What `parse_diff_history` gives.
pub open spec fn diff_history_spec(output: Seq<u8>, commits: Seq<Seq<char>>) -> Result<
    Seq<Seq<DeltaModel>>,
    Seq<char>,
> {
    commit_blocks(nul_fields(output), commits, 0, 0, Seq::empty())
}

pub(crate) proof fn lemma_split_bytes_len(s: Seq<u8>, sep: u8)
    ensures
        split_bytes(s, sep).len() >= 1,
        split_bytes(s, sep).len() <= s.len() + 1,
    decreases s.len(),
{
    if s.len() > 0 {
        lemma_split_bytes_len(s.drop_last(), sep);
    }
}

/// Every character has an encoding of at least one byte.
pub(crate) proof fn lemma_byte_len_ge(s: Seq<char>)
    ensures
        byte_len(s) >= s.len(),
        s.len() >= 1 ==> byte_len(s) >= byte_len(seq![s[0]]) + s.len() - 1,
    decreases s.len(),
{
    if s.len() > 0 {
        lemma_byte_len_ge(s.drop_first());
        vstd::utf8::char_is_scalar(s[0]);
        lemma_encode_utf8_concat(seq![s[0]], s.drop_first());
        assert(seq![s[0]] + s.drop_first() =~= s);
        assert(seq![s[0]].drop_first() =~= Seq::<char>::empty());
    }
}

/// A text is one byte long exactly when it is one ASCII character.
proof fn lemma_one_byte(s: Seq<char>)
    ensures
        (byte_len(s) == 1) == (s.len() == 1 && (s[0] as u32) < 0x80),
{
    lemma_byte_len_ge(s);
    if s.len() >= 1 {
        vstd::utf8::char_is_scalar(s[0]);
        assert(seq![s[0]].drop_first() =~= Seq::<char>::empty());
        assert(encode_utf8(Seq::<char>::empty()) =~= Seq::<u8>::empty());
        assert(encode_utf8(seq![s[0]]) == vstd::utf8::encode_scalar(s[0] as u32) + encode_utf8(
            seq![s[0]].drop_first(),
        ));
        if s.len() == 1 {
            assert(s =~= seq![s[0]]);
        }
    } else {
        assert(encode_utf8(s) =~= Seq::<u8>::empty());
    }
}

/// The fields of the output as index ranges.
pub(crate) fn nul_field_ranges(output: &[u8]) -> (ranges: Vec<(usize, usize)>)
    ensures
        ranges@.len() == nul_fields(output@).len(),
        forall|k: int|
            0 <= k < ranges@.len() ==> {
                let (a, b) = #[trigger] ranges@[k];
                a <= b <= output.len() && output@.subrange(a as int, b as int) == nul_fields(
                    output@,
                )[k]
            },
{
    let mut ranges: Vec<(usize, usize)> = Vec::new();
    let mut start: usize = 0;
    let mut i: usize = 0;
    assert(output@.take(0) =~= Seq::<u8>::empty());
    while i < output.len()
        invariant
            start <= i <= output.len(),
            split_bytes(output@.take(i as int), 0) == Seq::new(
                ranges@.len(),
                |k: int| output@.subrange(ranges@[k].0 as int, ranges@[k].1 as int),
            ).push(output@.subrange(start as int, i as int)),
            forall|k: int| 0 <= k < ranges@.len() ==> (#[trigger] ranges@[k]).0 <= ranges@[k].1 <= output.len(),
        decreases output.len() - i,
    {
        let ghost before = ranges@;
        let ghost prefix = output@.take(i as int);
        assert(output@.take(i + 1).drop_last() =~= prefix);
        if output[i] == 0 {
            ranges.push((start, i));
            proof {
                assert(Seq::new(
                    ranges@.len(),
                    |k: int| output@.subrange(ranges@[k].0 as int, ranges@[k].1 as int),
                ) =~= Seq::new(
                    before.len(),
                    |k: int| output@.subrange(before[k].0 as int, before[k].1 as int),
                ).push(output@.subrange(start as int, i as int)));
                assert(output@.subrange(i + 1, i + 1) =~= Seq::<u8>::empty());
            }
            start = i + 1;
        } else {
            proof {
                assert(output@.subrange(start as int, i + 1) =~= output@.subrange(
                    start as int,
                    i as int,
                ).push(output@[i as int]));
                let p = split_bytes(prefix, 0);
                assert(split_bytes(output@.take(i + 1), 0) =~= p.update(
                    p.len() - 1,
                    p.last().push(output@[i as int]),
                ));
            }
        }
        i += 1;
    }
    assert(output@.take(output.len() as int) =~= output@);
    if start < output.len() {
        ranges.push((start, output.len()));
    } else {
        proof {
            assert(output@.subrange(start as int, output.len() as int) =~= Seq::<u8>::empty());
        }
    }
    proof {
        assert(ranges@.len() == nul_fields(output@).len());
    }
    ranges
}

/// A copy of `bytes[from..to]`.
pub(crate) fn bytes_sub(bytes: &[u8], from: usize, to: usize) -> (v: Vec<u8>)
    requires
        from <= to <= bytes.len(),
    ensures
        v@ == bytes@.subrange(from as int, to as int),
{
    let mut v: Vec<u8> = Vec::new();
    let mut i = from;
    while i < to
        invariant
            from <= i <= to <= bytes.len(),
            v@ == bytes@.subrange(from as int, i as int),
        decreases to - i,
    {
        v.push(bytes[i]);
        assert(bytes@.subrange(from as int, i + 1) =~= bytes@.subrange(from as int, i as int).push(
            bytes@[i as int],
        ));
        i += 1;
    }
    v
}

/// The metadata of a change: `Ok` with the five words when it is UTF-8 of
/// five words with a one-byte status, else the error.
pub open spec fn change_metadata(meta: Seq<u8>) -> Result<Seq<Seq<char>>, Seq<char>> {
    if !valid_utf8(meta) {
        Err("non-UTF-8 diff-tree metadata: "@ + utf8_error_text(meta))
    } else {
        let metadata = decode_utf8(meta);
        let words = ascii_words(metadata);
        if words.len() != 5 {
            Err("malformed diff-tree metadata: "@ + metadata)
        } else if byte_len(words[4]) != 1 {
            Err("unexpected diff-tree status: "@ + metadata)
        } else {
            Ok(words)
        }
    }
}

/// Reads the metadata of a change (the field after its `:`).
fn read_metadata(meta: &[u8]) -> (result: Result<(String, String, String, String), String>)
    ensures
        match (result, change_metadata(meta@)) {
            (Ok(r), Ok(w)) => r.0@ == w[0] && r.1@ == w[1] && r.2@ == w[2] && r.3@ == w[3],
            (Err(m), Err(e)) => m@ == e,
            _ => false,
        },
{
    let text = match decode_text(meta) {
        Ok(text) => text,
        Err(error) => {
            let mut message = String::from_str("non-UTF-8 diff-tree metadata: ");
            push_str(&mut message, error.as_str());
            return Err(message);
        },
    };
    let chars = chars_of(text.as_str());
    let words = ascii_word_ranges(&chars);
    if words.len() != 5 {
        let mut message = String::from_str("malformed diff-tree metadata: ");
        push_str(&mut message, text.as_str());
        return Err(message);
    }
    let (a4, b4) = words[4];
    proof {
        lemma_one_byte(chars@.subrange(a4 as int, b4 as int));
    }
    let one_byte = b4 - a4 == 1 && (chars[a4] as u32) < 0x80;
    if !one_byte {
        let mut message = String::from_str("unexpected diff-tree status: ");
        push_str(&mut message, text.as_str());
        return Err(message);
    }
    let (a0, b0) = words[0];
    let (a1, b1) = words[1];
    let (a2, b2) = words[2];
    let (a3, b3) = words[3];
    Ok((
        string_of(&chars, a0, b0),
        string_of(&chars, a1, b1),
        string_of(&chars, a2, b2),
        string_of(&chars, a3, b3),
    ))
}

proof fn lemma_block_changes_step(fields: Seq<Seq<u8>>, cursor: int, acc: Seq<DeltaModel>)
    requires
        0 <= cursor < fields.len(),
        fields[cursor].len() > 0,
        fields[cursor][0] == 0x3Au8,
    ensures
        block_changes(fields, cursor, acc) == match change_metadata(fields[cursor].skip(1)) {
            Err(e) => Err(e),
            Ok(words) => if cursor + 1 >= fields.len() {
                Err("missing path after diff-tree metadata"@)
            } else {
                block_changes(
                    fields,
                    cursor + 2,
                    acc.push(
                        DeltaModel {
                            old_mode: words[0],
                            new_mode: words[1],
                            old_oid: words[2],
                            new_oid: words[3],
                            path: fields[cursor + 1],
                        },
                    ),
                )
            },
        },
{
}

/// Reads the changes that start at field `cursor`.
fn read_block(
    output: &[u8],
    ranges: &Vec<(usize, usize)>,
    start: usize,
    Ghost(fields): Ghost<Seq<Seq<u8>>>,
) -> (result: Result<(Vec<Delta>, usize), String>)
    requires
        start <= ranges.len() == fields.len(),
        forall|k: int|
            0 <= k < ranges@.len() ==> {
                let (a, b) = #[trigger] ranges@[k];
                a <= b <= output.len() && output@.subrange(a as int, b as int) == fields[k]
            },
    ensures
        match (result, block_changes(fields, start as int, Seq::empty())) {
            (Ok((changes, next)), Ok((m, n))) => changes@.map_values(|d: Delta| d@) == m && next
                == n && next <= ranges.len(),
            (Err(a), Err(b)) => a@ == b,
            _ => false,
        },
{
    let mut changes: Vec<Delta> = Vec::new();
    let mut cursor = start;
    assert(changes@.map_values(|d: Delta| d@) =~= Seq::<DeltaModel>::empty());
    loop
        invariant
            start <= cursor <= ranges.len() == fields.len(),
            forall|k: int|
                0 <= k < ranges@.len() ==> {
                    let (a, b) = #[trigger] ranges@[k];
                    a <= b <= output.len() && output@.subrange(a as int, b as int) == fields[k]
                },
            block_changes(fields, start as int, Seq::empty()) == block_changes(
                fields,
                cursor as int,
                changes@.map_values(|d: Delta| d@),
            ),
        decreases ranges.len() - cursor,
    {
        if cursor >= ranges.len() {
            return Ok((changes, cursor));
        }
        let (a, b) = ranges[cursor];
        assert(output@.subrange(a as int, b as int) == fields[cursor as int]);
        if !(a < b && output[a] == 0x3A) {
            return Ok((changes, cursor));
        }
        assert(output@.subrange(a + 1, b as int) =~= fields[cursor as int].skip(1));
        proof {
            lemma_block_changes_step(fields, cursor as int, changes@.map_values(|d: Delta| d@));
        }
        let (old_mode, new_mode, old_oid, new_oid) = match read_metadata(&output[a + 1..b]) {
            Ok(words) => words,
            Err(message) => return Err(message),
        };
        if cursor + 1 >= ranges.len() {
            return Err(String::from_str("missing path after diff-tree metadata"));
        }
        let (pa, pb) = ranges[cursor + 1];
        let path = bytes_sub(output, pa, pb);
        let ghost before = changes@.map_values(|d: Delta| d@);
        changes.push(Delta { old_mode, new_mode, old_oid, new_oid, path });
        assert(changes@.map_values(|d: Delta| d@) =~= before.push(changes@.last()@));
        cursor = cursor + 2;
    }
}

/// The changes of each commit of `commits` (oldest first) in the output of
/// `git diff-tree --stdin --root -r --raw -z --no-renames --no-abbrev`: for
/// each commit, its id as a header field, then for each changed file a
/// `:<old mode> <new mode> <old id> <new id> <status>` field and a path field.
/// A missing or different header, metadata that is not UTF-8 or not five
/// words with a one-byte status, a missing path, or output left after the last
/// commit is an error.
pub fn parse_diff_history(output: &[u8], commits: &[&str]) -> (result: Result<Vec<Vec<Delta>>, String>)
    ensures
        match (result, diff_history_spec(output@, commit_texts(commits@))) {
            (Ok(history), Ok(m)) => history_view(history@) == m,
            (Err(a), Err(b)) => a@ == b,
            _ => false,
        },
{
    let ghost fields = nul_fields(output@);
    let ghost cs = commit_texts(commits@);
    let ranges = nul_field_ranges(output);
    let mut history: Vec<Vec<Delta>> = Vec::new();
    let mut cursor: usize = 0;
    let mut k: usize = 0;
    assert(history_view(history@) =~= Seq::<Seq<DeltaModel>>::empty());
    while k < commits.len()
        invariant
            k <= commits.len(),
            cursor <= ranges.len() == fields.len(),
            fields == nul_fields(output@),
            cs == commit_texts(commits@),
            forall|j: int|
                0 <= j < ranges@.len() ==> {
                    let (a, b) = #[trigger] ranges@[j];
                    a <= b <= output.len() && output@.subrange(a as int, b as int) == fields[j]
                },
            diff_history_spec(output@, cs) == commit_blocks(
                fields,
                cs,
                k as int,
                cursor as int,
                history_view(history@),
            ),
        decreases commits.len() - k,
    {
        let commit = commits[k];
        assert(cs[k as int] == commit@);
        if cursor >= ranges.len() {
            let mut message = String::from_str("missing diff-tree header for ");
            push_str(&mut message, commit);
            return Err(message);
        }
        let (a, b) = ranges[cursor];
        let header = &output[a..b];
        assert(header@ == fields[cursor as int]);
        if !bytes_eq_text(header, commit) {
            let mut message = String::from_str("unexpected diff-tree header: ");
            let shown = decode_text_lossy(header);
            push_str(&mut message, shown.as_str());
            return Err(message);
        }
        let (changes, next) = match read_block(output, &ranges, cursor + 1, Ghost(fields)) {
            Ok(block) => block,
            Err(message) => return Err(message),
        };
        let ghost before = history_view(history@);
        history.push(changes);
        assert(history_view(history@) =~= before.push(history@.last()@.map_values(|d: Delta| d@)));
        cursor = next;
        k += 1;
    }
    if cursor != ranges.len() {
        return Err(String::from_str("unexpected trailing diff-tree output"));
    }
    Ok(history)
}

} // verus!
