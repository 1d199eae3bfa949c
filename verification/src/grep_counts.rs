//! What `git grep -c` prints: line counts per file, summed for the whole tree
//! or per language.
use vstd::prelude::*;
use vstd::utf8::{decode_utf8, valid_utf8};
use crate::commit_log::chars_sub;
use crate::blob::all_positive;
use crate::language::{classify_path, path_language, Language, LanguageCounts};
use crate::lines::{line_at, lemma_text_lines_end, lemma_text_lines_start, text_lines};
use crate::numbers::{
    find_byte, find_byte_in, parse_u64, parse_unsigned_in, rfind_char, rfind_char_in,
};
use crate::text::{chars_of, decode_text, push_str, string_of, text_bytes, utf8_error_text};

verus! {

/// The count of a `path:count` line: what follows its last colon.
pub open spec fn count_field(line: Seq<char>) -> Option<Seq<char>> {
    match rfind_char(line, ':', line.len() as int) {
        Some(p) => Some(line.skip(p + 1)),
        None => None,
    }
}

/// The sum of the counts of the lines, or the error of the first bad line or
/// of the first sum beyond `u64`.
pub open spec fn grep_sum(lines: Seq<Seq<char>>) -> Result<u64, Seq<char>>
    decreases lines.len(),
{
    if lines.len() == 0 {
        Ok(0)
    } else {
        match grep_sum(lines.drop_last()) {
            Err(e) => Err(e),
            Ok(sum) => match count_field(lines.last()) {
                None => Err("malformed git grep output: "@ + lines.last()),
                Some(count) => match parse_u64(count) {
                    None => Err("invalid line count in git grep output: "@ + count),
                    Some(c) => if sum + c > u64::MAX {
                        Err("total line count overflowed u64"@)
                    } else {
                        Ok((sum + c) as u64)
                    },
                },
            },
        }
    }
}

/// The result of `sum_grep_counts`.
pub open spec fn sum_grep_counts_spec(output: Seq<u8>) -> Result<u64, Seq<char>> {
    if valid_utf8(output) {
        grep_sum(text_lines(decode_utf8(output)))
    } else {
        Err("git grep returned non-UTF-8 output: "@ + utf8_error_text(output))
    }
}

proof fn lemma_grep_sum_prefix_err(prefix: Seq<Seq<char>>, rest: Seq<Seq<char>>)
    requires
        grep_sum(prefix) is Err,
    ensures
        grep_sum(prefix + rest) == grep_sum(prefix),
    decreases rest.len(),
{
    if rest.len() > 0 {
        lemma_grep_sum_prefix_err(prefix, rest.drop_last());
        assert((prefix + rest).drop_last() =~= prefix + rest.drop_last());
    } else {
        assert(prefix + rest =~= prefix);
    }
}

/// The total of the `path:count` lines that `git grep -c` printed. Output that
/// is not UTF-8, a line without a colon, a count that is not a `u64`, or a
/// total beyond `u64` is an error.
pub fn sum_grep_counts(output: &[u8]) -> (result: Result<u64, String>)
    ensures
        match (result, sum_grep_counts_spec(output@)) {
            (Ok(a), Ok(b)) => a == b,
            (Err(m), Err(e)) => m@ == e,
            _ => false,
        },
{
    let text = match decode_text(output) {
        Ok(text) => text,
        Err(error) => {
            let mut message = String::from_str("git grep returned non-UTF-8 output: ");
            push_str(&mut message, error.as_str());
            return Err(message);
        },
    };
    let chars = chars_of(text.as_str());
    let ghost all = text_lines(chars@);
    let ghost mut done: Seq<Seq<char>> = Seq::empty();
    let mut sum: u64 = 0;
    let mut pos: usize = 0;
    proof {
        lemma_text_lines_start(chars@);
        assert(done + text_lines(chars@.skip(0)) =~= all);
    }
    while pos < chars.len()
        invariant
            valid_utf8(output@),
            chars@ == decode_utf8(output@),
            pos <= chars.len(),
            all == text_lines(chars@),
            done + text_lines(chars@.skip(pos as int)) == all,
            grep_sum(done) == Ok::<u64, Seq<char>>(sum),
        decreases chars.len() - pos,
    {
        let (end, next) = line_at(&chars, pos);
        let line = chars_sub(&chars, pos, end);
        let ghost lines = done.push(line@);
        proof {
            assert(lines + text_lines(chars@.skip(next as int)) =~= done + text_lines(
                chars@.skip(pos as int),
            ));
            assert(lines.drop_last() =~= done);
        }
        let colon = match rfind_char_in(&line, ':') {
            Some(c) => c,
            None => {
                let mut message = String::from_str("malformed git grep output: ");
                let shown = string_of(&line, 0, line.len());
                assert(line@.subrange(0, line@.len() as int) =~= line@);
                push_str(&mut message, shown.as_str());
                proof {
                    lemma_grep_sum_prefix_err(lines, text_lines(chars@.skip(next as int)));
                }
                return Err(message);
            },
        };
        assert(line@.subrange(colon + 1, line@.len() as int) =~= line@.skip(colon + 1));
        let count = match parse_unsigned_in(&line, colon + 1, line.len(), u64::MAX) {
            Some(c) => c,
            None => {
                let mut message = String::from_str("invalid line count in git grep output: ");
                let shown = string_of(&line, colon + 1, line.len());
                push_str(&mut message, shown.as_str());
                proof {
                    lemma_grep_sum_prefix_err(lines, text_lines(chars@.skip(next as int)));
                }
                return Err(message);
            },
        };
        if sum > u64::MAX - count {
            proof {
                lemma_grep_sum_prefix_err(lines, text_lines(chars@.skip(next as int)));
            }
            return Err(String::from_str("total line count overflowed u64"));
        }
        sum = sum + count;
        proof {
            done = lines;
        }
        pos = next;
    }
    proof {
        lemma_text_lines_end(chars@, pos as int);
        assert(done =~= all);
    }
    Ok(sum)
}

// ------------------------------------------------------------------------
// Counts per language
// ------------------------------------------------------------------------

/// The record of `git grep -I -c -z` output at `cursor`: `<commit>:<path>`, a
/// NUL, the count and a newline. Gives the path's language, the count and where
/// the next record starts.
pub open spec fn language_record(out: Seq<u8>, prefix: Seq<u8>, cursor: int) -> Result<
    (Language, u64, int),
    Seq<char>,
> {
    match find_byte(out, 0, cursor) {
        None => Err("malformed git grep language path"@),
        Some(nul) => {
            let record = out.subrange(cursor, nul);
            if !(record.len() >= prefix.len() && record.take(prefix.len() as int) == prefix) {
                Err("unexpected git grep language path"@)
            } else {
                match find_byte(out, 10, nul + 1) {
                    None => Err("malformed git grep language count"@),
                    Some(newline) => {
                        let count_bytes = out.subrange(nul + 1, newline);
                        if !valid_utf8(count_bytes) {
                            Err(
                                "git grep returned a non-UTF-8 count: "@ + utf8_error_text(
                                    count_bytes,
                                ),
                            )
                        } else {
                            match parse_u64(decode_utf8(count_bytes)) {
                                None => Err("git grep returned an invalid language count"@),
                                Some(count) => Ok(
                                    (
                                        path_language(record.skip(prefix.len() as int)),
                                        count,
                                        newline + 1,
                                    ),
                                ),
                            }
                        }
                    },
                }
            }
        },
    }
}

/// The totals after adding the records from `cursor` on, each count to the
/// total of its path's language (a count of zero leaving no trace); or the
/// first error.
pub open spec fn language_records(
    out: Seq<u8>,
    prefix: Seq<u8>,
    cursor: int,
    totals: Map<Language, u64>,
) -> Result<Map<Language, u64>, Seq<char>>
    decreases out.len() - cursor,
{
    if cursor < 0 || cursor >= out.len() {
        Ok(totals)
    } else {
        match language_record(out, prefix, cursor) {
            Err(e) => Err(e),
            Ok((language, count, next)) => {
                let before = if totals.contains_key(language) {
                    totals[language]
                } else {
                    0
                };
                if before + count > u64::MAX {
                    Err("language line count overflowed u64"@)
                } else if cursor < next <= out.len() {
                    language_records(
                        out,
                        prefix,
                        next,
                        if count == 0 {
                            totals
                        } else {
                            totals.insert(language, (before + count) as u64)
                        },
                    )
                } else {
                    Ok(totals)
                }
            },
        }
    }
}

/// The bytes `<commit>:` that start every record.
pub open spec fn record_prefix(commit: Seq<char>) -> Seq<u8> {
    vstd::utf8::encode_utf8(commit).push(0x3Au8)
}

/// Whether `bytes[from..from + prefix.len()]` is `prefix`.
fn has_prefix_at(bytes: &[u8], from: usize, to: usize, prefix: &Vec<u8>) -> (r: bool)
    requires
        from <= to <= bytes.len(),
    ensures
        r == (bytes@.subrange(from as int, to as int).len() >= prefix@.len() && bytes@.subrange(
            from as int,
            to as int,
        ).take(prefix@.len() as int) == prefix@),
{
    let ghost record = bytes@.subrange(from as int, to as int);
    if to - from < prefix.len() {
        return false;
    }
    let mut i: usize = 0;
    while i < prefix.len()
        invariant
            from <= to <= bytes.len(),
            to - from >= prefix.len(),
            i <= prefix.len(),
            record == bytes@.subrange(from as int, to as int),
            forall|j: int| 0 <= j < i ==> record[j] == prefix@[j],
        decreases prefix.len() - i,
    {
        if bytes[from + i] != prefix[i] {
            assert(record.take(prefix@.len() as int)[i as int] != prefix@[i as int]);
            return false;
        }
        i += 1;
    }
    assert(record.take(prefix@.len() as int) =~= prefix@);
    true
}

/// Reads the record at `cursor`.
fn read_language_record(output: &[u8], cursor: usize, prefix: &Vec<u8>) -> (result: Result<
    (Language, u64, usize),
    String,
>)
    requires
        cursor < output.len(),
    ensures
        match (result, language_record(output@, prefix@, cursor as int)) {
            (Ok(r), Ok(s)) => r.0 == s.0 && r.1 == s.1 && r.2 == s.2 && cursor < r.2 <= output.len(),
            (Err(message), Err(e)) => message@ == e,
            _ => false,
        },
{
    let nul = match find_byte_in(output, 0, cursor) {
        Some(n) => n,
        None => return Err(String::from_str("malformed git grep language path")),
    };
    if !has_prefix_at(output, cursor, nul, prefix) {
        return Err(String::from_str("unexpected git grep language path"));
    }
    let ghost record = output@.subrange(cursor as int, nul as int);
    let newline = match find_byte_in(output, 10, nul + 1) {
        Some(n) => n,
        None => return Err(String::from_str("malformed git grep language count")),
    };
    let count_bytes = &output[nul + 1..newline];
    let text = match decode_text(count_bytes) {
        Ok(text) => text,
        Err(error) => {
            let mut message = String::from_str("git grep returned a non-UTF-8 count: ");
            push_str(&mut message, error.as_str());
            return Err(message);
        },
    };
    let digits = chars_of(text.as_str());
    assert(digits@.subrange(0, digits@.len() as int) =~= digits@);
    let count = match parse_unsigned_in(&digits, 0, digits.len(), u64::MAX) {
        Some(c) => c,
        None => return Err(String::from_str("git grep returned an invalid language count")),
    };
    let path = &output[cursor + prefix.len()..nul];
    assert(path@ =~= record.skip(prefix@.len() as int));
    let language = classify_path(path);
    Ok((language, count, newline + 1))
}

/// The line totals per language from `git grep -I -c -z ^ <commit> --`: each
/// record `<commit>:<path>` NUL `<count>` newline adds the count to the total
/// of the path's language. A record without its NUL or newline, a path without
/// the commit prefix, or a count that is not UTF-8 or not a `u64`, or a total
/// beyond `u64`, is an error.
pub fn parse_language_counts(output: &[u8], commit: &str) -> (result: Result<LanguageCounts, String>)
    ensures
        match (result, language_records(output@, record_prefix(commit@), 0, Map::empty())) {
            (Ok(counts), Ok(m)) => counts@ == m,
            (Err(message), Err(e)) => message@ == e,
            _ => false,
        },
{
    let mut prefix = text_bytes(commit);
    prefix.push(0x3A);
    let ghost pre = record_prefix(commit@);
    assert(prefix@ == pre);
    let mut totals = LanguageCounts::new();
    let mut cursor: usize = 0;
    while cursor < output.len()
        invariant
            cursor <= output.len(),
            prefix@ == pre,
            pre == record_prefix(commit@),
            language_records(output@, pre, 0, Map::empty()) == language_records(
                output@,
                pre,
                cursor as int,
                totals@,
            ),
        decreases output.len() - cursor,
    {
        let ghost current = totals@;
        let record = read_language_record(output, cursor, &prefix);
        let (language, count, next) = match record {
            Ok(record) => record,
            Err(message) => {
                assert(language_record(output@, pre, cursor as int) is Err);
                assert(language_records(output@, pre, cursor as int, current) == Err::<
                    Map<Language, u64>,
                    Seq<char>,
                >(language_record(output@, pre, cursor as int)->Err_0));
                return Err(message);
            },
        };
        assert(language_record(output@, pre, cursor as int) == Ok::<(Language, u64, int), Seq<char>>(
            (language, count, next as int),
        ));
        let before = match totals.get(language) {
            Some(v) => v,
            None => 0,
        };
        assert(before == (if current.contains_key(language) {
            current[language]
        } else {
            0
        }));
        if before > u64::MAX - count {
            assert(language_records(output@, pre, cursor as int, current) == Err::<
                Map<Language, u64>,
                Seq<char>,
            >("language line count overflowed u64"@));
            return Err(String::from_str("language line count overflowed u64"));
        }
        if count > 0 {
            totals.insert(language, before + count);
        }
        cursor = next;
    }
    Ok(totals)
}

/// The per-language counts of `git grep` hold only languages with lines.
pub proof fn law_grep_languages_have_lines(
    out: Seq<u8>,
    prefix: Seq<u8>,
    cursor: int,
    totals: Map<Language, u64>,
)
    requires
        all_positive(totals),
        language_records(out, prefix, cursor, totals) is Ok,
    ensures
        all_positive(language_records(out, prefix, cursor, totals)->Ok_0),
    decreases out.len() - cursor,
{
    if 0 <= cursor < out.len() {
        if let Ok((language, count, next)) = language_record(out, prefix, cursor) {
            let before = if totals.contains_key(language) {
                totals[language]
            } else {
                0
            };
            if before + count <= u64::MAX && cursor < next <= out.len() {
                let t = if count == 0 {
                    totals
                } else {
                    totals.insert(language, (before + count) as u64)
                };
                assert(all_positive(t));
                law_grep_languages_have_lines(out, prefix, next, t);
            }
        }
    }
}

} // verus!
