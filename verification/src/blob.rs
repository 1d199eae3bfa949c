//! Counting the lines of a file's contents, reading the header `git cat-file
//! --batch` prints before it, and keeping the running totals of the history.
use vstd::prelude::*;
use crate::language::{language_name, Language, LanguageCounts};
use crate::lines::{ascii_word_ranges, ascii_words};
use crate::numbers::{parse_unsigned_in, parse_usize};
use crate::text::{chars_of, chars_eq, debug_quoted, debug_text, push_str, string_of};

verus! {

/// The number of lines, and of lines with something besides whitespace.
#[derive(Clone, Copy, Debug, PartialEq, Eq)]
pub struct LineCount {
    pub all: u64,
    pub non_blank: u64,
}

impl Default for LineCount {
    fn default() -> (count: Self)
        ensures
            count.all == 0 && count.non_blank == 0,
    {
        LineCount { all: 0, non_blank: 0 }
    }
}

/// How many bytes at the start decide whether a file is binary.
pub const BINARY_SNIFF_BYTES: usize = 8000;

/// A file is binary when a NUL byte occurs among its first 8000 bytes.
pub open spec fn is_binary(contents: Seq<u8>) -> bool {
    exists|i: int| 0 <= i < contents.len() && i < BINARY_SNIFF_BYTES && contents[i] == 0
}

/// ASCII whitespace as `u8::is_ascii_whitespace` defines it.
pub open spec fn is_space_byte(b: u8) -> bool {
    b == 0x20 || b == 0x09 || b == 0x0A || b == 0x0C || b == 0x0D
}

/// The pieces of `s` between newlines (one more than its newlines).
pub open spec fn pieces(s: Seq<u8>) -> Seq<Seq<u8>>
    decreases s.len(),
{
    if s.len() == 0 {
        seq![Seq::empty()]
    } else if s.last() == 0x0A {
        pieces(s.drop_last()).push(Seq::empty())
    } else {
        let p = pieces(s.drop_last());
        p.update(p.len() - 1, p.last().push(s.last()))
    }
}

/// The lines of a file: the pieces between newlines, without the empty piece
/// after a final newline; none for an empty file.
pub open spec fn file_lines(s: Seq<u8>) -> Seq<Seq<u8>> {
    if s.len() == 0 {
        Seq::empty()
    } else if s.last() == 0x0A {
        pieces(s).drop_last()
    } else {
        pieces(s)
    }
}

/// A line holds a byte that is not ASCII whitespace.
pub open spec fn has_content(line: Seq<u8>) -> bool {
    exists|i: int| 0 <= i < line.len() && !is_space_byte(line[i])
}

/// How many of the lines have content.
pub open spec fn content_count(lines: Seq<Seq<u8>>) -> nat
    decreases lines.len(),
{
    if lines.len() == 0 {
        0
    } else {
        content_count(lines.drop_last()) + if has_content(lines.last()) {
            1nat
        } else {
            0nat
        }
    }
}

/// The lines of a file: none for a binary or empty file; otherwise every line,
/// and, when asked, the lines with content (zero when not asked).
pub open spec fn line_count_spec(contents: Seq<u8>, count_non_blank: bool) -> (nat, nat) {
    if is_binary(contents) || contents.len() == 0 {
        (0, 0)
    } else {
        (
            file_lines(contents).len(),
            if count_non_blank {
                content_count(file_lines(contents))
            } else {
                0
            },
        )
    }
}

proof fn lemma_pieces_len(s: Seq<u8>)
    ensures
        pieces(s).len() >= 1,
        pieces(s).len() <= s.len() + 1,
    decreases s.len(),
{
    if s.len() > 0 {
        lemma_pieces_len(s.drop_last());
    }
}

proof fn lemma_has_content_push(line: Seq<u8>, b: u8)
    ensures
        has_content(line.push(b)) == (has_content(line) || !is_space_byte(b)),
{
    if has_content(line) {
        let i = choose|i: int| 0 <= i < line.len() && !is_space_byte(line[i]);
        assert(line.push(b)[i] == line[i]);
    }
    if !is_space_byte(b) {
        assert(line.push(b)[line.len() as int] == b);
    }
    if has_content(line.push(b)) {
        let i = choose|i: int| 0 <= i < line.push(b).len() && !is_space_byte(line.push(b)[i]);
        if i < line.len() {
            assert(line[i] == line.push(b)[i]);
        }
    }
}

proof fn lemma_content_count_le(lines: Seq<Seq<u8>>)
    ensures
        content_count(lines) <= lines.len(),
    decreases lines.len(),
{
    if lines.len() > 0 {
        lemma_content_count_le(lines.drop_last());
    }
}

/// A non-blank line is a line: a file never has more non-blank lines than
/// lines.
pub proof fn law_non_blank_within_all(contents: Seq<u8>, count_non_blank: bool)
    ensures
        line_count_spec(contents, count_non_blank).1 <= line_count_spec(contents, count_non_blank).0,
{
    lemma_content_count_le(file_lines(contents));
}

/// The lines of `contents`, and with `count_non_blank` also the lines with
/// something besides ASCII whitespace; a file with a NUL byte among its first
/// 8000 bytes, or an empty file, counts as no lines.
pub fn text_line_counts(contents: &[u8], count_non_blank: bool) -> (count: LineCount)
    ensures
        (count.all as nat, count.non_blank as nat) == line_count_spec(contents@, count_non_blank),
{
    let sniff = if contents.len() < BINARY_SNIFF_BYTES {
        contents.len()
    } else {
        BINARY_SNIFF_BYTES
    };
    let mut i: usize = 0;
    while i < sniff
        invariant
            i <= sniff <= contents.len(),
            sniff == contents.len() || sniff == BINARY_SNIFF_BYTES,
            sniff <= BINARY_SNIFF_BYTES,
            forall|j: int| 0 <= j < i ==> contents@[j] != 0,
        decreases sniff - i,
    {
        if contents[i] == 0 {
            assert(contents@[i as int] == 0 && i < BINARY_SNIFF_BYTES);
            assert(is_binary(contents@));
            return LineCount { all: 0, non_blank: 0 };
        }
        i += 1;
    }
    assert(!is_binary(contents@));
    if contents.len() == 0 {
        return LineCount { all: 0, non_blank: 0 };
    }
    let mut all: u64 = 0;
    let mut non_blank: u64 = 0;
    let mut line_has_content = false;
    let mut i: usize = 0;
    assert(contents@.take(0) =~= Seq::<u8>::empty());
    while i < contents.len()
        invariant
            i <= contents.len(),
            all as nat == pieces(contents@.take(i as int)).len() - 1,
            non_blank as nat == if count_non_blank {
                content_count(pieces(contents@.take(i as int)).drop_last())
            } else {
                0
            },
            line_has_content == (count_non_blank && has_content(
                pieces(contents@.take(i as int)).last(),
            )),
            all + (if i > 0 && contents@[i - 1] != 0x0A {
                1int
            } else {
                0int
            }) <= i,
            non_blank <= all,
        decreases contents.len() - i,
    {
        let ghost prefix = contents@.take(i as int);
        let ghost next = contents@.take(i + 1);
        let byte = contents[i];
        proof {
            assert(next.drop_last() =~= prefix);
            lemma_pieces_len(prefix);
        }
        if byte == 0x0A {
            all = all + 1;
            if line_has_content {
                non_blank = non_blank + 1;
            }
            line_has_content = false;
            proof {
                assert(pieces(next) == pieces(prefix).push(Seq::empty()));
                assert(pieces(next).drop_last() =~= pieces(prefix));
                assert(pieces(prefix).drop_last() =~= pieces(prefix).drop_last());
                if count_non_blank {
                    assert(content_count(pieces(prefix)) == content_count(
                        pieces(prefix).drop_last(),
                    ) + if has_content(pieces(prefix).last()) {
                        1nat
                    } else {
                        0nat
                    });
                }
                assert(!has_content(Seq::<u8>::empty()));
            }
        } else {
            let is_space = byte == 0x20 || byte == 0x09 || byte == 0x0A || byte == 0x0C || byte
                == 0x0D;
            if count_non_blank && !is_space {
                line_has_content = true;
            }
            proof {
                let p = pieces(prefix);
                assert(pieces(next) == p.update(p.len() - 1, p.last().push(byte)));
                assert(pieces(next).drop_last() =~= p.drop_last());
                lemma_has_content_push(p.last(), byte);
            }
        }
        i += 1;
    }
    assert(contents@.take(contents.len() as int) =~= contents@);
    let ghost ps = pieces(contents@);
    if contents[contents.len() - 1] != 0x0A {
        all = all + 1;
        if line_has_content {
            non_blank = non_blank + 1;
        }
        proof {
            if count_non_blank {
                assert(content_count(ps) == content_count(ps.drop_last()) + if has_content(
                    ps.last(),
                ) {
                    1nat
                } else {
                    0nat
                });
            }
        }
    } else {
        proof {
            assert(ps.last() =~= Seq::<u8>::empty());
        }
    }
    LineCount { all, non_blank }
}

// ------------------------------------------------------------------------
// Running totals
// ------------------------------------------------------------------------

/// The totals after taking away `removed`, or `None` when a total would go
/// below zero.
pub open spec fn removed_from(total: LineCount, removed: LineCount) -> Option<LineCount> {
    if total.all >= removed.all && total.non_blank >= removed.non_blank {
        Some(
            LineCount {
                all: (total.all - removed.all) as u64,
                non_blank: (total.non_blank - removed.non_blank) as u64,
            },
        )
    } else {
        None
    }
}

/// The totals after adding `added`, or `None` when a total would pass `u64`.
pub open spec fn added_to(total: LineCount, added: LineCount) -> Option<LineCount> {
    if total.all + added.all <= u64::MAX && total.non_blank + added.non_blank <= u64::MAX {
        Some(
            LineCount {
                all: (total.all + added.all) as u64,
                non_blank: (total.non_blank + added.non_blank) as u64,
            },
        )
    } else {
        None
    }
}

impl LineCount {
    /// Takes away the lines of a file that a commit removed or changed. A total
    /// that would go below zero is an error, and then nothing changes.
    pub fn remove(&mut self, removed: LineCount, oid: &str) -> (result: Result<(), String>)
        ensures
            result is Ok <==> removed_from(*old(self), removed) is Some,
            result is Ok ==> Some(*final(self)) == removed_from(*old(self), removed),
            result is Err ==> *final(self) == *old(self),
            old(self).all < removed.all ==> (result matches Err(m) && m@
                == "line count underflow while removing "@ + oid@),
            old(self).all >= removed.all && old(self).non_blank < removed.non_blank ==> (
            result matches Err(m) && m@ == "non-blank line count underflow while removing "@
                + oid@),
    {
        if self.all < removed.all {
            let mut message = String::from_str("line count underflow while removing ");
            push_str(&mut message, oid);
            return Err(message);
        }
        if self.non_blank < removed.non_blank {
            let mut message = String::from_str("non-blank line count underflow while removing ");
            push_str(&mut message, oid);
            return Err(message);
        }
        self.all = self.all - removed.all;
        self.non_blank = self.non_blank - removed.non_blank;
        Ok(())
    }

    /// Adds the lines of a file that a commit added or changed. A total beyond
    /// `u64` is an error, and then nothing changes.
    pub fn add(&mut self, added: LineCount, oid: &str) -> (result: Result<(), String>)
        ensures
            result is Ok <==> added_to(*old(self), added) is Some,
            result is Ok ==> Some(*final(self)) == added_to(*old(self), added),
            result is Err ==> *final(self) == *old(self),
            old(self).all + added.all > u64::MAX ==> (result matches Err(m) && m@
                == "line count overflow while adding "@ + oid@),
            old(self).all + added.all <= u64::MAX && old(self).non_blank + added.non_blank
                > u64::MAX ==> (result matches Err(m) && m@
                == "non-blank line count overflow while adding "@ + oid@),
    {
        if self.all > u64::MAX - added.all {
            let mut message = String::from_str("line count overflow while adding ");
            push_str(&mut message, oid);
            return Err(message);
        }
        if self.non_blank > u64::MAX - added.non_blank {
            let mut message = String::from_str("non-blank line count overflow while adding ");
            push_str(&mut message, oid);
            return Err(message);
        }
        self.all = self.all + added.all;
        self.non_blank = self.non_blank + added.non_blank;
        Ok(())
    }
}

/// Taking away a file's lines undoes adding them: a total that took in a
/// file's lines gives back the earlier total when the same lines leave.
pub proof fn law_remove_undoes_add(total: LineCount, lines: LineCount)
    requires
        added_to(total, lines) is Some,
    ensures
        removed_from(added_to(total, lines)->0, lines) == Some(total),
{
}

/// Adding a file's lines undoes taking them away.
pub proof fn law_add_undoes_remove(total: LineCount, lines: LineCount)
    requires
        removed_from(total, lines) is Some,
    ensures
        added_to(removed_from(total, lines)->0, lines) == Some(total),
{
}

/// The total of `language`, zero when absent.
pub open spec fn total_of(totals: Map<Language, u64>, language: Language) -> u64 {
    if totals.contains_key(language) {
        totals[language]
    } else {
        0
    }
}

/// The totals after taking away `removed` lines of `language`: a language
/// whose total falls to zero leaves the totals; `None` when the total would go
/// below zero.
pub open spec fn language_removed(totals: Map<Language, u64>, language: Language, removed: u64) -> Option<
    Map<Language, u64>,
> {
    let before = total_of(totals, language);
    if before < removed {
        None
    } else if before == removed {
        Some(totals.remove(language))
    } else {
        Some(totals.insert(language, (before - removed) as u64))
    }
}

/// The totals after adding `added` lines of `language`; a file without
/// lines (binary or empty) leaves no trace, so the totals hold only languages
/// with lines. `None` when the total would pass `u64`.
pub open spec fn language_added(totals: Map<Language, u64>, language: Language, added: u64) -> Option<
    Map<Language, u64>,
> {
    let before = total_of(totals, language);
    if before + added > u64::MAX {
        None
    } else if added == 0 {
        Some(totals)
    } else {
        Some(totals.insert(language, (before + added) as u64))
    }
}

/// Every language of the totals has lines.
pub open spec fn all_positive(totals: Map<Language, u64>) -> bool {
    forall|l: Language| #[trigger] totals.contains_key(l) ==> totals[l] > 0
}

/// Taking lines away and adding lines keep every language of the totals with
/// lines.
pub proof fn law_language_steps_keep_positive(totals: Map<Language, u64>, language: Language, lines: u64)
    requires
        all_positive(totals),
    ensures
        language_removed(totals, language, lines) matches Some(t) ==> all_positive(t),
        language_added(totals, language, lines) matches Some(t) ==> all_positive(t),
{
}

/// Taking away a file's lines undoes adding them: every language's total is
/// as before, and so are the totals themselves unless the language was
/// present with zero lines (which then leaves).
pub proof fn law_language_remove_undoes_add(totals: Map<Language, u64>, language: Language, lines: u64)
    requires
        language_added(totals, language, lines) is Some,
    ensures
        language_removed(language_added(totals, language, lines)->0, language, lines) is Some,
        forall|l: Language|
            #[trigger] total_of(language_removed(language_added(totals, language, lines)->0, language, lines)->0, l)
                == total_of(totals, l),
        total_of(totals, language) > 0 || !totals.contains_key(language) ==> language_removed(
            language_added(totals, language, lines)->0,
            language,
            lines,
        )->0 == totals,
{
    let added = language_added(totals, language, lines)->0;
    let back = language_removed(added, language, lines)->0;
    if total_of(totals, language) > 0 {
        assert(back =~= totals);
    } else if !totals.contains_key(language) {
        assert(back =~= totals);
    }
}

/// Takes away the lines of a file of `language`; a language whose total falls
/// to zero leaves the totals. A total that would go below zero is an error, and
/// then nothing changes.
pub fn remove_language_lines(
    totals: &mut LanguageCounts,
    language: Language,
    removed: u64,
    oid: &str,
) -> (result: Result<(), String>)
    ensures
        result is Ok <==> language_removed(old(totals)@, language, removed) is Some,
        result is Ok ==> Some(final(totals)@) == language_removed(old(totals)@, language, removed),
        result is Err ==> final(totals)@ == old(totals)@,
        result matches Err(m) ==> m@ == language_name(language) + " line count underflow while removing "@
            + oid@,
{
    let before = match totals.get(language) {
        Some(v) => v,
        None => 0,
    };
    if before < removed {
        let mut message = String::from_str(language.name());
        push_str(&mut message, " line count underflow while removing ");
        push_str(&mut message, oid);
        return Err(message);
    }
    if before == removed {
        totals.remove(language);
    } else {
        totals.insert(language, before - removed);
    }
    Ok(())
}

/// Adds the lines of a file of `language`; a file without lines leaves the
/// totals as they are. A total beyond `u64` is an error, and then nothing
/// changes.
pub fn add_language_lines(totals: &mut LanguageCounts, language: Language, added: u64, oid: &str) -> (result:
    Result<(), String>)
    ensures
        result is Ok <==> language_added(old(totals)@, language, added) is Some,
        result is Ok ==> Some(final(totals)@) == language_added(old(totals)@, language, added),
        result is Err ==> final(totals)@ == old(totals)@,
        result matches Err(m) ==> m@ == language_name(language) + " line count overflow while adding "@
            + oid@,
{
    let before = match totals.get(language) {
        Some(v) => v,
        None => 0,
    };
    if before > u64::MAX - added {
        let mut message = String::from_str(language.name());
        push_str(&mut message, " line count overflow while adding ");
        push_str(&mut message, oid);
        return Err(message);
    }
    if added > 0 {
        totals.insert(language, before + added);
    }
    Ok(())
}

// ------------------------------------------------------------------------
// The header of `git cat-file --batch`
// ------------------------------------------------------------------------

/// The size that a `<oid> blob <size>` header announces for `oid`, or the
/// error: a header with fewer than three words, a size that is not a `usize`,
/// or another id, type or word count. The messages quote the header as
/// `Debug` prints it.
pub open spec fn cat_file_header_spec(header: Seq<char>, oid: Seq<char>) -> Result<usize, Seq<char>> {
    let words = ascii_words(header);
    if words.len() < 3 {
        Err("malformed cat-file header: "@ + debug_text(header))
    } else {
        match parse_usize(words[2]) {
            None => Err("invalid blob size in cat-file header: "@ + debug_text(header)),
            Some(size) => if words[0] != oid || words[1] != "blob"@ || words.len() > 3 {
                Err("unexpected cat-file header: "@ + debug_text(header))
            } else {
                Ok(size)
            },
        }
    }
}

/// Reads the header line that `git cat-file --batch` prints for `oid`: its
/// id, `blob`, and the size of the contents that follow.
pub fn parse_cat_file_header(header: &str, oid: &str) -> (result: Result<usize, String>)
    ensures
        match (result, cat_file_header_spec(header@, oid@)) {
            (Ok(a), Ok(b)) => a == b,
            (Err(m), Err(e)) => m@ == e,
            _ => false,
        },
{
    let chars = chars_of(header);
    let words = ascii_word_ranges(&chars);
    if words.len() < 3 {
        let mut message = String::from_str("malformed cat-file header: ");
        let quoted = debug_quoted(header);
        push_str(&mut message, quoted.as_str());
        return Err(message);
    }
    let (a0, b0) = words[0];
    let (a1, b1) = words[1];
    let (a2, b2) = words[2];
    let size = match parse_unsigned_in(&chars, a2, b2, usize::MAX as u64) {
        Some(size) => size as usize,
        None => {
            let mut message = String::from_str("invalid blob size in cat-file header: ");
            let quoted = debug_quoted(header);
            push_str(&mut message, quoted.as_str());
            return Err(message);
        },
    };
    let returned = string_of(&chars, a0, b0);
    let kind = string_of(&chars, a1, b1);
    let same_oid = crate::text::text_eq(returned.as_str(), oid);
    let is_blob = crate::text::text_eq(kind.as_str(), "blob");
    if !same_oid || !is_blob || words.len() > 3 {
        let mut message = String::from_str("unexpected cat-file header: ");
        let quoted = debug_quoted(header);
        push_str(&mut message, quoted.as_str());
        return Err(message);
    }
    Ok(size)
}

/// Checks the byte `git cat-file --batch` prints after the contents of blob
/// `oid`: a newline, else the error.
pub fn check_blob_terminator(terminator: u8, oid: &str) -> (result: Result<(), String>)
    ensures
        result is Ok <==> terminator == 0x0A,
        result matches Err(m) ==> m@ == "invalid blob terminator for "@ + oid@,
{
    if terminator == 0x0A {
        Ok(())
    } else {
        let mut message = String::from_str("invalid blob terminator for ");
        push_str(&mut message, oid);
        Err(message)
    }
}

/// ASCII white space as `u8::is_ascii_whitespace` documents it: space,
/// tab, line feed, form feed and carriage return.
spec fn ascii_white(b: u8) -> bool {
    b == 0x20u8 || b == 0x09u8 || b == 0x0Au8 || b == 0x0Cu8 || b == 0x0Du8
}

proof fn lemma_pieces_from(s: Seq<u8>, allowed: spec_fn(u8) -> bool)
    requires
        forall|i: int| 0 <= i < s.len() ==> allowed(#[trigger] s[i]),
    ensures
        forall|k: int, j: int|
            0 <= k < pieces(s).len() && 0 <= j < pieces(s)[k].len() ==> allowed(#[trigger] pieces(s)[k][j]),
    decreases s.len(),
{
    if s.len() > 0 {
        let d = s.drop_last();
        lemma_pieces_from(d, allowed);
        lemma_pieces_len(d);
        let p = pieces(d);
        assert(allowed(s[s.len() - 1]));
        if s.last() != 0x0A {
            let q = p.update(p.len() - 1, p.last().push(s.last()));
            assert forall|k: int, j: int| 0 <= k < q.len() && 0 <= j < q[k].len() implies allowed(#[trigger] q[k][j]) by {
                if k == p.len() - 1 && j == p.last().len() {
                } else if k == p.len() - 1 {
                    assert(q[k][j] == p[k][j]);
                } else {
                    assert(q[k] == p[k]);
                }
            }
        } else {
            let q = p.push(Seq::<u8>::empty());
            assert forall|k: int, j: int| 0 <= k < q.len() && 0 <= j < q[k].len() implies allowed(#[trigger] q[k][j]) by {
                assert(q[k] == p[k]);
            }
        }
    }
}

proof fn lemma_no_content(lines: Seq<Seq<u8>>)
    requires
        forall|k: int, j: int| 0 <= k < lines.len() && 0 <= j < lines[k].len() ==> ascii_white(#[trigger] lines[k][j]),
    ensures
        content_count(lines) == 0,
    decreases lines.len(),
{
    if lines.len() > 0 {
        lemma_no_content(lines.drop_last());
        let l = lines.last();
        assert forall|j: int| 0 <= j < l.len() implies is_space_byte(l[j]) by {
            assert(ascii_white(lines[lines.len() - 1][j]));
        }
    }
}

proof fn lemma_pieces_no_newline(s: Seq<u8>)
    requires
        forall|i: int| 0 <= i < s.len() ==> s[i] != 0x0Au8,
    ensures
        pieces(s) == seq![s],
    decreases s.len(),
{
    if s.len() > 0 {
        lemma_pieces_no_newline(s.drop_last());
        let p = pieces(s.drop_last());
        assert(s.drop_last().push(s.last()) =~= s);
        assert(p.update(p.len() - 1, p.last().push(s.last())) =~= seq![s]);
    } else {
        assert(s =~= Seq::<u8>::empty());
    }
}

/// Only ASCII white space (space, tab, line feed, form feed, carriage
/// return) is blank: contents made of those bytes alone have no non-blank
/// line, and a single line holding any other byte (in a file without a NUL
/// byte among its first 8000) is one non-blank line.
pub proof fn law_blank_means_ascii_white_space(contents: Seq<u8>)
    ensures
        (forall|i: int| 0 <= i < contents.len() ==> #[trigger] contents[i] == 0x20u8 || contents[i] == 0x09u8
            || contents[i] == 0x0Au8 || contents[i] == 0x0Cu8 || contents[i] == 0x0Du8) ==> line_count_spec(
            contents,
            true,
        ).1 == 0,
        (forall|i: int| 0 <= i < contents.len() ==> #[trigger] contents[i] != 0x0Au8 && contents[i] != 0u8)
            && (exists|i: int| 0 <= i < contents.len() && !(#[trigger] contents[i] == 0x20u8 || contents[i] == 0x09u8
            || contents[i] == 0x0Cu8 || contents[i] == 0x0Du8)) ==> line_count_spec(contents, true) == (1nat, 1nat),
{
    if forall|i: int| 0 <= i < contents.len() ==> #[trigger] contents[i] == 0x20u8 || contents[i] == 0x09u8
        || contents[i] == 0x0Au8 || contents[i] == 0x0Cu8 || contents[i] == 0x0Du8 {
        let allowed = |b: u8| ascii_white(b);
        assert forall|i: int| 0 <= i < contents.len() implies allowed(#[trigger] contents[i]) by {}
        lemma_pieces_from(contents, allowed);
        if contents.len() > 0 && !is_binary(contents) {
            let ls = file_lines(contents);
            lemma_pieces_len(contents);
            assert forall|k: int, j: int| 0 <= k < ls.len() && 0 <= j < ls[k].len() implies ascii_white(#[trigger] ls[k][j]) by {
                assert(ls[k] == pieces(contents)[k]);
                assert(allowed(pieces(contents)[k][j]));
            }
            lemma_no_content(ls);
        }
    }
    if (forall|i: int| 0 <= i < contents.len() ==> #[trigger] contents[i] != 0x0Au8 && contents[i] != 0u8)
        && (exists|i: int| 0 <= i < contents.len() && !(#[trigger] contents[i] == 0x20u8 || contents[i] == 0x09u8
        || contents[i] == 0x0Cu8 || contents[i] == 0x0Du8)) {
        let i = choose|i: int| 0 <= i < contents.len() && !(#[trigger] contents[i] == 0x20u8 || contents[i] == 0x09u8
            || contents[i] == 0x0Cu8 || contents[i] == 0x0Du8);
        assert(!is_binary(contents));
        lemma_pieces_no_newline(contents);
        assert(contents[contents.len() - 1] != 0x0Au8);
        assert(file_lines(contents) == seq![contents]);
        assert(has_content(contents));
        let one = seq![contents];
        assert(one.drop_last() =~= Seq::<Seq<u8>>::empty());
        assert(one.last() == contents);
        assert(content_count(one.drop_last()) == 0);
        assert(content_count(one) == 1);
        assert(file_lines(contents).len() == 1);
        assert(line_count_spec(contents, true) == (1nat, 1nat));
    }
}

/// How many line feeds `s` holds.
pub open spec fn newline_count(s: Seq<u8>) -> nat
    decreases s.len(),
{
    if s.len() == 0 {
        0
    } else {
        newline_count(s.drop_last()) + if s.last() == 0x0Au8 {
            1nat
        } else {
            0nat
        }
    }
}

proof fn lemma_pieces_newlines(s: Seq<u8>)
    ensures
        pieces(s).len() == newline_count(s) + 1,
    decreases s.len(),
{
    if s.len() > 0 {
        lemma_pieces_newlines(s.drop_last());
    }
}

/// Lines are counted the way a text is read: one per line feed, and one more
/// for a last line without one; none for a binary file (a NUL byte among the
/// first 8000) or an empty one.
pub proof fn law_lines_are_line_feeds(contents: Seq<u8>, count_non_blank: bool)
    ensures
        line_count_spec(contents, count_non_blank).0 == if contents.len() == 0 || exists|i: int|
            0 <= i < contents.len() && i < 8000 && #[trigger] contents[i] == 0u8 {
            0
        } else {
            newline_count(contents) + if contents.last() != 0x0Au8 {
                1nat
            } else {
                0nat
            }
        },
{
    lemma_pieces_newlines(contents);
}

} // verus!
