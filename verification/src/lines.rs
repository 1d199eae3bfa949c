//! Lines of text as `str::lines` splits them.
use vstd::prelude::*;
use crate::numbers::find_char;

verus! {

/// A line without the `\r` of a `\r\n` ending.
pub open spec fn strip_cr(line: Seq<char>) -> Seq<char> {
    if line.len() > 0 && line.last() == '\r' {
        line.drop_last()
    } else {
        line
    }
}

/// The lines of a text: split after each `\n`, each without its `\n` (or
/// `\r\n`); a text that ends with `\n` has no empty last line, and an empty
/// text has no lines.
pub open spec fn text_lines(s: Seq<char>) -> Seq<Seq<char>>
    decreases s.len(),
{
    if s.len() == 0 {
        Seq::empty()
    } else {
        match find_char(s, '\n', 0) {
            None => seq![s],
            Some(p) => if 0 <= p < s.len() {
                seq![strip_cr(s.take(p))] + text_lines(s.skip(p + 1))
            } else {
                Seq::empty()
            },
        }
    }
}

proof fn lemma_find_char_skip(s: Seq<char>, c: char, pos: int, from: int)
    requires
        0 <= pos <= from <= s.len(),
    ensures
        match find_char(s, c, from) {
            Some(i) => find_char(s.skip(pos), c, from - pos) == Some(i - pos),
            None => find_char(s.skip(pos), c, from - pos) is None,
        },
    decreases s.len() - from,
{
    if from < s.len() {
        lemma_find_char_skip(s, c, pos, from + 1);
    }
}

proof fn lemma_find_char_range(s: Seq<char>, c: char, from: int)
    requires
        0 <= from,
    ensures
        find_char(s, c, from) matches Some(i) ==> from <= i < s.len() && s[i] == c,
        find_char(s, c, from) is None ==> forall|i: int| from <= i < s.len() ==> s[i] != c,
    decreases s.len() - from,
{
    if from < s.len() {
        lemma_find_char_range(s, c, from + 1);
    }
}

/// The line that starts at `pos`: where its content ends and where the next
/// line starts.
pub fn line_at(chars: &Vec<char>, pos: usize) -> (r: (usize, usize))
    requires
        pos < chars.len(),
    ensures
        pos <= r.0 <= r.1 <= chars.len(),
        pos < r.1,
        text_lines(chars@.skip(pos as int)) == seq![chars@.subrange(pos as int, r.0 as int)]
            + text_lines(chars@.skip(r.1 as int)),
{
    let ghost s = chars@.skip(pos as int);
    let mut i = pos;
    while i < chars.len() && chars[i] != '\n'
        invariant
            pos <= i <= chars.len(),
            forall|j: int| pos <= j < i ==> chars@[j] != '\n',
        decreases chars.len() - i,
    {
        i += 1;
    }
    proof {
        lemma_find_char_range(s, '\n', 0);
    }
    if i == chars.len() {
        proof {
            match find_char(s, '\n', 0) {
                Some(p) => {
                    assert(s[p] == chars@[pos + p]);
                },
                None => {},
            }
            assert(s.skip(0) =~= s);
            assert(chars@.skip(i as int) =~= Seq::<char>::empty());
            assert(text_lines(chars@.skip(i as int)) =~= Seq::<Seq<char>>::empty());
            assert(chars@.subrange(pos as int, i as int) =~= s);
        }
        assert(text_lines(s) =~= seq![s]);
        (i, i)
    } else {
        let ghost p = (i - pos) as int;
        proof {
            lemma_find_char_first(s, '\n', p);
            assert(s.skip(p + 1) =~= chars@.skip(i + 1));
            assert(s.take(p) =~= chars@.subrange(pos as int, i as int));
        }
        let end = if i > pos && chars[i - 1] == '\r' {
            i - 1
        } else {
            i
        };
        proof {
            assert(strip_cr(s.take(p)) =~= chars@.subrange(pos as int, end as int));
        }
        (end, i + 1)
    }
}

/// `find_char` from the start finds the first occurrence.
proof fn lemma_find_char_first(s: Seq<char>, c: char, p: int)
    requires
        0 <= p < s.len(),
        s[p] == c,
        forall|j: int| 0 <= j < p ==> s[j] != c,
    ensures
        find_char(s, c, 0) == Some(p),
{
    lemma_find_char_from(s, c, 0, p);
}

proof fn lemma_find_char_from(s: Seq<char>, c: char, from: int, p: int)
    requires
        0 <= from <= p < s.len(),
        s[p] == c,
        forall|j: int| from <= j < p ==> s[j] != c,
    ensures
        find_char(s, c, from) == Some(p),
    decreases p - from,
{
    if from < p {
        lemma_find_char_from(s, c, from + 1, p);
    }
}

pub proof fn lemma_text_lines_end(s: Seq<char>, pos: int)
    requires
        pos == s.len(),
    ensures
        text_lines(s.skip(pos)) == Seq::<Seq<char>>::empty(),
{
    assert(s.skip(pos) =~= Seq::<char>::empty());
}

pub proof fn lemma_text_lines_start(s: Seq<char>)
    ensures
        s.skip(0) == s,
{
    assert(s.skip(0) =~= s);
}

} // verus!

verus! {

/// ASCII whitespace as `char::is_ascii_whitespace` defines it: space, tab,
/// line feed, form feed and carriage return.
pub open spec fn is_ascii_space(c: char) -> bool {
    c == ' ' || c == '\t' || c == '\n' || c == '\x0C' || c == '\r'
}

/// The first index at or after `from` whose character is (`space`) or is not
/// (`!space`) ASCII whitespace, or the length.
pub open spec fn scan_space(s: Seq<char>, from: int, space: bool) -> int
    decreases s.len() - from,
{
    if from < 0 || from >= s.len() {
        s.len() as int
    } else if is_ascii_space(s[from]) == space {
        from
    } else {
        scan_space(s, from + 1, space)
    }
}

/// The words of a text as `str::split_ascii_whitespace` gives them: the
/// maximal runs of characters that are not ASCII whitespace.
pub open spec fn ascii_words(s: Seq<char>) -> Seq<Seq<char>>
    decreases s.len(),
{
    let start = scan_space(s, 0, false);
    if start >= s.len() || start < 0 {
        Seq::empty()
    } else {
        let end = scan_space(s, start, true);
        if start < end <= s.len() {
            seq![s.subrange(start, end)] + ascii_words(s.skip(end))
        } else {
            Seq::empty()
        }
    }
}

proof fn lemma_scan_space_shift(s: Seq<char>, pos: int, from: int, space: bool)
    requires
        0 <= pos <= from <= s.len(),
    ensures
        scan_space(s.skip(pos), from - pos, space) == scan_space(s, from, space) - pos,
    decreases s.len() - from,
{
    if from < s.len() {
        lemma_scan_space_shift(s, pos, from + 1, space);
    }
}

proof fn lemma_scan_space_range(s: Seq<char>, from: int, space: bool)
    requires
        0 <= from <= s.len(),
    ensures
        from <= scan_space(s, from, space) <= s.len(),
        forall|j: int| from <= j < scan_space(s, from, space) ==> is_ascii_space(s[j]) != space,
        scan_space(s, from, space) < s.len() ==> is_ascii_space(s[scan_space(s, from, space)])
            == space,
    decreases s.len() - from,
{
    if from < s.len() {
        lemma_scan_space_range(s, from + 1, space);
    }
}

/// The index of the first character at or after `from` that is (`space`) or
/// is not ASCII whitespace.
fn scan_space_in(chars: &Vec<char>, from: usize, space: bool) -> (r: usize)
    requires
        from <= chars.len(),
    ensures
        r == scan_space(chars@, from as int, space),
{
    let mut i = from;
    while i < chars.len()
        invariant
            from <= i <= chars.len(),
            scan_space(chars@, from as int, space) == scan_space(chars@, i as int, space),
        decreases chars.len() - i,
    {
        let c = chars[i];
        let is_space = c == ' ' || c == '\t' || c == '\n' || c == '\x0C' || c == '\r';
        if is_space == space {
            return i;
        }
        i += 1;
    }
    i
}

/// The words of `chars`, as index ranges.
pub fn ascii_word_ranges(chars: &Vec<char>) -> (ranges: Vec<(usize, usize)>)
    ensures
        ranges@.len() == ascii_words(chars@).len(),
        forall|k: int|
            0 <= k < ranges@.len() ==> {
                let (a, b) = #[trigger] ranges@[k];
                a <= b <= chars.len() && chars@.subrange(a as int, b as int) == ascii_words(
                    chars@,
                )[k]
            },
{
    let ghost all = ascii_words(chars@);
    let mut ranges: Vec<(usize, usize)> = Vec::new();
    let mut pos: usize = 0;
    assert(chars@.skip(0) =~= chars@);
    while pos < chars.len()
        invariant
            pos <= chars.len(),
            all == ascii_words(chars@),
            all == Seq::new(
                ranges@.len(),
                |k: int| chars@.subrange(ranges@[k].0 as int, ranges@[k].1 as int),
            ) + ascii_words(chars@.skip(pos as int)),
            forall|k: int|
                0 <= k < ranges@.len() ==> (#[trigger] ranges@[k]).0 <= ranges@[k].1 <= chars.len(),
        decreases chars.len() - pos,
    {
        let ghost s = chars@.skip(pos as int);
        let start = scan_space_in(chars, pos, false);
        proof {
            lemma_scan_space_shift(chars@, pos as int, pos as int, false);
            lemma_scan_space_range(chars@, pos as int, false);
        }
        if start == chars.len() {
            assert(ascii_words(s) =~= Seq::<Seq<char>>::empty());
            assert(chars@.skip(start as int) =~= Seq::<char>::empty());
            assert(ascii_words(chars@.skip(start as int)) =~= Seq::<Seq<char>>::empty());
            pos = start;
        } else {
            let end = scan_space_in(chars, start, true);
            proof {
                lemma_scan_space_shift(chars@, pos as int, start as int, true);
                lemma_scan_space_range(chars@, start as int, true);
                assert(s.subrange(start - pos, end - pos) =~= chars@.subrange(
                    start as int,
                    end as int,
                ));
                assert(s.skip(end - pos) =~= chars@.skip(end as int));
            }
            let ghost before = ranges@;
            ranges.push((start, end));
            proof {
                assert(Seq::new(
                    ranges@.len(),
                    |k: int| chars@.subrange(ranges@[k].0 as int, ranges@[k].1 as int),
                ) =~= Seq::new(
                    before.len(),
                    |k: int| chars@.subrange(before[k].0 as int, before[k].1 as int),
                ).push(chars@.subrange(start as int, end as int)));
            }
            pos = end;
        }
    }
    proof {
        assert(chars@.skip(pos as int) =~= Seq::<char>::empty());
        assert(ascii_words(chars@.skip(pos as int)) =~= Seq::<Seq<char>>::empty());
    }
    ranges
}

} // verus!
