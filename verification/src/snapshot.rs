//! One point of a chart: a commit of the first-parent history with its totals,
//! and the label it is drawn with.
use vstd::prelude::*;
use vstd::utf8::*;
use crate::text::{decimal, zero_pad, push_char, push_str, push_zero_padded};
use crate::language::LanguageCounts;

verus! {

broadcast use {encode_utf8_valid_utf8, encode_utf8_decode_utf8};

/// The start of a commit id as `str::get(..8)` gives it: its first eight bytes
/// when they end on a character boundary, else the whole id.
pub open spec fn short_hash(commit: Seq<char>) -> Seq<char> {
    let bytes = encode_utf8(commit);
    if is_char_boundary(bytes, 8) {
        decode_utf8(bytes.subrange(0, 8))
    } else {
        commit
    }
}

/// The label of a chart row: `sequence:hash`, with the sequence number padded
/// with zeros to `width` digits, and with `datetime:` in front when `date` is set.
pub open spec fn row_label(
    sequence: nat,
    commit: Seq<char>,
    datetime: Seq<char>,
    date: bool,
    width: nat,
) -> Seq<char> {
    let tail = zero_pad(decimal(sequence), width) + seq![':'] + short_hash(commit);
    if date {
        datetime + seq![':'] + tail
    } else {
        tail
    }
}

/// Appends the label of a row to `out`.
fn push_label(
    out: &mut String,
    sequence: usize,
    commit: &str,
    datetime: &str,
    date: bool,
    width: usize,
)
    ensures
        final(out)@ == old(out)@ + row_label(
            sequence as nat,
            commit@,
            datetime@,
            date,
            width as nat,
        ),
{
    if date {
        push_str(out, datetime);
        push_char(out, ':');
    }
    push_zero_padded(out, sequence as u64, width);
    push_char(out, ':');
    if commit.is_char_boundary(8) {
        let (head, _) = commit.split_at(8);
        assert(decode_utf8(encode_utf8(head@)) == head@);
        push_str(out, head);
    } else {
        push_str(out, commit);
    }
    assert(out@ =~= old(out)@ + row_label(
        sequence as nat,
        commit@,
        datetime@,
        date,
        width as nat,
    ));
}

/// The line totals of one commit of the history.
#[derive(Debug, PartialEq, Eq)]
pub struct Snapshot {
    pub sequence: usize,
    pub commit: String,
    pub datetime: String,
    pub lines: u64,
    pub non_blank_lines: u64,
}

impl Snapshot {
    pub fn new(
        sequence: usize,
        commit: &str,
        datetime: &str,
        lines: u64,
        non_blank_lines: u64,
    ) -> (snapshot: Self)
        ensures
            snapshot.sequence == sequence,
            snapshot.commit@ == commit@,
            snapshot.datetime@ == datetime@,
            snapshot.lines == lines,
            snapshot.non_blank_lines == non_blank_lines,
    {
        Snapshot {
            sequence,
            commit: String::from_str(commit),
            datetime: String::from_str(datetime),
            lines,
            non_blank_lines,
        }
    }

    /// The label of this snapshot's row.
    pub open spec fn label_spec(&self, date: bool, sequence_width: nat) -> Seq<char> {
        row_label(self.sequence as nat, self.commit@, self.datetime@, date, sequence_width)
    }

    pub fn label(&self, date: bool, sequence_width: usize) -> (label: String)
        ensures
            label@ == self.label_spec(date, sequence_width as nat),
    {
        let mut label = String::new();
        push_label(
            &mut label,
            self.sequence,
            self.commit.as_str(),
            self.datetime.as_str(),
            date,
            sequence_width,
        );
        label
    }
}

/// The line totals by language of one commit of the history.
pub struct LanguageSnapshot {
    pub sequence: usize,
    pub commit: String,
    pub datetime: String,
    pub lines: LanguageCounts,
}

impl LanguageSnapshot {
    pub fn new(
        sequence: usize,
        commit: &str,
        datetime: &str,
        lines: LanguageCounts,
    ) -> (snapshot: Self)
        ensures
            snapshot.sequence == sequence,
            snapshot.commit@ == commit@,
            snapshot.datetime@ == datetime@,
            snapshot.lines@ == lines@,
    {
        LanguageSnapshot {
            sequence,
            commit: String::from_str(commit),
            datetime: String::from_str(datetime),
            lines,
        }
    }

    /// The label of this snapshot's row.
    pub open spec fn label_spec(&self, date: bool, sequence_width: nat) -> Seq<char> {
        row_label(self.sequence as nat, self.commit@, self.datetime@, date, sequence_width)
    }

    pub fn label(&self, date: bool, sequence_width: usize) -> (label: String)
        ensures
            label@ == self.label_spec(date, sequence_width as nat),
    {
        let mut label = String::new();
        push_label(
            &mut label,
            self.sequence,
            self.commit.as_str(),
            self.datetime.as_str(),
            date,
            sequence_width,
        );
        label
    }
}

} // verus!
