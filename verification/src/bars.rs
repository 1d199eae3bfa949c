//! Horizontal bars of block characters, scaled to the largest value, with
//! eighth-width blocks for the remainder.
use vstd::prelude::*;
use crate::text::{repeat, push_char, push_repeat, push_str};

verus! {

/// The full block `█`.
pub open spec fn full_block() -> char {
    '\u{2588}'
}

/// The block that fills `k` eighths of a cell, for `k` in `1..=7`
/// (`▏`, `▎`, `▍`, `▌`, `▋`, `▊`, `▉`).
pub open spec fn fraction_block(k: int) -> char {
    ((0x2590 - k) as u32) as char
}

/// Whether the scaling of `value` fits in 128 bits.
pub open spec fn scale_fits(value: u64, maximum: u64, width: usize) -> bool {
    maximum == 0 || width == 0 || value as int * width as int * 8 <= u128::MAX
}

/// `value` as a number of eighths of a bar `width` cells long at `maximum`,
/// rounded down.
pub open spec fn scaled_eighths_spec(value: u64, maximum: u64, width: usize) -> int {
    if maximum == 0 || width == 0 {
        0
    } else {
        (value as int * width as int * 8) / maximum as int
    }
}

/// The bar for `value`: as many full blocks as whole cells, then the block
/// for the remaining eighths, if any; empty for a zero value, maximum or width.
pub open spec fn bar_spec(value: u64, maximum: u64, width: usize) -> Seq<char> {
    if value == 0 || maximum == 0 || width == 0 {
        Seq::empty()
    } else {
        let eighths = scaled_eighths_spec(value, maximum, width);
        repeat(full_block(), ((eighths / 8) as usize) as nat) + if eighths % 8 != 0 {
            seq![fraction_block(eighths % 8)]
        } else {
            Seq::<char>::empty()
        }
    }
}

/// How many cells of the bar for `all` the grey overlay covers: the
/// non-blank value rounded to whole cells, at most the whole bar.
pub open spec fn overlay_cells(non_blank: u64, maximum: u64, width: usize, bar_len: nat) -> nat {
    let cells = (((scaled_eighths_spec(non_blank, maximum, width) + 4) / 8) as usize) as nat;
    if cells < bar_len {
        cells
    } else {
        bar_len
    }
}

/// The bar for `all` with its first cells, those of `non_blank`, in grey and
/// the rest in white, when colours are on; the plain bar otherwise.
pub open spec fn layered_bar_spec(
    non_blank: u64,
    all: u64,
    maximum: u64,
    width: usize,
    colors: bool,
) -> Seq<char> {
    let all_bar = bar_spec(all, maximum, width);
    if !colors || all_bar.len() == 0 {
        all_bar
    } else {
        let cells = overlay_cells(non_blank, maximum, width, all_bar.len());
        let grey = all_bar.take(cells as int);
        let white = all_bar.skip(cells as int);
        (if grey.len() == 0 {
            Seq::empty()
        } else {
            "\x1b[90m"@
        }) + grey + (if white.len() == 0 {
            Seq::empty()
        } else {
            "\x1b[97m"@
        }) + white + "\x1b[0m"@
    }
}

/// What a layered bar needs to be computed without overflow.
pub open spec fn layered_fits(
    non_blank: u64,
    all: u64,
    maximum: u64,
    width: usize,
    colors: bool,
) -> bool {
    &&& scale_fits(all, maximum, width)
    &&& (colors && bar_spec(all, maximum, width).len() > 0) ==> scale_fits(
        non_blank,
        maximum,
        width,
    )
}

/// `value` scaled to eighths of a bar of `width` cells, where `maximum` fills it.
pub fn scaled_eighths(value: u64, maximum: u64, width: usize) -> (eighths: u128)
    requires
        scale_fits(value, maximum, width),
    ensures
        eighths == scaled_eighths_spec(value, maximum, width),
{
    if maximum == 0 || width == 0 {
        return 0;
    }
    let v = value as u128;
    let w = width as u128;
    assert(v * w <= u128::MAX) by (nonlinear_arith)
        requires
            v * w * 8 <= u128::MAX,
    ;
    (v * w * 8) / (maximum as u128)
}

/// The block for `k` eighths.
fn fraction_char(k: u128) -> (c: char)
    requires
        1 <= k <= 7,
    ensures
        c == fraction_block(k as int),
{
    if k == 1 {
        '\u{258F}'
    } else if k == 2 {
        '\u{258E}'
    } else if k == 3 {
        '\u{258D}'
    } else if k == 4 {
        '\u{258C}'
    } else if k == 5 {
        '\u{258B}'
    } else if k == 6 {
        '\u{258A}'
    } else {
        '\u{2589}'
    }
}

/// The bar for `value`, scaled so that `maximum` fills `width` cells.
pub fn render_bar(value: u64, maximum: u64, width: usize) -> (bar: String)
    requires
        scale_fits(value, maximum, width),
    ensures
        bar@ == bar_spec(value, maximum, width),
{
    let mut bar = String::new();
    if value == 0 || maximum == 0 || width == 0 {
        return bar;
    }
    let eighths = scaled_eighths(value, maximum, width);
    push_repeat(&mut bar, '\u{2588}', (eighths / 8) as usize);
    let fraction = eighths % 8;
    if fraction != 0 {
        push_char(&mut bar, fraction_char(fraction));
    }
    assert(bar@ =~= bar_spec(value, maximum, width));
    bar
}

/// A bar for `all` lines with the `non_blank` share drawn in grey over the
/// white total, when `colors` is set; the plain bar for `all` otherwise.
pub fn render_layered_bar(non_blank: u64, all: u64, maximum: u64, width: usize, colors: bool) -> (bar:
    String)
    requires
        layered_fits(non_blank, all, maximum, width, colors),
    ensures
        bar@ == layered_bar_spec(non_blank, all, maximum, width, colors),
{
    let all_bar = render_bar(all, maximum, width);
    let chars = crate::text::chars_of(all_bar.as_str());
    if !colors || chars.len() == 0 {
        return all_bar;
    }
    let scaled = scaled_eighths(non_blank, maximum, width);
    assert(scaled + 4 <= u128::MAX) by {
        lemma_scaled_round_fits(non_blank, maximum, width);
    }
    let cells = ((scaled + 4) / 8) as usize;
    let overlay = if cells < chars.len() {
        cells
    } else {
        chars.len()
    };
    let mut bar = String::new();
    if overlay > 0 {
        push_str(&mut bar, "\x1b[90m");
    }
    let grey = crate::text::string_of(&chars, 0, overlay);
    push_str(&mut bar, grey.as_str());
    if overlay < chars.len() {
        push_str(&mut bar, "\x1b[97m");
    }
    let white = crate::text::string_of(&chars, overlay, chars.len());
    push_str(&mut bar, white.as_str());
    push_str(&mut bar, "\x1b[0m");
    proof {
        let all_seq = bar_spec(all, maximum, width);
        assert(chars@ == all_seq);
        assert(chars@.subrange(0, overlay as int) =~= all_seq.take(overlay as int));
        assert(chars@.subrange(overlay as int, chars.len() as int) =~= all_seq.skip(
            overlay as int,
        ));
    }
    assert(bar@ =~= layered_bar_spec(non_blank, all, maximum, width, colors));
    bar
}

/// Rounding a scaled value up by half a cell stays within 128 bits: the
/// product is a multiple of eight, so it lies at least eight below 2^128.
proof fn lemma_scaled_round_fits(value: u64, maximum: u64, width: usize)
    requires
        scale_fits(value, maximum, width),
    ensures
        scaled_eighths_spec(value, maximum, width) + 4 <= u128::MAX,
{
    if maximum != 0 && width != 0 {
        let p = value as int * width as int;
        assert(p * 8 <= u128::MAX);
        assert(p * 8 <= u128::MAX - 7) by (nonlinear_arith)
            requires
                p * 8 <= u128::MAX,
                u128::MAX == 0xffff_ffff_ffff_ffff_ffff_ffff_ffff_ffffint,
        ;
        assert((p * 8) / maximum as int <= p * 8) by (nonlinear_arith)
            requires
                p >= 0,
                maximum >= 1,
        ;
    }
}

/// The number of cells a bar of `eighths` eighths takes: whole cells and one
/// more for a partial cell.
proof fn lemma_bar_len(value: u64, maximum: u64, width: usize)
    requires
        0 < value <= maximum,
        width > 0,
    ensures
        bar_spec(value, maximum, width).len() == (scaled_eighths_spec(value, maximum, width) + 7) / 8,
        0 <= scaled_eighths_spec(value, maximum, width) <= width * 8,
{
    let e = scaled_eighths_spec(value, maximum, width);
    vstd::arithmetic::div_mod::lemma_div_pos_is_pos(value as int * width as int * 8, maximum as int);
    assert(value as int * width as int * 8 <= maximum as int * (width as int * 8)) by (nonlinear_arith)
        requires
            value <= maximum,
    ;
    vstd::arithmetic::div_mod::lemma_div_is_ordered(
        value as int * width as int * 8,
        maximum as int * (width as int * 8),
        maximum as int,
    );
    vstd::arithmetic::div_mod::lemma_div_multiples_vanish(width as int * 8, maximum as int);
}

/// Bars are scaled to the largest value: the maximum fills exactly `width`
/// full cells.
pub proof fn law_bar_maximum_fills_width(maximum: u64, width: usize)
    requires
        maximum > 0,
    ensures
        bar_spec(maximum, maximum, width) == repeat(full_block(), width as nat),
{
    if width > 0 {
        let e = scaled_eighths_spec(maximum, maximum, width);
        assert(e == width * 8) by (nonlinear_arith)
            requires
                e == (maximum as int * width as int * 8) / maximum as int,
                maximum > 0,
        {
            assert(maximum as int * width as int * 8 == (width as int * 8) * maximum as int);
            vstd::arithmetic::div_mod::lemma_div_multiples_vanish(width as int * 8, maximum as int);
        }
        assert(bar_spec(maximum, maximum, width) =~= repeat(full_block(), width as nat));
    } else {
        assert(bar_spec(maximum, maximum, width) =~= repeat(full_block(), width as nat));
    }
}

/// A larger value never draws a shorter bar, and no value up to the maximum
/// draws past `width` cells.
pub proof fn law_bar_grows_with_value(a: u64, b: u64, maximum: u64, width: usize)
    requires
        a <= b <= maximum,
    ensures
        bar_spec(a, maximum, width).len() <= bar_spec(b, maximum, width).len(),
        bar_spec(b, maximum, width).len() <= width,
{
    if maximum > 0 && width > 0 {
        let ea = scaled_eighths_spec(a, maximum, width);
        let eb = scaled_eighths_spec(b, maximum, width);
        assert(ea <= eb) by {
            assert(a as int * width as int * 8 <= b as int * width as int * 8) by (nonlinear_arith)
                requires
                    a <= b,
            ;
            vstd::arithmetic::div_mod::lemma_div_is_ordered(
                a as int * width as int * 8,
                b as int * width as int * 8,
                maximum as int,
            );
        }
        if b > 0 {
            lemma_bar_len(b, maximum, width);
            if a > 0 {
                lemma_bar_len(a, maximum, width);
            }
        }
    }
}

/// What a terminal shows of `s`: its characters outside the escape sequences
/// (`ESC` up to and including the next `m`), `escaped` telling whether `s`
/// starts inside one.
pub open spec fn visible_from(s: Seq<char>, escaped: bool) -> Seq<char>
    decreases s.len(),
{
    if s.len() == 0 {
        Seq::empty()
    } else if escaped {
        visible_from(s.drop_first(), s[0] != 'm')
    } else if s[0] == '\x1b' {
        visible_from(s.drop_first(), true)
    } else {
        seq![s[0]] + visible_from(s.drop_first(), false)
    }
}

/// `s` without its colour escape sequences.
pub open spec fn visible(s: Seq<char>) -> Seq<char> {
    visible_from(s, false)
}

/// Characters without escapes show as they are.
pub(crate) proof fn lemma_visible_plain(p: Seq<char>, rest: Seq<char>)
    requires
        forall|i: int| 0 <= i < p.len() ==> p[i] != '\x1b',
    ensures
        visible_from(p + rest, false) == p + visible_from(rest, false),
    decreases p.len(),
{
    if p.len() > 0 {
        lemma_visible_plain(p.drop_first(), rest);
        assert((p + rest).drop_first() =~= p.drop_first() + rest);
        assert(p =~= seq![p[0]] + p.drop_first());
    } else {
        assert(p + rest =~= rest);
    }
}

/// Inside an escape, characters up to the closing `m` show nothing.
proof fn lemma_visible_escape_body(body: Seq<char>, rest: Seq<char>)
    requires
        forall|i: int| 0 <= i < body.len() ==> body[i] != 'm',
    ensures
        visible_from(body + seq!['m'] + rest, true) == visible_from(rest, false),
    decreases body.len(),
{
    let s = body + seq!['m'] + rest;
    if body.len() > 0 {
        lemma_visible_escape_body(body.drop_first(), rest);
        assert(s.drop_first() =~= body.drop_first() + seq!['m'] + rest);
    } else {
        assert(s.drop_first() =~= rest);
    }
}

/// A colour escape shows nothing.
proof fn lemma_visible_colour(code: Seq<char>, rest: Seq<char>)
    requires
        code == "\x1b[90m"@ || code == "\x1b[97m"@ || code == "\x1b[0m"@,
    ensures
        visible_from(code + rest, false) == visible_from(rest, false),
{
    reveal_strlit("\x1b[90m");
    reveal_strlit("\x1b[97m");
    reveal_strlit("\x1b[0m");
    let body = code.subrange(1, code.len() - 1);
    assert(code =~= seq!['\x1b'] + body + seq!['m']);
    lemma_visible_escape_body(body, rest);
    assert((code + rest).drop_first() =~= body + seq!['m'] + rest);
}

/// A bar holds block characters only.
pub(crate) proof fn lemma_bar_plain(value: u64, maximum: u64, width: usize)
    ensures
        forall|i: int|
            0 <= i < bar_spec(value, maximum, width).len() ==> bar_spec(value, maximum, width)[i] != '\x1b',
{
    let b = bar_spec(value, maximum, width);
    assert forall|i: int| 0 <= i < b.len() implies b[i] != '\x1b' by {
        if value != 0 && maximum != 0 && width != 0 {
            let e = scaled_eighths_spec(value, maximum, width);
            let n = ((e / 8) as usize) as nat;
            if i >= n {
                assert(b[i] == fraction_block(e % 8));
            }
        }
    }
}

/// What shows of a layered bar followed by `rest`: the plain bar, then what
/// shows of `rest`.
pub(crate) proof fn lemma_layered_visible(
    non_blank: u64,
    all: u64,
    maximum: u64,
    width: usize,
    colors: bool,
    rest: Seq<char>,
)
    ensures
        visible_from(layered_bar_spec(non_blank, all, maximum, width, colors) + rest, false) == bar_spec(
            all,
            maximum,
            width,
        ) + visible_from(rest, false),
{
    let bar = bar_spec(all, maximum, width);
    lemma_bar_plain(all, maximum, width);
    if colors && bar.len() > 0 {
        let cells = overlay_cells(non_blank, maximum, width, bar.len());
        let grey = bar.take(cells as int);
        let white = bar.skip(cells as int);
        let e1 = if grey.len() == 0 {
            Seq::<char>::empty()
        } else {
            "\x1b[90m"@
        };
        let e2 = if white.len() == 0 {
            Seq::<char>::empty()
        } else {
            "\x1b[97m"@
        };
        let e3 = "\x1b[0m"@;
        lemma_visible_colour(e3, rest);
        let tail = white + (e3 + rest);
        lemma_visible_plain(white, e3 + rest);
        let mid = e2 + tail;
        if white.len() > 0 {
            lemma_visible_colour(e2, tail);
        } else {
            assert(mid =~= tail);
        }
        let after_grey = grey + mid;
        lemma_visible_plain(grey, mid);
        let whole = e1 + after_grey;
        if grey.len() > 0 {
            lemma_visible_colour(e1, after_grey);
        } else {
            assert(whole =~= after_grey);
        }
        assert(layered_bar_spec(non_blank, all, maximum, width, colors) + rest =~= whole);
        assert(grey + white =~= bar);
        assert(grey + (white + visible_from(rest, false)) =~= bar + visible_from(rest, false));
    } else {
        lemma_visible_plain(bar, rest);
    }
}

/// The overlay only colours the bar: what the terminal shows of a layered
/// bar is the plain bar of the total, with colours on or off.
pub proof fn law_layered_bar_shows_the_plain_bar(
    non_blank: u64,
    all: u64,
    maximum: u64,
    width: usize,
    colors: bool,
)
    ensures
        visible(layered_bar_spec(non_blank, all, maximum, width, colors)) == bar_spec(all, maximum, width),
{
    let layered = layered_bar_spec(non_blank, all, maximum, width, colors);
    lemma_layered_visible(non_blank, all, maximum, width, colors, Seq::empty());
    assert(layered + Seq::<char>::empty() =~= layered);
    assert(visible_from(Seq::<char>::empty(), false) =~= Seq::<char>::empty());
    assert(bar_spec(all, maximum, width) + Seq::<char>::empty() =~= bar_spec(all, maximum, width));
}

} // verus!
