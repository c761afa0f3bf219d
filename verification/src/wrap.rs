//! Text wrapping that keeps every space.
//!
//! Lines are broken at whitespace, so that the spaces between Korean words stay
//! as their author wrote them; a word that is wider than a line is cut. A width
//! is the number of visible columns that the content of a line may take: the
//! prefix of a line does not count against it.

use vstd::prelude::*;

use crate::ansi::{is_white_space, unit_end, unit_len, units, ESC};
use crate::layout::{layout, Flow, Layout, Row};
use crate::measure::{
    characters, columns, columns_of, is_printable, text_between, unit_columns, visible_length,
    visible_width,
};
use crate::split::lemma_units_step;
use crate::wrap_laws::{
    law_rows_keep_to_the_width, law_spaces_are_preserved, lemma_printable_row, rows_content,
    rows_fit,
};

verus! {

/// The prefix of line number `i`.
pub open spec fn prefix_of(i: int, first_prefix: Seq<char>, next_prefix: Seq<char>) -> Seq<char> {
    if i == 0 {
        first_prefix
    } else {
        next_prefix
    }
}

/// Whether `lines` are the `rows`, each behind its prefix.
pub open spec fn shows(
    lines: Seq<String>,
    rows: Seq<Row>,
    first_prefix: Seq<char>,
    next_prefix: Seq<char>,
) -> bool {
    &&& lines.len() == rows.len()
    &&& forall|i: int|
        0 <= i < lines.len() ==> (#[trigger] lines[i])@ == prefix_of(i, first_prefix, next_prefix)
            + rows[i].text()
}

/// Whether no row shows more than `width` characters.
pub open spec fn rows_are_short(rows: Seq<Row>, width: nat) -> bool {
    forall|i: int| 0 <= i < rows.len() ==> (#[trigger] rows[i]).content().len() <= width
}

/// The rows of `text`, without prefixes: see [`layout`].
pub fn break_lines(text: &str, width: usize) -> (rows: Vec<String>)
    ensures
        rows@.len() == layout(text@, width as nat).len(),
        forall|i: int|
            0 <= i < rows@.len() ==> (#[trigger] rows@[i])@ == layout(
                text@,
                width as nat,
            )[i].text(),
        rows_content(layout(text@, width as nat)) == text@,
        width >= 3 ==> rows_fit(layout(text@, width as nat), width as nat),
        is_printable(text@) && width > 0 ==> rows_are_short(
            layout(text@, width as nat),
            width as nat,
        ),
        is_printable(text@) && width > 0 && text@.len() > 0 ==> visible_width(text@)
            == text@.len(),
{
    let ghost w = width as nat;
    proof {
        law_spaces_are_preserved(text@, w);
    }
    if text.is_empty() {
        return Vec::new();
    }
    if width == 0 || visible_length(text) <= width {
        let mut rows: Vec<String> = Vec::new();
        rows.push(text.to_owned());
        proof {
            let row = layout(text@, w)[0];
            assert(rows@[0]@ =~= row.text());
            assert(row.content() =~= text@);
        }
        return rows;
    }
    let chars = characters(text);
    let mut layout_state = Layout::new();
    let mut i: usize = 0;
    let ghost mut read: Seq<Seq<char>> = Seq::empty();
    proof {
        assert(chars@.skip(0) =~= text@);
        assert(read + units(chars@.skip(0)) =~= units(text@));
    }
    while i < chars.len()
        invariant
            i <= chars@.len(),
            chars@ == text@,
            w == width,
            layout_state.wf(),
            layout_state.flow().word_width <= width,
            layout_state.flow().is_measured(),
            layout_state.flow().run(units(chars@.skip(i as int)), w) == Flow::start().run(
                units(text@),
                w,
            ),
            units(text@) == read + units(chars@.skip(i as int)),
            forall|k: int| 0 <= k < read.len() ==> unit_columns(#[trigger] read[k]) <= 3,
            is_printable(text@) ==> forall|k: int|
                0 <= k < i ==> columns(#[trigger] text@[k]) == 1,
            is_printable(text@) ==> forall|k: int|
                0 <= k < read.len() ==> unit_columns(#[trigger] read[k]) == 1,
        decreases chars@.len() - i,
    {
        let end = unit_end(&chars, i);
        let c = chars[i];
        let ghost s = chars@.skip(i as int);
        let ghost u = s.take(unit_len(s) as int);
        proof {
            lemma_units_step(s);
            assert(s.skip(unit_len(s) as int) =~= chars@.skip(end as int));
            assert(u[0] == c);
            assert(read.push(u) + units(chars@.skip(end as int)) =~= read + units(s));
            read = read.push(u);
        }
        if c == ESC {
            let sequence = text_between(&chars, i, end);
            proof {
                assert(sequence@ =~= u);
                assert(is_printable(text@) ==> ' ' <= text@[i as int]);
            }
            layout_state.escape(sequence.as_str());
        } else {
            assert(u =~= seq![c]);
            let c_width: usize = columns_of(c);
            assert(is_printable(text@) ==> ' ' <= text@[i as int] <= '~');
            if is_white_space(c) {
                layout_state.space(c, c_width, width);
            } else {
                layout_state.word_character(c, width);
            }
        }
        i = end;
    }
    proof {
        assert(units(chars@.skip(i as int)) =~= Seq::<Seq<char>>::empty());
        assert(read =~= units(text@));
        if width >= 3 || is_printable(text@) {
            law_rows_keep_to_the_width(text@, w);
        }
        if is_printable(text@) {
            assert forall|k: int| 0 <= k < layout(text@, w).len() implies (#[trigger] layout(
                text@,
                w,
            )[k]).content().len() <= w by {
                assert(layout(text@, w)[k].is_measured());
                lemma_printable_row(text@, w, k);
            }
        }
    }
    layout_state.finish(width)
}

/// Wraps `text`, which may hold escape sequences, into lines with prefixes.
///
/// `width` is the number of visible columns for the content of a line; the
/// prefixes do not count. `first_prefix` is put before the first line and
/// `next_prefix` before each other. Empty text has no lines. A character that is
/// wider than `width`, which takes a width of 1 or 2, has a line for itself.
///
/// Columns are counted character by character, and a control character counts
/// none. Characters that are seen as one, such as an emoji with a modifier, can
/// count for more columns than they are seen to take: whitespace behind them stays
/// in its line if the line is seen to fit with it.
pub fn wrap_with_prefixes(
    text: &str,
    width: usize,
    first_prefix: &str,
    next_prefix: &str,
) -> (lines: Vec<String>)
    ensures
        shows(lines@, layout(text@, width as nat), first_prefix@, next_prefix@),
        lines@.len() == layout(text@, width as nat).len(),
        lines@.len() > 0 ==> lines@[0]@ == first_prefix@ + layout(text@, width as nat)[0].text(),
        forall|i: int|
            0 < i < lines@.len() ==> (#[trigger] lines@[i])@ == next_prefix@ + layout(
                text@,
                width as nat,
            )[i].text(),
        rows_content(layout(text@, width as nat)) == text@,
        text@.len() == 0 ==> lines@.len() == 0,
        width >= 3 ==> rows_fit(layout(text@, width as nat), width as nat),
        is_printable(text@) && width > 0 ==> rows_are_short(
            layout(text@, width as nat),
            width as nat,
        ),
        is_printable(text@) && width > 0 && text@.len() > 0 ==> visible_width(text@)
            == text@.len(),
        is_printable(text@) && 0 < text@.len() <= width ==> lines@.len() == 1 && lines@[0]@
            == first_prefix@ + text@,
{
    let rows = break_lines(text, width);
    let ghost expected = layout(text@, width as nat);
    let mut lines: Vec<String> = Vec::new();
    let mut i: usize = 0;
    while i < rows.len()
        invariant
            i <= rows@.len(),
            lines@.len() == i,
            rows@.len() == expected.len(),
            forall|j: int|
                0 <= j < rows@.len() ==> (#[trigger] rows@[j])@ == expected[j].text(),
            forall|j: int|
                0 <= j < i ==> (#[trigger] lines@[j])@ == prefix_of(
                    j,
                    first_prefix@,
                    next_prefix@,
                ) + expected[j].text(),
        decreases rows@.len() - i,
    {
        let mut line = if i == 0 {
            first_prefix.to_owned()
        } else {
            next_prefix.to_owned()
        };
        line.append(rows[i].as_str());
        lines.push(line);
        i = i + 1;
    }
    proof {
        if is_printable(text@) && 0 < text@.len() <= width {
            assert(expected[0].text() =~= text@);
        }
    }
    lines
}

} // verus!
