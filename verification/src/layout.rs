//! Laying text out in rows, one unit at a time.
//!
//! [`Layout`] is the state of a layout under way; [`Flow`] is what it stands
//! for. Widths that an outside crate measures come in as arguments, so that each
//! step says exactly what it does for every width.

use vstd::prelude::*;

use crate::ansi::{is_escape, reset_sequence, units, white_space, ESC};
use crate::measure::{
    characters, columns, columns_of, is_printable, seen_width, text_between, visible_length,
    visible_width,
};
use crate::split::{chunk_len, is_one_wide_chunk, lemma_chunk, split_chunk};

verus! {

/// One row of output, without the prefix that is put before it.
pub ghost struct Row {
    /// The style that is switched on again at the start of the row.
    pub open: Seq<char>,
    /// What was left of a word that had to be cut.
    pub carried: Seq<char>,
    /// The text behind it.
    pub body: Seq<char>,
    /// The word that was cut at the start of this row, or nothing.
    pub cut_from: Seq<char>,
    /// Whether the row is seen to fit, though its characters, counted one by one,
    /// take more columns than there are.
    pub seen_to_fit: bool,
    /// Whether the row ends with a reset of the style.
    pub reset: bool,
}

impl Row {
    /// The part of the source text that the row shows.
    pub open spec fn content(self) -> Seq<char> {
        self.carried + self.body
    }

    /// Whether what was measured of the row takes as many columns as it has
    /// characters, where those are printable.
    pub open spec fn is_measured(self) -> bool {
        is_measured(self.carried) && (self.seen_to_fit ==> is_measured(self.content()))
    }

    /// The characters of the row.
    pub open spec fn text(self) -> Seq<char> {
        self.open + self.carried + self.body + if self.reset {
            reset_sequence()
        } else {
            Seq::empty()
        }
    }
}

/// Whether the escape sequence `u` sets or resets a style.
pub open spec fn sets_style(u: Seq<char>) -> bool {
    u.len() >= 2 && u[1] == '[' && u.last() == 'm'
}

/// The state of a layout.
pub ghost struct Flow {
    /// The rows that are finished.
    pub rows: Seq<Row>,
    /// The style that the current row begins with.
    pub open: Seq<char>,
    /// What the current row has of a word that had to be cut.
    pub carried: Seq<char>,
    /// The text of the current row behind it.
    pub body: Seq<char>,
    /// The word that was cut at the start of the current row, or nothing.
    pub cut_from: Seq<char>,
    /// Whether the current row is seen to fit, though its characters, counted one
    /// by one, take more columns than there are.
    pub seen_to_fit: bool,
    /// The columns of the current row.
    pub line_width: nat,
    /// The word that is being read.
    pub word: Seq<char>,
    /// The columns of that word.
    pub word_width: nat,
    /// The style sequence that was read last, unless it was a reset.
    pub style: Option<Seq<char>>,
}

impl Flow {
    /// A layout in which nothing has been read.
    pub open spec fn start() -> Flow {
        Flow {
            rows: Seq::empty(),
            open: Seq::empty(),
            carried: Seq::empty(),
            body: Seq::empty(),
            cut_from: Seq::empty(),
            seen_to_fit: false,
            line_width: 0,
            word: Seq::empty(),
            word_width: 0,
            style: None,
        }
    }

    /// The style that a new row begins with.
    pub open spec fn style_text(self) -> Seq<char> {
        match self.style {
            Some(sequence) => sequence,
            None => Seq::empty(),
        }
    }

    /// The current row, as it would be finished now.
    pub open spec fn current_row(self, reset: bool) -> Row {
        Row {
            open: self.open,
            carried: self.carried,
            body: self.body,
            cut_from: self.cut_from,
            seen_to_fit: self.seen_to_fit,
            reset,
        }
    }

    /// Finishes the current row and begins a new one in the style at hand.
    pub open spec fn push_row(self) -> Flow {
        Flow {
            rows: self.rows.push(self.current_row(self.style is Some)),
            open: self.style_text(),
            carried: Seq::empty(),
            body: Seq::empty(),
            cut_from: Seq::empty(),
            seen_to_fit: false,
            line_width: 0,
            ..self
        }
    }

    /// Reads an escape sequence: it takes no columns and stays with its word.
    pub open spec fn escape(self, u: Seq<char>) -> Flow {
        Flow {
            word: self.word + u,
            style: if !sets_style(u) {
                self.style
            } else if u == reset_sequence() {
                None
            } else {
                Some(u)
            },
            ..self
        }
    }

    /// Whether `more` columns behind the word do not fit into the current row.
    pub open spec fn overflows(self, more: nat, width: nat) -> bool {
        self.line_width > 0 && self.line_width + self.word_width + more > width
    }

    /// Ends the word: it goes into the current row if it fits with `more` columns
    /// behind it, or if the row takes no columns, and else into a new one.
    pub open spec fn end_word(self, more: nat, width: nat) -> Flow {
        let f = if self.overflows(more, width) {
            self.push_row()
        } else {
            self
        };
        Flow {
            body: f.body + self.word,
            seen_to_fit: false,
            line_width: f.line_width + self.word_width,
            word: Seq::empty(),
            word_width: 0,
            ..f
        }
    }

    /// Puts the whitespace `c` behind what the current row shows, which is seen to
    /// take `seen` columns with it; or, if it fits neither as it is counted nor as
    /// it is seen, into a new row.
    pub open spec fn place(self, c: char, c_width: nat, seen: nat, width: nat) -> Flow {
        let is_over = self.overflows(c_width, width);
        let f = if is_over && seen > width {
            self.push_row()
        } else {
            self
        };
        Flow {
            body: f.body.push(c),
            seen_to_fit: is_over && seen <= width,
            line_width: f.line_width + c_width,
            ..f
        }
    }

    /// Reads the whitespace `c`: it ends the word and goes behind it.
    pub open spec fn space(self, c: char, c_width: nat, width: nat) -> Flow {
        let f = self.end_word(c_width, width);
        f.place(c, c_width, seen_width(f.carried + f.body.push(c)), width)
    }

    /// Reads a character of a word.
    pub open spec fn glyph(self, c: char, c_width: nat) -> Flow {
        Flow { word: self.word.push(c), word_width: self.word_width + c_width, ..self }
    }

    /// Whether the current row shows nothing yet.
    pub open spec fn is_blank(self) -> bool {
        self.carried.len() + self.body.len() == 0
    }

    /// Begins to cut the word: the current row is finished, unless it shows
    /// nothing yet.
    pub open spec fn begin_cut(self) -> Flow {
        let f = if self.is_blank() {
            self
        } else {
            self.push_row()
        };
        Flow { cut_from: self.word, ..f }
    }

    /// Makes a row of the first `n` characters of the word.
    pub open spec fn chunk(self, n: nat) -> Flow {
        Flow {
            rows: self.rows.push(
                Row {
                    open: self.style_text(),
                    carried: Seq::empty(),
                    body: self.word.take(n as int),
                    cut_from: self.cut_from,
                    seen_to_fit: false,
                    reset: self.style is Some,
                },
            ),
            word: self.word.skip(n as int),
            ..self
        }
    }

    /// Begins the current row with what is left of the word, `rest_width`
    /// columns of it.
    pub open spec fn end_cut(self, rest_width: nat) -> Flow {
        Flow {
            open: self.style_text(),
            carried: self.word,
            body: Seq::empty(),
            seen_to_fit: false,
            line_width: rest_width,
            word: Seq::empty(),
            word_width: 0,
            ..self
        }
    }

    /// Makes rows of the word as long as it is wider than `width`, but for a last
    /// character that is wider than that.
    pub open spec fn cut_chunks(self, width: nat) -> Flow
        decreases self.word.len(),
    {
        if seen_width(self.word) <= width || is_one_wide_chunk(self.word, width as int) {
            self.end_cut(seen_width(self.word))
        } else {
            proof {
                lemma_chunk(self.word, width);
            }
            self.chunk(chunk_len(self.word, width as int)).cut_chunks(width)
        }
    }

    /// Reads one unit.
    pub open spec fn step(self, u: Seq<char>, width: nat) -> Flow {
        if is_escape(u) {
            self.escape(u)
        } else if white_space(u[0]) {
            self.space(u[0], columns(u[0]), width)
        } else {
            let f = self.glyph(u[0], columns(u[0]));
            if f.word_width > width {
                f.begin_cut().cut_chunks(width)
            } else {
                f
            }
        }
    }

    /// Reads the units `us`, in order.
    pub open spec fn run(self, us: Seq<Seq<char>>, width: nat) -> Flow
        decreases us.len(),
    {
        if us.len() == 0 {
            self
        } else {
            self.step(us[0], width).run(us.drop_first(), width)
        }
    }

    /// The rows in the end: the last word is ended, and so is the current row.
    pub open spec fn finish(self, width: nat) -> Seq<Row> {
        let f = if self.word.len() > 0 {
            self.end_word(0, width)
        } else {
            self
        };
        f.rows.push(f.current_row(false))
    }

    /// Whether all that was measured of the rows takes as many columns as it has
    /// characters, where those are printable.
    pub open spec fn is_measured(self) -> bool {
        &&& self.current_row(false).is_measured()
        &&& forall|i: int| 0 <= i < self.rows.len() ==> (#[trigger] self.rows[i]).is_measured()
    }
}

/// Whether `s` takes as many columns as it has characters, where those are
/// printable.
pub open spec fn is_measured(s: Seq<char>) -> bool {
    is_printable(s) ==> seen_width(s) == s.len()
}

/// The rows of `text` where `width` columns are at hand for each.
///
/// A text that fits, and every text where `width` is 0, is one row as it stands.
/// A character that is wider than `width` has a row for itself.
pub open spec fn layout(text: Seq<char>, width: nat) -> Seq<Row> {
    if text.len() == 0 {
        Seq::empty()
    } else if width == 0 || visible_width(text) <= width {
        seq![
            Row {
                open: Seq::empty(),
                carried: text,
                body: Seq::empty(),
                cut_from: Seq::empty(),
                seen_to_fit: false,
                reset: false,
            },
        ]
    } else {
        Flow::start().run(units(text), width).finish(width)
    }
}

/// Puts the sequence that switches every style off behind `row`.
fn append_reset(row: &mut String)
    ensures
        final(row)@ == old(row)@ + reset_sequence(),
{
    let reset = "\x1b[0m";
    proof {
        reveal_strlit("\x1b[0m");
        assert(reset@ =~= reset_sequence());
    }
    row.append(reset);
}

/// A layout under way.
pub struct Layout {
    rows: Vec<String>,
    open: String,
    content: String,
    line_width: u128,
    word: String,
    word_width: u128,
    style: Option<String>,
    flow: Ghost<Flow>,
}

impl Layout {
    /// The state that this layout stands for.
    pub closed spec fn flow(self) -> Flow {
        self.flow@
    }

    /// Whether what is stored agrees with the state that it stands for.
    pub closed spec fn wf(self) -> bool {
        let f = self.flow@;
        &&& self.rows@.len() == f.rows.len()
        &&& forall|i: int|
            0 <= i < self.rows@.len() ==> (#[trigger] self.rows@[i])@ == f.rows[i].text()
        &&& self.open@ == f.open
        &&& self.content@ == f.carried + f.body
        &&& self.line_width == f.line_width
        &&& self.line_width <= 2 * usize::MAX
        &&& self.word@ == f.word
        &&& self.word_width == f.word_width
        &&& self.word_width <= 2 * usize::MAX
        &&& match self.style {
            Some(sequence) => f.style == Some(sequence@),
            None => f.style is None,
        }
    }

    /// A layout in which nothing has been read.
    pub fn new() -> (layout: Layout)
        ensures
            layout.wf(),
            layout.flow() == Flow::start(),
    {
        let layout = Layout {
            rows: Vec::new(),
            open: String::new(),
            content: String::new(),
            line_width: 0,
            word: String::new(),
            word_width: 0,
            style: None,
            flow: Ghost(Flow::start()),
        };
        assert(layout.open@ =~= Flow::start().open);
        assert(layout.content@ =~= Flow::start().carried + Flow::start().body);
        layout
    }

    fn style_text(&self) -> (text: String)
        requires
            self.wf(),
        ensures
            text@ == self.flow().style_text(),
    {
        match &self.style {
            Some(sequence) => sequence.clone(),
            None => String::new(),
        }
    }

    /// Finishes the current row and begins a new one in the style at hand.
    pub fn push_row(&mut self)
        requires
            old(self).wf(),
        ensures
            final(self).wf(),
            final(self).flow() == old(self).flow().push_row(),
    {
        let ghost f = self.flow@;
        let next = self.style_text();
        let mut row = self.open.clone();
        row.append(self.content.as_str());
        if self.style.is_some() {
            append_reset(&mut row);
        }
        assert(row@ =~= f.current_row(f.style is Some).text());
        self.rows.push(row);
        self.open = next;
        self.content = String::new();
        self.line_width = 0;
        self.flow = Ghost(f.push_row());
        assert(self.content@ =~= self.flow@.carried + self.flow@.body);
    }

    /// Reads the escape sequence `sequence`.
    pub fn escape(&mut self, sequence: &str)
        requires
            old(self).wf(),
        ensures
            final(self).wf(),
            final(self).flow() == old(self).flow().escape(sequence@),
    {
        let ghost f = self.flow@;
        let chars = characters(sequence);
        let len = chars.len();
        if len >= 2 && chars[1] == '[' && chars[len - 1] == 'm' {
            let is_reset = len == 4 && chars[0] == ESC && chars[2] == '0';
            assert(is_reset <==> sequence@ =~= reset_sequence());
            if is_reset {
                self.style = None;
            } else {
                self.style = Some(text_between(&chars, 0, len));
                assert(sequence@.subrange(0, len as int) =~= sequence@);
            }
        }
        self.word.append(sequence);
        self.flow = Ghost(f.escape(sequence@));
    }

    /// Ends the word, which is to have `more` columns behind it in its row.
    pub fn end_word(&mut self, more: usize, width: usize)
        requires
            old(self).wf(),
            old(self).flow().word_width <= usize::MAX,
        ensures
            final(self).wf(),
            final(self).flow() == old(self).flow().end_word(more as nat, width as nat),
    {
        let ghost before = self.flow@;
        if self.line_width > 0 && self.line_width + self.word_width + more as u128
            > width as u128 {
            self.push_row();
        }
        let ghost f = self.flow@;
        self.content.append(self.word.as_str());
        self.line_width = self.line_width + self.word_width;
        self.word = String::new();
        self.word_width = 0;
        self.flow = Ghost(before.end_word(more as nat, width as nat));
        assert(self.content@ =~= f.carried + (f.body + before.word));
    }

    /// Puts the whitespace `c`, which takes `c_width` columns, behind what the
    /// current row shows, which is seen to take `seen` columns with it.
    pub fn place(&mut self, c: char, c_width: usize, seen: usize, width: usize)
        requires
            old(self).wf(),
            old(self).flow().word_width == 0,
            old(self).flow().line_width <= usize::MAX,
        ensures
            final(self).wf(),
            final(self).flow() == old(self).flow().place(
                c,
                c_width as nat,
                seen as nat,
                width as nat,
            ),
    {
        let ghost before = self.flow@;
        if self.line_width > 0 && self.line_width + c_width as u128 > width as u128 && seen
            > width {
            self.push_row();
        }
        let ghost f = self.flow@;
        self.content.push(c);
        self.line_width = self.line_width + c_width as u128;
        self.flow = Ghost(before.place(c, c_width as nat, seen as nat, width as nat));
        assert(self.content@ =~= f.carried + f.body.push(c));
    }

    /// Reads the whitespace `c`, which takes `c_width` columns.
    pub fn space(&mut self, c: char, c_width: usize, width: usize)
        requires
            old(self).wf(),
            old(self).flow().word_width <= usize::MAX,
        ensures
            final(self).wf(),
            final(self).flow() == old(self).flow().space(c, c_width as nat, width as nat),
            old(self).flow().is_measured() ==> final(self).flow().is_measured(),
    {
        self.end_word(c_width, width);
        let ghost f = self.flow@;
        let mut content = self.content.clone();
        content.push(c);
        assert(content@ =~= f.carried + f.body.push(c));
        let seen: usize = visible_length(content.as_str());
        self.place(c, c_width, seen, width);
        assert(self.flow@.seen_to_fit ==> self.flow@.current_row(false).content()
            =~= content@);
    }

    /// Reads the character `c` of a word, which takes `c_width` columns.
    pub fn glyph(&mut self, c: char, c_width: usize)
        requires
            old(self).wf(),
            old(self).flow().word_width <= usize::MAX,
        ensures
            final(self).wf(),
            final(self).flow() == old(self).flow().glyph(c, c_width as nat),
    {
        let ghost f = self.flow@;
        self.word.push(c);
        self.word_width = self.word_width + c_width as u128;
        self.flow = Ghost(f.glyph(c, c_width as nat));
    }

    /// Begins to cut the word.
    pub fn begin_cut(&mut self)
        requires
            old(self).wf(),
        ensures
            final(self).wf(),
            final(self).flow() == old(self).flow().begin_cut(),
    {
        let ghost f = self.flow@;
        if !self.content.as_str().is_empty() {
            self.push_row();
        }
        self.flow = Ghost(f.begin_cut());
    }

    /// Makes a row of `head`, with which the word begins, and keeps `rest` of it.
    pub fn chunk(&mut self, head: &str, rest: String)
        requires
            old(self).wf(),
            old(self).flow().word == head@ + rest@,
        ensures
            final(self).wf(),
            final(self).flow() == old(self).flow().chunk(head@.len()),
    {
        let ghost f = self.flow@;
        let mut row = self.style_text();
        row.append(head);
        if self.style.is_some() {
            append_reset(&mut row);
        }
        self.rows.push(row);
        self.word = rest;
        self.flow = Ghost(f.chunk(head@.len()));
        proof {
            assert(f.word.take(head@.len() as int) =~= head@);
            assert(f.word.skip(head@.len() as int) =~= rest@);
            assert(row@ =~= self.flow@.rows.last().text());
        }
    }

    /// Begins the current row with what is left of the word, `rest_width`
    /// columns of it.
    pub fn end_cut(&mut self, rest_width: usize)
        requires
            old(self).wf(),
        ensures
            final(self).wf(),
            final(self).flow() == old(self).flow().end_cut(rest_width as nat),
    {
        let ghost f = self.flow@;
        self.open = self.style_text();
        self.content = self.word.clone();
        self.line_width = rest_width as u128;
        self.word = String::new();
        self.word_width = 0;
        self.flow = Ghost(f.end_cut(rest_width as nat));
        assert(self.content@ =~= f.word + Seq::<char>::empty());
    }

    /// Makes rows of the word as long as it is wider than `width`, but for a last
    /// character that is wider than that.
    fn cut_chunks(&mut self, width: usize)
        requires
            old(self).wf(),
        ensures
            final(self).wf(),
            final(self).flow() == old(self).flow().cut_chunks(width as nat),
            old(self).flow().is_measured() ==> final(self).flow().is_measured(),
    {
        let mut left = visible_length(self.word.as_str());
        let mut is_whole = false;
        while left > width && !is_whole
            invariant
                self.wf(),
                left == seen_width(self.flow().word),
                is_printable(self.flow().word) ==> left == self.flow().word.len(),
                is_whole ==> is_one_wide_chunk(self.flow().word, width as int),
                self.flow().cut_chunks(width as nat) == old(self).flow().cut_chunks(width as nat),
                old(self).flow().is_measured() ==> self.flow().is_measured(),
            decreases self.flow().word.len(),
                (if is_whole {
                    0int
                } else {
                    1int
                }),
        {
            let (head, rest, forced) = split_chunk(self.word.as_str(), width);
            proof {
                lemma_chunk(self.flow().word, width as nat);
            }
            if forced && rest.as_str().is_empty() {
                is_whole = true;
            } else {
                self.chunk(head.as_str(), rest);
                left = visible_length(self.word.as_str());
                assert(old(self).flow().is_measured() ==> self.flow().is_measured());
            }
        }
        self.end_cut(left);
    }

    /// Reads a character of a word, and cuts the word if it is wider than `width`
    /// with it.
    pub fn word_character(&mut self, c: char, width: usize)
        requires
            old(self).wf(),
            old(self).flow().word_width <= width,
            c != ESC,
            !white_space(c),
        ensures
            final(self).wf(),
            final(self).flow() == old(self).flow().step(seq![c], width as nat),
            final(self).flow().word_width <= width,
            old(self).flow().is_measured() ==> final(self).flow().is_measured(),
    {
        self.glyph(c, columns_of(c));
        if self.word_width > width as u128 {
            self.begin_cut();
            proof {
                lemma_cut_word_width(self.flow(), width as nat);
            }
            self.cut_chunks(width);
        }
    }

    /// The rows in the end.
    pub fn finish(self, width: usize) -> (rows: Vec<String>)
        requires
            self.wf(),
            self.flow().word_width <= usize::MAX,
        ensures
            rows@.len() == self.flow().finish(width as nat).len(),
            forall|i: int|
                0 <= i < rows@.len() ==> (#[trigger] rows@[i])@ == self.flow().finish(
                    width as nat,
                )[i].text(),
    {
        let mut layout = self;
        if !layout.word.as_str().is_empty() {
            layout.end_word(0, width);
        }
        let ghost f = layout.flow@;
        let mut row = layout.open;
        row.append(layout.content.as_str());
        let mut rows = layout.rows;
        rows.push(row);
        assert(row@ =~= f.current_row(false).text());
        rows
    }
}

/// Once a word is cut, no word is under way.
proof fn lemma_cut_word_width(f: Flow, width: nat)
    ensures
        f.cut_chunks(width).word_width == 0,
    decreases f.word.len(),
{
    if seen_width(f.word) > width && !is_one_wide_chunk(f.word, width as int) {
        lemma_chunk(f.word, width);
        lemma_cut_word_width(f.chunk(chunk_len(f.word, width as int)), width);
    }
}

/// **A row is what it shows between its styles**: what it is opened with, the rest of
/// a word and what stands behind it, and the sequence that switches every style off,
/// where it ends with a reset.
pub proof fn law_row_is_what_it_shows(row: Row)
    ensures
        row.content() == row.carried + row.body,
        row.reset ==> row.text() == row.open + row.content() + seq!['\x1b', '[', '0', 'm'],
        !row.reset ==> row.text() == row.open + row.content(),
{
    assert(row.reset ==> row.text() =~= row.open + row.content() + seq!['\x1b', '[', '0', 'm']);
    assert(!row.reset ==> row.text() =~= row.open + row.content());
}

} // verus!
