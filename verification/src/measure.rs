//! Display widths, and the few string operations that the layout is made of.

use vstd::prelude::*;

use crate::ansi::{is_escape, units};

verus! {

/// What `unicode_width` gives for one character: its columns, or `None` for a
/// control character.
pub uninterp spec fn char_width(c: char) -> Option<usize>;

/// What `streamdown_ansi` gives for a text: the columns of what is left of it
/// without its escape sequences.
pub uninterp spec fn visible_width(text: Seq<char>) -> usize;

/// Whether `text` is made of the ASCII characters from space to tilde alone.
pub open spec fn is_printable(text: Seq<char>) -> bool {
    forall|i: int| 0 <= i < text.len() ==> ' ' <= #[trigger] text[i] <= '~'
}

/// Calls `unicode_width::UnicodeWidthChar::width`.
///
/// Claimed of it: the result depends on the character alone; it is `None` for
/// the control characters and for no other; no character is wider than three
/// columns; the printable characters of ASCII are one column wide.
#[verifier::external_body]
pub(crate) fn measure_char(c: char) -> (columns: Option<usize>)
    ensures
        columns == char_width(c),
        columns is None <==> (c < ' ' || '\x7f' <= c < '\u{a0}'),
        columns matches Some(n) ==> n <= 3,
        ' ' <= c <= '~' ==> columns == Some(1usize),
{
    unicode_width::UnicodeWidthChar::width(c)
}

/// Calls `streamdown_ansi::utils::visible_length`.
///
/// Claimed of it: the result depends on the text alone, and printable ASCII,
/// in which there is no escape sequence, is as wide as it is long.
#[verifier::external_body]
pub(crate) fn visible_length(text: &str) -> (columns: usize)
    ensures
        columns == visible_width(text@),
        is_printable(text@) ==> columns == text@.len(),
{
    streamdown_ansi::utils::visible_length(text)
}

/// `String::push` puts one character behind those that are there.
pub assume_specification[ String::push ](s: &mut String, c: char)
    ensures
        final(s)@ == old(s)@.push(c),
;

/// The visible columns of a text, escape sequences apart; empty text has none.
pub open spec fn seen_width(text: Seq<char>) -> nat {
    if text.len() == 0 {
        0
    } else {
        visible_width(text) as nat
    }
}

/// The columns that a character takes in a line; a control character takes none.
pub open spec fn columns(c: char) -> nat {
    match char_width(c) {
        Some(n) => n as nat,
        None => 0,
    }
}

/// The columns that a unit takes in a line; an escape sequence takes none.
pub open spec fn unit_columns(u: Seq<char>) -> nat {
    if u.len() == 0 || is_escape(u) {
        0
    } else {
        columns(u[0])
    }
}

/// The columns of a sequence of units, added up.
pub open spec fn total_columns(us: Seq<Seq<char>>) -> nat
    decreases us.len(),
{
    if us.len() == 0 {
        0
    } else {
        unit_columns(us[0]) + total_columns(us.drop_first())
    }
}

/// The columns of the units of `s`, added up.
pub open spec fn text_columns(s: Seq<char>) -> nat {
    total_columns(units(s))
}

/// The columns that `c` takes in a line, and 0 for a control character.
pub fn columns_of(c: char) -> (n: usize)
    ensures
        n == columns(c),
        n <= 3,
        ' ' <= c <= '~' ==> n == 1,
{
    match measure_char(c) {
        Some(n) => n,
        None => 0,
    }
}

/// The characters of `text`, in order.
pub(crate) fn characters(text: &str) -> (chars: Vec<char>)
    ensures
        chars@ == text@,
{
    let mut chars: Vec<char> = Vec::new();
    for c in it: text.chars()
        invariant
            chars@ == it.seq().take(it.index() as int),
            it.seq() == text@,
    {
        chars.push(c);
    }
    chars
}

/// The text of `chars` from `from` up to `to`.
pub(crate) fn text_between(chars: &Vec<char>, from: usize, to: usize) -> (text: String)
    requires
        from <= to <= chars@.len(),
    ensures
        text@ == chars@.subrange(from as int, to as int),
{
    let mut text = String::new();
    let mut i: usize = from;
    while i < to
        invariant
            from <= i <= to <= chars@.len(),
            text@ == chars@.subrange(from as int, i as int),
        decreases to - i,
    {
        text.push(chars[i]);
        i = i + 1;
    }
    text
}

/// **A character takes the columns that it is measured to take**, and none where it
/// has no width.
pub proof fn law_character_takes_its_columns(c: char)
    ensures
        forall|n: usize| char_width(c) == Some(n) ==> columns(c) == n,
        char_width(c) is None ==> columns(c) == 0,
        c != '\x1b' ==> unit_columns(seq![c]) == columns(c),
{
}

/// **An escape sequence takes no columns.**
pub proof fn law_escape_sequence_takes_no_columns(u: Seq<char>)
    requires
        u.len() > 0,
        u[0] == '\x1b',
    ensures
        unit_columns(u) == 0,
{
}

/// **Columns add up**: those of units one behind the other are those of the first and
/// those of the others; one unit takes its own, and no units take none.
pub proof fn law_columns_add_up(x: Seq<Seq<char>>, y: Seq<Seq<char>>, u: Seq<char>)
    ensures
        total_columns(x + y) == total_columns(x) + total_columns(y),
        total_columns(seq![u]) == unit_columns(u),
        total_columns(Seq::<Seq<char>>::empty()) == 0,
    decreases x.len(),
{
    assert(seq![u].drop_first() =~= Seq::<Seq<char>>::empty());
    assert(total_columns(seq![u].drop_first()) == 0);
    if x.len() == 0 {
        assert(x + y =~= y);
    } else {
        assert((x + y).drop_first() =~= x.drop_first() + y);
        law_columns_add_up(x.drop_first(), y, u);
    }
}

/// **A text is seen as it is measured**, and empty text takes no columns.
pub proof fn law_text_is_seen_as_measured(text: Seq<char>)
    ensures
        text.len() > 0 ==> seen_width(text) == visible_width(text),
        text.len() == 0 ==> seen_width(text) == 0,
{
}

/// **Text is printable exactly where each of its characters is.**
pub proof fn law_text_is_printable_where_its_characters_are(text: Seq<char>)
    ensures
        is_printable(text) <==> forall|i: int|
            0 <= i < text.len() ==> ' ' <= #[trigger] text[i] && text[i] <= '~',
{
}

} // verus!
