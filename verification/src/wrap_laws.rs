//! What holds of every layout.

use vstd::prelude::*;

use crate::ansi::{
    closed_text, complete, is_escape, lemma_complete_first, lemma_first_unit_complete,
    lemma_unit_len, unit_len, units, white_space, ESC,
};
use crate::layout::{layout, Flow, Row};
use crate::measure::{
    columns, is_printable, seen_width, text_columns, total_columns, unit_columns, visible_width,
};
use crate::split::{
    chunk_len, is_lone, is_one_wide_chunk, lemma_chunk, lemma_no_columns, lemma_total_concat,
    lemma_units_step,
};

verus! {

/// The units of the source text that a row shows.
pub open spec fn row_units(row: Row) -> Seq<Seq<char>> {
    units(row.carried) + units(row.body)
}

/// The units of the source text that the rows show, in order.
pub open spec fn rows_units(rows: Seq<Row>) -> Seq<Seq<char>>
    decreases rows.len(),
{
    if rows.len() == 0 {
        Seq::empty()
    } else {
        rows_units(rows.drop_last()) + row_units(rows.last())
    }
}

/// The source text that the rows show, in order.
pub open spec fn rows_content(rows: Seq<Row>) -> Seq<char>
    decreases rows.len(),
{
    if rows.len() == 0 {
        Seq::empty()
    } else {
        rows_content(rows.drop_last()) + rows.last().content()
    }
}

/// The columns of a row: those that were measured of the rest of a word, and
/// those of the units behind it.
pub open spec fn row_columns(carried: Seq<char>, body: Seq<char>) -> nat {
    seen_width(carried) + text_columns(body)
}

/// Whether the row takes no more than `width` columns, as its characters are
/// counted, or else as it is seen.
pub open spec fn row_fits(row: Row, width: nat) -> bool {
    if row.seen_to_fit {
        seen_width(row.content()) <= width
    } else {
        row_columns(row.carried, row.body) <= width
    }
}

/// Whether no row takes more than `width` columns.
pub open spec fn rows_fit(rows: Seq<Row>, width: nat) -> bool {
    forall|i: int| 0 <= i < rows.len() ==> row_fits(#[trigger] rows[i], width)
}

/// Whether a row takes columns for one character alone, which is wider than
/// `width`.
pub open spec fn holds_one_wide(carried: Seq<char>, body: Seq<char>, width: nat) -> bool {
    ||| seen_width(carried) == 0 && is_lone(units(body), width)
    ||| text_columns(body) == 0 && is_lone(units(carried), width)
}

/// Whether a row keeps to `width` columns, as far as its characters do; and only
/// one that its characters, counted one by one, do not fit into is seen to.
pub open spec fn keeps_to(row: Row, width: nat) -> bool {
    &&& row_fits(row, width) || holds_one_wide(row.carried, row.body, width)
    &&& row.seen_to_fit ==> row_columns(row.carried, row.body) > width
}

/// Whether the unit `u` is whitespace.
pub open spec fn is_space(u: Seq<char>) -> bool {
    !is_escape(u) && white_space(u[0])
}

/// Whether none of the units `us` is whitespace.
pub open spec fn are_unspaced(us: Seq<Seq<char>>) -> bool {
    forall|i: int| 0 <= i < us.len() ==> !is_space(#[trigger] us[i])
}

/// The first token of the units `us`: a word with the whitespace behind it, or
/// whitespace that no word stands before.
pub open spec fn token(us: Seq<Seq<char>>) -> Seq<Seq<char>>
    decreases us.len(),
{
    if us.len() == 0 || is_space(us[0]) {
        us.take(if us.len() == 0 {
            0
        } else {
            1
        })
    } else {
        seq![us[0]] + token(us.drop_first())
    }
}

/// Whether the units of `part` stand one behind the other among `us`.
#[verifier::opaque]
pub open spec fn stands_in(part: Seq<char>, us: Seq<Seq<char>>) -> bool {
    exists|a: int|
        0 <= a <= us.len() - units(part).len() && #[trigger] us.subrange(
            a,
            a + units(part).len(),
        ) == units(part)
}

/// Whether `word` is a word of the text with the units `us`, or a part of one, that
/// is wider than `width`, and was not without its last unit.
pub open spec fn is_oversized(word: Seq<char>, us: Seq<Seq<char>>, width: nat) -> bool {
    &&& text_columns(word) > width
    &&& total_columns(units(word).drop_last()) <= width
    &&& are_unspaced(units(word))
    &&& stands_in(word, us)
}

/// Whether the unit `u` is a control sequence that ends with `m`.
pub open spec fn is_style_sequence(u: Seq<char>) -> bool {
    u.len() >= 3 && u[0] == '\x1b' && u[1] == '[' && u.last() == 'm'
}

/// Whether the unit `u` switches a style on.
pub open spec fn is_style(u: Seq<char>) -> bool {
    is_style_sequence(u) && u != seq!['\x1b', '[', '0', 'm']
}

/// Whether one of the units `us` switches a style on.
pub open spec fn has_style(us: Seq<Seq<char>>) -> bool {
    exists|i: int| 0 <= i < us.len() && is_style(#[trigger] us[i])
}

/// Whether `style` is nothing, or one of the units `us` that switches a style on.
pub open spec fn is_style_of(style: Seq<char>, us: Seq<Seq<char>>) -> bool {
    style.len() == 0 || (us.contains(style) && is_style(style))
}

/// Whether the row ends with whitespace, or comes of a word that had to be cut.
pub open spec fn ends_well(row: Row) -> bool {
    (row.body.len() > 0 && white_space(row.body.last())) || row.cut_from.len() > 0
}

/// Whether a row begins with whitespace.
pub open spec fn begins_with_space(carried: Seq<char>, body: Seq<char>) -> bool {
    carried.len() == 0 && body.len() > 0 && white_space(body[0])
}

/// Whether row `i` takes more than `width` columns together with the first token
/// behind it, or is measured to be wider than that itself.
pub open spec fn is_needed(rows: Seq<Row>, i: int, us: Seq<Seq<char>>, width: nat) -> bool {
    ||| row_columns(rows[i].carried, rows[i].body) + total_columns(
        token(us.skip(rows_units(rows.take(i + 1)).len() as int)),
    ) > width
    ||| seen_width(rows[i].content()) > width
}

/// Whether row `i`, if it is a piece of a word, holds as much of it as it can: the
/// next unit does not fit, or it is measured to be wider than `width` itself.
pub open spec fn is_full(rows: Seq<Row>, i: int, us: Seq<Seq<char>>, width: nat) -> bool {
    let end = rows_units(rows.take(i + 1)).len() as int;
    rows[i].carried.len() == 0 && are_unspaced(units(rows[i].body)) ==> {
        ||| end < us.len() && row_columns(rows[i].carried, rows[i].body) + unit_columns(us[end])
            > width
        ||| seen_width(rows[i].content()) > width
    }
}

/// The word that the units `us` end with.
pub open spec fn last_word(us: Seq<Seq<char>>) -> Seq<Seq<char>>
    decreases us.len(),
{
    if us.len() == 0 || is_space(us.last()) {
        Seq::empty()
    } else {
        last_word(us.drop_last()).push(us.last())
    }
}

/// Whether row `i`, if whitespace that would stand behind its last word begins the
/// next row, would be measured to be wider than `width` with it, and takes columns
/// for that word alone.
pub open spec fn has_no_room(rows: Seq<Row>, i: int, us: Seq<Seq<char>>, width: nat) -> bool {
    let end = rows_units(rows.take(i + 1)).len() as int;
    rows[i].body.len() > 0 && !is_space(units(rows[i].body).last()) && end < us.len() && is_space(
        us[end],
    ) ==> {
        &&& seen_width(rows[i].content().push(us[end][0])) > width || seen_width(rows[i].content())
            > width
        &&& row_columns(rows[i].carried, rows[i].body) == total_columns(
            last_word(units(rows[i].body)),
        )
    }
}

/// What holds of each row of a layout of the text with the units `us`.
pub open spec fn is_sound(row: Row, us: Seq<Seq<char>>, width: nat) -> bool {
    &&& keeps_to(row, width)
    &&& units(row.content()) == row_units(row)
    &&& is_style_of(row.open, us)
    &&& row.reset ==> has_style(us)
    &&& row.cut_from.len() > 0 ==> is_oversized(row.cut_from, us, width)
}

/// Text put behind closed text leaves its units alone.
pub proof fn lemma_units_concat(a: Seq<char>, b: Seq<char>)
    requires
        closed_text(a),
    ensures
        units(a + b) == units(a) + units(b),
        text_columns(a + b) == text_columns(a) + text_columns(b),
        closed_text(b) ==> closed_text(a + b),
    decreases a.len(),
{
    if a.len() == 0 {
        assert(a + b =~= b);
        assert(units(a) + units(b) =~= units(b));
    } else {
        lemma_unit_len(a);
        lemma_units_step(a);
        let n = unit_len(a) as int;
        let u = a.take(n);
        let rest = a.skip(n);
        assert(complete(units(a)[0]));
        assert forall|i: int| 0 <= i < units(rest).len() implies complete(
            #[trigger] units(rest)[i],
        ) by {
            assert(units(a)[i + 1] == units(a).drop_first()[i]);
        }
        lemma_units_concat(rest, b);
        assert(a + b =~= u + (rest + b));
        lemma_complete_first(u, rest + b);
        lemma_units_step(a + b);
        assert((a + b).take(n) =~= u);
        assert((a + b).skip(n) =~= rest + b);
        assert(units(a + b) =~= units(a) + units(b));
    }
    lemma_total_concat(units(a), units(b));
    if closed_text(b) {
        assert forall|i: int| 0 <= i < units(a + b).len() implies complete(
            #[trigger] units(a + b)[i],
        ) by {
            if i < units(a).len() {
                assert(complete(units(a)[i]));
            } else {
                assert(complete(units(b)[i - units(a).len()]));
            }
        }
    }
}

/// A single unit is its own only unit.
proof fn lemma_unit_alone(u: Seq<char>)
    requires
        u.len() > 0,
        unit_len(u) == u.len(),
    ensures
        units(u) == seq![u],
        text_columns(u) == unit_columns(u),
        complete(u) ==> closed_text(u),
{
    lemma_units_step(u);
    assert(u.take(u.len() as int) =~= u);
    assert(units(u.skip(u.len() as int)) =~= Seq::<Seq<char>>::empty());
    assert(units(u) =~= seq![u]);
    assert(seq![u].drop_first() =~= Seq::<Seq<char>>::empty());
    assert(total_columns(seq![u].drop_first()) == 0);
}

/// The first unit of a text is a unit by itself.
pub proof fn lemma_first_unit(s: Seq<char>)
    requires
        s.len() > 0,
    ensures
        ({
            let u = s.take(unit_len(s) as int);
            &&& 0 < unit_len(s) <= s.len()
            &&& u.len() > 0
            &&& unit_len(u) == u.len()
            &&& s.skip(unit_len(s) as int).len() > 0 ==> complete(u)
            &&& units(s) == seq![u] + units(s.skip(unit_len(s) as int))
        }),
{
    lemma_unit_len(s);
    lemma_units_step(s);
    if unit_len(s) < s.len() {
        lemma_first_unit_complete(s);
    } else {
        assert(s.take(unit_len(s) as int) =~= s);
    }
}

pub proof fn lemma_read(t: Seq<char>, u: Seq<char>)
    requires
        closed_text(t),
        u.len() > 0,
        unit_len(u) == u.len(),
    ensures
        units(t + u) == units(t) + seq![u],
        text_columns(t + u) == text_columns(t) + unit_columns(u),
        complete(u) ==> closed_text(t + u),
{
    lemma_unit_alone(u);
    lemma_units_concat(t, u);
}

pub proof fn lemma_single(c: char)
    requires
        c != ESC,
    ensures
        unit_len(seq![c]) == 1,
        complete(seq![c]),
        units(seq![c]) == seq![seq![c]],
        unit_columns(seq![c]) == columns(c),
{
    lemma_unit_alone(seq![c]);
}

pub proof fn lemma_empty()
    ensures
        units(Seq::<char>::empty()) == Seq::<Seq<char>>::empty(),
        closed_text(Seq::<char>::empty()),
        text_columns(Seq::<char>::empty()) == 0,
{
}

/// Both parts of closed text that is cut between two units are closed.
proof fn lemma_chunk_closed(s: Seq<char>, width: nat)
    requires
        closed_text(s),
    ensures
        closed_text(s.take(chunk_len(s, width as int) as int)),
        closed_text(s.skip(chunk_len(s, width as int) as int)),
{
    lemma_chunk(s, width);
    let n = chunk_len(s, width as int) as int;
    let h = units(s.take(n));
    let t = units(s.skip(n));
    assert forall|i: int| 0 <= i < h.len() implies complete(#[trigger] h[i]) by {
        assert(units(s)[i] == h[i]);
    }
    assert forall|i: int| 0 <= i < t.len() implies complete(#[trigger] t[i]) by {
        assert(units(s)[i + h.len()] == t[i]);
    }
}

/// A word goes into the token that it begins.
proof fn lemma_token_word(word: Seq<Seq<char>>, more: Seq<Seq<char>>)
    requires
        are_unspaced(word),
    ensures
        token(word + more) == word + token(more),
        total_columns(token(word + more)) == total_columns(word) + total_columns(token(more)),
    decreases word.len(),
{
    if word.len() == 0 {
        assert(word + more =~= more);
        assert(word + token(more) =~= token(more));
    } else {
        let rest = word.drop_first();
        assert forall|i: int| 0 <= i < rest.len() implies !is_space(#[trigger] rest[i]) by {
            assert(word[i + 1] == rest[i]);
        }
        lemma_token_word(rest, more);
        assert(!is_space(word[0]));
        assert((word + more).drop_first() =~= rest + more);
        assert(token(word + more) =~= word + token(more));
    }
    lemma_total_concat(word, token(more));
}

/// Whitespace that no word stands before is a token.
pub proof fn lemma_token_space(us: Seq<Seq<char>>)
    requires
        us.len() > 0,
        is_space(us[0]),
    ensures
        total_columns(token(us)) == unit_columns(us[0]),
{
    let t = us.take(1);
    assert(t.drop_first() =~= Seq::<Seq<char>>::empty());
    assert(total_columns(t.drop_first()) == 0);
}

pub proof fn lemma_rows_push(rows: Seq<Row>, row: Row)
    ensures
        rows_units(rows.push(row)) == rows_units(rows) + row_units(row),
        rows_content(rows.push(row)) == rows_content(rows) + row.content(),
{
    assert(rows.push(row).drop_last() =~= rows);
}

/// Whether the rows and what they do not hold yet are the text `t`, which is the
/// beginning of the text with the units `us`.
pub open spec fn is_read(f: Flow, t: Seq<char>, us: Seq<Seq<char>>) -> bool {
    &&& t == rows_content(f.rows) + f.carried + f.body + f.word
    &&& units(t) == rows_units(f.rows) + units(f.carried) + units(f.body) + units(f.word)
    &&& units(t).len() <= us.len()
    &&& units(t) == us.take(units(t).len() as int)
}

/// What holds of a layout that has read the text `t`, but for its current row.
pub open spec fn stands(f: Flow, t: Seq<char>, us: Seq<Seq<char>>, width: nat) -> bool {
    &&& is_read(f, t, us)
    &&& are_unspaced(units(f.word))
    &&& f.cut_from.len() > 0 ==> is_oversized(f.cut_from, us, width)
    &&& is_style_of(f.open, us)
    &&& is_style_of(f.style_text(), us)
    &&& f.style is Some ==> f.style_text().len() > 0
    &&& forall|i: int| 0 <= i < f.rows.len() ==> is_sound(#[trigger] f.rows[i], us, width)
    &&& forall|i: int| 0 <= i < f.rows.len() ==> (#[trigger] f.rows[i]).content().len() > 0
    &&& forall|i: int| 0 <= i < f.rows.len() ==> #[trigger] is_needed(f.rows, i, us, width)
    &&& forall|i: int| 0 <= i < f.rows.len() ==> #[trigger] is_full(f.rows, i, us, width)
    &&& forall|i: int| 0 <= i < f.rows.len() ==> #[trigger] has_no_room(f.rows, i, us, width)
}

/// Whether row `i` ends where a line may be broken.
pub open spec fn breaks_well(f: Flow, i: int) -> bool {
    ||| ends_well(f.rows[i])
    ||| if i + 1 < f.rows.len() {
        begins_with_space(f.rows[i + 1].carried, f.rows[i + 1].body)
    } else {
        begins_with_space(f.carried, f.body)
    }
}

/// What holds of a layout that has read the text `t`, but for its widths.
pub open spec fn holds(f: Flow, t: Seq<char>, us: Seq<Seq<char>>, width: nat) -> bool {
    &&& stands(f, t, us, width)
    &&& forall|i: int| 0 <= i < f.rows.len() ==> #[trigger] breaks_well(f, i)
    &&& closed_text(f.carried)
    &&& closed_text(f.body)
    &&& keeps_to(f.current_row(false), width)
    &&& f.body.len() > 0 ==> white_space(f.body.last()) && is_space(units(f.body).last())
    &&& f.carried.len() > 0 ==> f.cut_from.len() > 0
    &&& f.is_blank() && f.rows.len() > 0 ==> f.cut_from.len() > 0
}

/// What holds of a layout between two units.
pub open spec fn rests(f: Flow, t: Seq<char>, us: Seq<Seq<char>>, width: nat) -> bool {
    &&& holds(f, t, us, width)
    &&& f.word_width == text_columns(f.word)
    &&& f.word_width <= width
    &&& f.line_width == row_columns(f.carried, f.body)
}

/// What holds of a layout whose word is being cut.
pub open spec fn cuts(f: Flow, t: Seq<char>, us: Seq<Seq<char>>, width: nat) -> bool {
    &&& holds(f, t, us, width)
    &&& f.is_blank()
    &&& f.cut_from.len() > 0
    &&& closed_text(f.word)
}

/// Whether the current row shows the rest of a word alone, or ends with whitespace.
pub open spec fn ends_with_space(f: Flow) -> bool {
    if f.body.len() == 0 {
        f.carried.len() > 0
    } else {
        is_space(units(f.body).last())
    }
}

/// Whether whitespace comes behind the word that the current row ends with, and
/// does not fit.
pub open spec fn is_pushed_by_space(
    f: Flow,
    t: Seq<char>,
    us: Seq<Seq<char>>,
    width: nat,
) -> bool {
    &&& f.word.len() == 0
    &&& units(t).len() < us.len()
    &&& row_columns(f.carried, f.body) + unit_columns(us[units(t).len() as int]) > width
    &&& seen_width(f.carried + f.body.push(us[units(t).len() as int][0])) > width
    &&& row_columns(f.carried, f.body) == total_columns(last_word(units(f.body)))
}

/// A word behind whitespace, or behind nothing, is the last word.
proof fn lemma_last_word(x: Seq<Seq<char>>, word: Seq<Seq<char>>)
    requires
        are_unspaced(word),
        x.len() == 0 || is_space(x.last()),
    ensures
        last_word(x + word) == word,
    decreases word.len(),
{
    if word.len() == 0 {
        assert(x + word =~= x);
        assert(last_word(x) =~= word);
    } else {
        let front = word.drop_last();
        assert forall|i: int| 0 <= i < front.len() implies !is_space(#[trigger] front[i]) by {
            assert(word[i] == front[i]);
        }
        assert(!is_space(word[word.len() - 1]));
        assert((x + word).drop_last() =~= x + front);
        assert((x + word).last() == word.last());
        lemma_last_word(x, front);
        assert(front.push(word.last()) =~= word);
    }
}

/// Finishing the current row, where it and the next token do not fit into one.
#[verifier::rlimit(40)]
proof fn lemma_push_row(f: Flow, t: Seq<char>, us: Seq<Seq<char>>, width: nat)
    requires
        stands(f, t, us, width),
        closed_text(f.carried),
        keeps_to(f.current_row(false), width),
        !f.is_blank(),
        row_columns(f.carried, f.body) + total_columns(
            token(us.skip(units(t).len() - units(f.word).len())),
        ) > width,
        ends_with_space(f) || is_pushed_by_space(f, t, us, width),
    ensures
        stands(f.push_row(), t, us, width),
{
    lemma_empty();
    let row = f.current_row(f.style is Some);
    let g = f.push_row();
    lemma_rows_push(f.rows, row);
    lemma_units_concat(f.carried, f.body);
    assert(row.content() =~= f.carried + f.body);
    assert(t =~= rows_content(g.rows) + g.carried + g.body + g.word);
    assert(units(t) =~= rows_units(g.rows) + units(g.carried) + units(g.body) + units(g.word));
    assert(row.reset ==> has_style(us)) by {
        if f.style is Some {
            let k = choose|k: int| 0 <= k < us.len() && us[k] == f.style_text();
            assert(is_style(us[k]));
        }
    }
    assert forall|i: int| 0 <= i < g.rows.len() implies #[trigger] is_needed(
        g.rows,
        i,
        us,
        width,
    ) by {
        if i < f.rows.len() {
            assert(is_needed(f.rows, i, us, width));
            assert(g.rows.take(i + 1) =~= f.rows.take(i + 1));
        } else {
            assert(g.rows.take(i + 1) =~= g.rows);
            assert(rows_units(g.rows).len() == units(t).len() - units(f.word).len());
        }
    }
    assert forall|i: int| 0 <= i < g.rows.len() implies #[trigger] is_full(
        g.rows,
        i,
        us,
        width,
    ) && has_no_room(g.rows, i, us, width) by {
        if i < f.rows.len() {
            assert(is_full(f.rows, i, us, width));
            assert(has_no_room(f.rows, i, us, width));
            assert(g.rows.take(i + 1) =~= f.rows.take(i + 1));
        } else {
            assert(g.rows.take(i + 1) =~= g.rows);
            assert(rows_units(g.rows).len() == units(t).len() - units(f.word).len());
            if f.word.len() == 0 {
                assert(f.word =~= Seq::<char>::empty());
            }
            if is_pushed_by_space(f, t, us, width) {
                let c = us[units(t).len() as int][0];
                assert(row.content().push(c) =~= f.carried + f.body.push(c));
            }
            if f.body.len() > 0 && is_space(units(f.body).last()) {
                lemma_units_step(f.body);
                assert(is_space(units(f.body)[units(f.body).len() - 1]));
            }
        }
    }
    assert forall|i: int| 0 <= i < g.rows.len() implies #[trigger] has_no_room(
        g.rows,
        i,
        us,
        width,
    ) by {
        assert(is_full(g.rows, i, us, width));
    }
}

/// The current row of a layout ends where a line may be broken.
proof fn lemma_push_row_breaks(f: Flow)
    requires
        !f.is_blank(),
        f.body.len() > 0 ==> white_space(f.body.last()),
        f.carried.len() > 0 ==> f.cut_from.len() > 0,
        forall|i: int| 0 <= i < f.rows.len() ==> #[trigger] breaks_well(f, i),
    ensures
        forall|i: int|
            0 <= i < f.push_row().rows.len() ==> #[trigger] breaks_well(f.push_row(), i),
{
    let g = f.push_row();
    assert forall|i: int| 0 <= i < g.rows.len() implies #[trigger] breaks_well(g, i) by {
        if i < f.rows.len() {
            assert(breaks_well(f, i));
        }
    }
}

/// The word grows by a unit that is no whitespace.
#[verifier::rlimit(40)]
pub proof fn lemma_word_grows(f: Flow, t: Seq<char>, u: Seq<char>, us: Seq<Seq<char>>, width: nat)
    requires
        holds(f, t, us, width),
        closed_text(t),
        closed_text(f.word),
        u.len() > 0,
        unit_len(u) == u.len(),
        !is_space(u),
        units(t).len() < us.len(),
        us[units(t).len() as int] == u,
    ensures
        holds(Flow { word: f.word + u, ..f }, t + u, us, width),
        text_columns(f.word + u) == text_columns(f.word) + unit_columns(u),
        complete(u) ==> closed_text(f.word + u) && closed_text(t + u),
{
    lemma_read(t, u);
    lemma_read(f.word, u);
    let g = Flow { word: f.word + u, ..f };
    assert(t + u =~= rows_content(g.rows) + g.carried + g.body + g.word);
    assert(units(t + u) =~= rows_units(g.rows) + units(g.carried) + units(g.body) + units(g.word));
    assert(units(t + u) =~= us.take(units(t + u).len() as int));
    assert forall|i: int| 0 <= i < units(g.word).len() implies !is_space(
        #[trigger] units(g.word)[i],
    ) by {
        if i < units(f.word).len() {
            assert(units(g.word)[i] == units(f.word)[i]);
        }
    }
    assert forall|i: int| 0 <= i < g.rows.len() implies #[trigger] breaks_well(g, i) by {
        assert(breaks_well(f, i));
    }
}

proof fn lemma_escape(f: Flow, t: Seq<char>, u: Seq<char>, us: Seq<Seq<char>>, width: nat)
    requires
        rests(f, t, us, width),
        closed_text(t),
        closed_text(f.word),
        is_escape(u),
        unit_len(u) == u.len(),
        units(t).len() < us.len(),
        us[units(t).len() as int] == u,
    ensures
        rests(f.escape(u), t + u, us, width),
        complete(u) ==> closed_text(f.escape(u).word) && closed_text(t + u),
{
    lemma_word_grows(f, t, u, us, width);
    let g = f.escape(u);
    let h = Flow { word: f.word + u, ..f };
    assert(us.contains(u));
    assert forall|i: int| 0 <= i < g.rows.len() implies #[trigger] breaks_well(g, i) by {
        assert(breaks_well(h, i));
    }
}

/// The word goes into a row.
#[verifier::rlimit(40)]
pub proof fn lemma_end_word(f: Flow, t: Seq<char>, more: nat, us: Seq<Seq<char>>, width: nat)
    requires
        rests(f, t, us, width),
        f.overflows(more, width) ==> f.line_width + f.word_width + total_columns(
            token(us.skip(units(t).len() as int)),
        ) > width,
    ensures
        ({
            let g = f.end_word(more, width);
            &&& stands(g, t, us, width)
            &&& forall|i: int| 0 <= i < g.rows.len() ==> #[trigger] breaks_well(g, i)
            &&& closed_text(g.carried)
            &&& closed_text(f.word) ==> closed_text(g.body)
            &&& g.word.len() == 0
            &&& g.carried.len() > 0 ==> g.cut_from.len() > 0
            &&& g.line_width == row_columns(g.carried, g.body)
            &&& keeps_to(g.current_row(false), width)
            &&& g.line_width <= width
            &&& g.line_width + more <= width || g.line_width == total_columns(
                last_word(units(g.body)),
            )
            &&& !g.seen_to_fit
            &&& f.word.len() > 0 ==> !g.is_blank()
        }),
{
    lemma_empty();
    let n = units(t).len() as int;
    let w = units(f.word);
    lemma_token_word(w, us.skip(n));
    assert(w + us.skip(n) =~= us.skip(n - w.len())) by {
        assert(us.take(n) =~= units(t));
        assert forall|i: int| 0 <= i < w.len() implies #[trigger] w[i] == us[n - w.len() + i] by {
            assert(units(t)[n - w.len() + i] == w[i]);
        }
    }
    let f1 = if f.overflows(more, width) {
        lemma_push_row(f, t, us, width);
        lemma_push_row_breaks(f);
        f.push_row()
    } else {
        f
    };
    let g = f.end_word(more, width);
    lemma_units_concat(f1.body, f.word);
    assert(t =~= rows_content(g.rows) + g.carried + g.body + g.word);
    assert(units(t) =~= rows_units(g.rows) + units(g.carried) + units(g.body) + units(g.word));
    assert forall|i: int| 0 <= i < g.rows.len() implies #[trigger] breaks_well(g, i) by {
        assert(breaks_well(f1, i));
    }
    if f.word.len() == 0 {
        assert(g.body =~= f1.body);
        assert(f.word =~= Seq::<char>::empty());
    }
    if f1.body.len() == 0 {
        assert(f1.body =~= Seq::<char>::empty());
    }
    lemma_last_word(units(f1.body), w);
}

/// Whether whitespace can be put behind what the current row shows.
pub open spec fn awaits_space(g: Flow, t: Seq<char>, us: Seq<Seq<char>>, width: nat) -> bool {
    &&& stands(g, t, us, width)
    &&& forall|i: int| 0 <= i < g.rows.len() ==> #[trigger] breaks_well(g, i)
    &&& closed_text(g.carried)
    &&& closed_text(g.body)
    &&& g.word.len() == 0
    &&& g.word_width == 0
    &&& g.carried.len() > 0 ==> g.cut_from.len() > 0
    &&& g.line_width == row_columns(g.carried, g.body)
    &&& g.line_width <= width
    &&& !g.seen_to_fit
}

/// A row that takes no columns keeps to `width` with one more character, as far as
/// that does.
proof fn lemma_one_wide(carried: Seq<char>, body: Seq<char>, c: char, width: nat)
    requires
        c != ESC,
        closed_text(body),
        row_columns(carried, body) == 0,
        columns(c) > width,
    ensures
        holds_one_wide(carried, body.push(c), width),
{
    lemma_single(c);
    lemma_read(body, seq![c]);
    assert(body.push(c) =~= body + seq![c]);
    lemma_no_columns(units(body));
    let us = units(body.push(c));
    let last = units(body).len() as int;
    assert(unit_columns(us[last]) > width);
    assert forall|j: int| 0 <= j < us.len() && j != last implies unit_columns(#[trigger] us[j])
        == 0 by {
        assert(units(body)[j] == us[j]);
    }
}

/// Whitespace goes into the current row.
#[verifier::rlimit(40)]
proof fn lemma_place_here(
    g: Flow,
    t: Seq<char>,
    c: char,
    seen_to_fit: bool,
    us: Seq<Seq<char>>,
    width: nat,
)
    requires
        awaits_space(g, t, us, width),
        closed_text(t),
        c != ESC,
        white_space(c),
        units(t).len() < us.len(),
        us[units(t).len() as int] == seq![c],
        seen_to_fit ==> seen_width(g.carried + g.body.push(c)) <= width && g.line_width + columns(c)
            > width,
        !seen_to_fit ==> g.line_width == 0 || g.line_width + columns(c) <= width,
    ensures
        rests(
            Flow {
                body: g.body.push(c),
                seen_to_fit,
                line_width: g.line_width + columns(c),
                ..g
            },
            t + seq![c],
            us,
            width,
        ),
{
    lemma_single(c);
    lemma_empty();
    let u = seq![c];
    let k = Flow {
        body: g.body.push(c),
        seen_to_fit,
        line_width: g.line_width + columns(c),
        ..g
    };
    lemma_read(t, u);
    lemma_read(g.body, u);
    assert(g.word =~= Seq::<char>::empty());
    assert(k.body =~= g.body + u);
    assert(t + u =~= rows_content(k.rows) + k.carried + k.body + k.word);
    assert(units(t + u) =~= rows_units(k.rows) + units(k.carried) + units(k.body) + units(k.word));
    assert(units(t + u) =~= us.take(units(t + u).len() as int));
    assert forall|i: int| 0 <= i < k.rows.len() implies #[trigger] breaks_well(k, i) by {
        assert(breaks_well(g, i));
    }
    assert(k.current_row(false).content() =~= g.carried + g.body.push(c));
    if !seen_to_fit && k.line_width > width {
        lemma_one_wide(g.carried, g.body, c, width);
    }
}

/// Whitespace begins a new row.
#[verifier::rlimit(40)]
proof fn lemma_place_next(g: Flow, t: Seq<char>, c: char, us: Seq<Seq<char>>, width: nat)
    requires
        awaits_space(g, t, us, width),
        closed_text(t),
        c != ESC,
        white_space(c),
        units(t).len() < us.len(),
        us[units(t).len() as int] == seq![c],
        g.overflows(columns(c), width),
        seen_width(g.carried + g.body.push(c)) > width,
        g.line_width == total_columns(last_word(units(g.body))),
    ensures
        rests(
            Flow {
                body: g.push_row().body.push(c),
                seen_to_fit: false,
                line_width: columns(c),
                ..g.push_row()
            },
            t + seq![c],
            us,
            width,
        ),
{
    lemma_single(c);
    lemma_empty();
    let u = seq![c];
    let h = g.push_row();
    let k = Flow { body: h.body.push(c), seen_to_fit: false, line_width: columns(c), ..h };
    assert(g.word =~= Seq::<char>::empty());
    lemma_token_space(us.skip(units(t).len() as int));
    lemma_push_row(g, t, us, width);
    lemma_read(t, u);
    lemma_read(h.body, u);
    assert(k.body =~= h.body + u);
    assert(t + u =~= rows_content(k.rows) + k.carried + k.body + k.word);
    assert(units(t + u) =~= rows_units(k.rows) + units(k.carried) + units(k.body) + units(k.word));
    assert(units(t + u) =~= us.take(units(t + u).len() as int));
    assert forall|i: int| 0 <= i < k.rows.len() implies #[trigger] breaks_well(k, i) by {
        if i < g.rows.len() {
            assert(breaks_well(g, i));
        }
    }
    if k.line_width > width {
        lemma_one_wide(h.carried, h.body, c, width);
    }
}

proof fn lemma_space(f: Flow, t: Seq<char>, c: char, us: Seq<Seq<char>>, width: nat)
    requires
        rests(f, t, us, width),
        closed_text(t),
        closed_text(f.word),
        c != ESC,
        white_space(c),
        units(t).len() < us.len(),
        us[units(t).len() as int] == seq![c],
    ensures
        rests(f.space(c, columns(c), width), t + seq![c], us, width),
        closed_text(t + seq![c]),
        f.space(c, columns(c), width).word.len() == 0,
{
    lemma_single(c);
    lemma_read(t, seq![c]);
    lemma_token_space(us.skip(units(t).len() as int));
    lemma_end_word(f, t, columns(c), us, width);
    let g = f.end_word(columns(c), width);
    let is_over = g.overflows(columns(c), width);
    let seen = seen_width(g.carried + g.body.push(c));
    if is_over && seen > width {
        lemma_place_next(g, t, c, us, width);
    } else {
        lemma_place_here(g, t, c, is_over, us, width);
    }
}

/// The word that is being read stands at the end of the text.
pub proof fn lemma_word_stands_in(f: Flow, t: Seq<char>, us: Seq<Seq<char>>)
    requires
        is_read(f, t, us),
    ensures
        stands_in(f.word, us),
        us.skip(units(t).len() - units(f.word).len()) == units(f.word) + us.skip(
            units(t).len() as int,
        ),
{
    let n = units(t).len() as int;
    let w = units(f.word);
    reveal(stands_in);
    assert forall|i: int| 0 <= i < w.len() implies #[trigger] w[i] == us[n - w.len() + i] by {
        assert(units(t)[n - w.len() + i] == w[i]);
    }
    assert(us.subrange(n - w.len(), n - w.len() + w.len()) =~= w);
    assert(us.skip(n - w.len()) =~= w + us.skip(n));
}

pub proof fn lemma_begin_cut(f: Flow, t: Seq<char>, us: Seq<Seq<char>>, width: nat)
    requires
        holds(f, t, us, width),
        closed_text(f.word),
        text_columns(f.word) > width,
        total_columns(units(f.word).drop_last()) <= width,
    ensures
        cuts(f.begin_cut(), t, us, width),
{
    lemma_empty();
    lemma_word_stands_in(f, t, us);
    lemma_token_word(units(f.word), us.skip(units(t).len() as int));
    let g = f.begin_cut();
    let h = if f.is_blank() {
        f
    } else {
        lemma_push_row(f, t, us, width);
        lemma_push_row_breaks(f);
        f.push_row()
    };
    if f.word.len() == 0 {
        assert(f.word =~= Seq::<char>::empty());
    }
    assert forall|i: int| 0 <= i < g.rows.len() implies #[trigger] breaks_well(g, i) by {
        assert(breaks_well(h, i));
    }
}

#[verifier::rlimit(40)]
pub proof fn lemma_cut_chunk(f: Flow, t: Seq<char>, us: Seq<Seq<char>>, width: nat)
    requires
        cuts(f, t, us, width),
        seen_width(f.word) > width,
        !is_one_wide_chunk(f.word, width as int),
    ensures
        cuts(f.chunk(chunk_len(f.word, width as int)), t, us, width),
{
    lemma_empty();
    let n = chunk_len(f.word, width as int);
    let g = f.chunk(n);
    let head = f.word.take(n as int);
    let rest = f.word.skip(n as int);
    lemma_chunk(f.word, width);
    lemma_chunk_closed(f.word, width);
    let row = g.rows.last();
    lemma_rows_push(f.rows, row);
    assert(f.word =~= head + rest);
    assert(f.carried =~= Seq::<char>::empty() && f.body =~= Seq::<char>::empty());
    assert(row.content() =~= head);
    assert(row_units(row) =~= units(head));
    assert(t =~= rows_content(g.rows) + g.carried + g.body + g.word);
    assert(units(t) =~= rows_units(g.rows) + units(g.carried) + units(g.body) + units(g.word));
    assert forall|i: int| 0 <= i < units(rest).len() implies !is_space(
        #[trigger] units(rest)[i],
    ) by {
        assert(units(f.word)[i + units(head).len()] == units(rest)[i]);
    }
    assert(row.reset ==> has_style(us)) by {
        if f.style is Some {
            let k = choose|k: int| 0 <= k < us.len() && us[k] == f.style_text();
            assert(is_style(us[k]));
        }
    }
    lemma_word_stands_in(g, t, us);
    lemma_token_word(units(rest), us.skip(units(t).len() as int));
    assert forall|i: int| 0 <= i < g.rows.len() implies #[trigger] is_needed(
        g.rows,
        i,
        us,
        width,
    ) by {
        if i < f.rows.len() {
            assert(is_needed(f.rows, i, us, width));
            assert(g.rows.take(i + 1) =~= f.rows.take(i + 1));
        } else {
            assert(g.rows.take(i + 1) =~= g.rows);
            assert(rows_units(g.rows).len() == units(t).len() - units(rest).len());
            if n == f.word.len() {
                assert(head =~= f.word);
            } else {
                lemma_units_step(rest);
            }
        }
    }
    assert forall|i: int| 0 <= i < g.rows.len() implies #[trigger] is_full(
        g.rows,
        i,
        us,
        width,
    ) by {
        if i < f.rows.len() {
            assert(is_full(f.rows, i, us, width));
            assert(g.rows.take(i + 1) =~= f.rows.take(i + 1));
        } else {
            assert(g.rows.take(i + 1) =~= g.rows);
            let end = rows_units(g.rows).len() as int;
            assert(end == units(t).len() - units(rest).len());
            if n == f.word.len() {
                assert(head =~= f.word);
            } else {
                lemma_units_step(rest);
                assert(us.skip(end)[0] == units(rest)[0]);
            }
        }
    }
    assert forall|i: int| 0 <= i < g.rows.len() implies #[trigger] has_no_room(
        g.rows,
        i,
        us,
        width,
    ) by {
        if i < f.rows.len() {
            assert(has_no_room(f.rows, i, us, width));
            assert(g.rows.take(i + 1) =~= f.rows.take(i + 1));
        } else {
            assert(g.rows.take(i + 1) =~= g.rows);
            let end = rows_units(g.rows).len() as int;
            assert(end == units(t).len() - units(rest).len());
            if n == f.word.len() {
                assert(head =~= f.word);
                lemma_last_word(Seq::empty(), units(head));
                assert(Seq::<Seq<char>>::empty() + units(head) =~= units(head));
            } else {
                lemma_units_step(rest);
                assert(us.skip(end)[0] == units(rest)[0]);
                assert(!is_space(units(rest)[0]));
            }
        }
    }
    assert forall|i: int| 0 <= i < g.rows.len() implies #[trigger] breaks_well(g, i) by {
        if i < f.rows.len() {
            assert(breaks_well(f, i));
        }
    }
}

proof fn lemma_cut_chunks(f: Flow, t: Seq<char>, us: Seq<Seq<char>>, width: nat)
    requires
        cuts(f, t, us, width),
    ensures
        rests(f.cut_chunks(width), t, us, width),
        f.cut_chunks(width).word.len() == 0,
    decreases f.word.len(),
{
    lemma_chunk(f.word, width);
    if seen_width(f.word) <= width || is_one_wide_chunk(f.word, width as int) {
        lemma_empty();
        let g = f.end_cut(seen_width(f.word));
        assert(f.carried =~= Seq::<char>::empty() && f.body =~= Seq::<char>::empty());
        assert(t =~= rows_content(g.rows) + g.carried + g.body + g.word);
        assert(units(t) =~= rows_units(g.rows) + units(g.carried) + units(g.body) + units(g.word));
        assert(keeps_to(g.current_row(false), width)) by {
            assert(f.word.take(f.word.len() as int) =~= f.word);
        }
        assert forall|i: int| 0 <= i < g.rows.len() implies #[trigger] breaks_well(g, i) by {
            assert(breaks_well(f, i));
        }
    } else {
        lemma_cut_chunk(f, t, us, width);
        lemma_cut_chunks(f.chunk(chunk_len(f.word, width as int)), t, us, width);
    }
}

pub proof fn lemma_step(f: Flow, t: Seq<char>, u: Seq<char>, us: Seq<Seq<char>>, width: nat)
    requires
        rests(f, t, us, width),
        closed_text(t),
        closed_text(f.word),
        u.len() > 0,
        unit_len(u) == u.len(),
        units(t).len() < us.len(),
        us[units(t).len() as int] == u,
    ensures
        rests(f.step(u, width), t + u, us, width),
        complete(u) ==> closed_text(f.step(u, width).word) && closed_text(t + u),
{
    lemma_empty();
    if is_escape(u) {
        lemma_escape(f, t, u, us, width);
    } else {
        let c = u[0];
        assert(u =~= seq![c]);
        lemma_single(c);
        if white_space(c) {
            lemma_space(f, t, c, us, width);
            assert(f.space(c, columns(c), width).word =~= Seq::<char>::empty());
        } else {
            let g = f.glyph(c, columns(c));
            let h = Flow { word: f.word + u, ..f };
            assert(g.word =~= f.word + u);
            lemma_word_grows(f, t, u, us, width);
            assert forall|i: int| 0 <= i < g.rows.len() implies #[trigger] breaks_well(g, i) by {
                assert(breaks_well(h, i));
            }
            assert(holds(g, t + u, us, width));
            if g.word_width > width {
                lemma_read(f.word, u);
                assert(units(g.word).drop_last() =~= units(f.word));
                lemma_begin_cut(g, t + u, us, width);
                lemma_cut_chunks(g.begin_cut(), t + u, us, width);
                assert(g.begin_cut().cut_chunks(width).word =~= Seq::<char>::empty());
            }
        }
    }
}

/// Reading the rest of a text.
pub proof fn lemma_run(f: Flow, t: Seq<char>, rest: Seq<char>, us: Seq<Seq<char>>, width: nat)
    requires
        rests(f, t, us, width),
        rest.len() > 0 ==> closed_text(t) && closed_text(f.word),
        us == units(t) + units(rest),
    ensures
        rests(f.run(units(rest), width), t + rest, us, width),
    decreases rest.len(),
{
    if rest.len() == 0 {
        assert(t + rest =~= t);
    } else {
        lemma_first_unit(rest);
        let n = unit_len(rest) as int;
        let u = rest.take(n);
        let more = rest.skip(n);
        lemma_step(f, t, u, us, width);
        lemma_read(t, u);
        assert(units(t + u) + units(more) =~= us);
        assert(units(rest).drop_first() =~= units(more));
        lemma_run(f.step(u, width), t + u, more, us, width);
        assert(t + u + more =~= t + rest);
    }
}

/// What holds of the rows of a text with the units `us`.
spec fn are_good(rows: Seq<Row>, text: Seq<char>, us: Seq<Seq<char>>, width: nat) -> bool {
    &&& rows_content(rows) == text
    &&& rows_units(rows) == us
    &&& forall|i: int| 0 <= i < rows.len() ==> is_sound(#[trigger] rows[i], us, width)
    &&& forall|i: int|
        0 <= i < rows.len() ==> (#[trigger] rows[i]).content().len() > 0 || (i == rows.len() - 1
            && rows[i].cut_from.len() > 0)
    &&& forall|i: int|
        0 <= i < rows.len() - 1 ==> ends_well(#[trigger] rows[i]) || begins_with_space(
            rows[i + 1].carried,
            rows[i + 1].body,
        )
    &&& forall|i: int| 0 <= i < rows.len() - 1 ==> #[trigger] is_needed(rows, i, us, width)
    &&& forall|i: int| 0 <= i < rows.len() - 1 ==> #[trigger] is_full(rows, i, us, width)
    &&& forall|i: int| 0 <= i < rows.len() - 1 ==> #[trigger] has_no_room(rows, i, us, width)
}

/// The rows in the end.
proof fn lemma_finish(f: Flow, t: Seq<char>, us: Seq<Seq<char>>, width: nat)
    requires
        rests(f, t, us, width),
        us == units(t),
        t.len() > 0,
    ensures
        are_good(f.finish(width), t, us, width),
{
    lemma_empty();
    let w = units(f.word);
    assert(us.skip(us.len() as int) =~= Seq::<Seq<char>>::empty());
    assert(token(us.skip(us.len() as int)) =~= Seq::<Seq<char>>::empty());
    let g = if f.word.len() > 0 {
        lemma_end_word(f, t, 0, us, width);
        f.end_word(0, width)
    } else {
        assert(f.word =~= Seq::<char>::empty());
        f
    };
    let last = g.current_row(false);
    let rows = f.finish(width);
    lemma_rows_push(g.rows, last);
    lemma_units_concat(g.carried, g.body);
    assert(last.content() =~= g.carried + g.body);
    assert(g.word =~= Seq::<char>::empty());
    assert(rows_content(rows) =~= t);
    assert(rows_units(rows) =~= us);
    assert(is_sound(last, us, width));
    if g.rows.len() == 0 && g.is_blank() {
        assert(t =~= Seq::<char>::empty());
    }
    assert forall|i: int| 0 <= i < rows.len() - 1 implies ends_well(#[trigger] rows[i])
        || begins_with_space(rows[i + 1].carried, rows[i + 1].body) by {
        assert(breaks_well(g, i));
    }
    assert forall|i: int| 0 <= i < rows.len() - 1 implies #[trigger] is_needed(
        rows,
        i,
        us,
        width,
    ) by {
        assert(is_needed(g.rows, i, us, width));
        assert(rows.take(i + 1) =~= g.rows.take(i + 1));
    }
    assert forall|i: int| 0 <= i < rows.len() - 1 implies #[trigger] is_full(
        rows,
        i,
        us,
        width,
    ) by {
        assert(is_full(g.rows, i, us, width));
        assert(rows.take(i + 1) =~= g.rows.take(i + 1));
    }
    assert forall|i: int| 0 <= i < rows.len() - 1 implies #[trigger] has_no_room(
        rows,
        i,
        us,
        width,
    ) by {
        assert(has_no_room(g.rows, i, us, width));
        assert(rows.take(i + 1) =~= g.rows.take(i + 1));
    }
}

/// What holds of the rows of a text.
proof fn lemma_layout(text: Seq<char>, width: nat)
    requires
        width > 0,
    ensures
        are_good(layout(text, width), text, units(text), width),
{
    lemma_empty();
    let rows = layout(text, width);
    if text.len() == 0 {
        assert(rows_content(rows) =~= text);
    } else if visible_width(text) <= width {
        lemma_rows_push(Seq::empty(), rows[0]);
        assert(rows =~= Seq::empty().push(rows[0]));
        assert(rows[0].content() =~= text);
        assert(rows_content(rows) =~= text);
        assert(row_units(rows[0]) =~= units(text));
        assert(rows_units(rows) =~= units(text));
    } else {
        let f = Flow::start();
        let none = Seq::<char>::empty();
        assert(none =~= rows_content(f.rows) + f.carried + f.body + f.word);
        assert(units(none) =~= rows_units(f.rows) + units(f.carried) + units(f.body) + units(
            f.word,
        ));
        assert(units(none) =~= units(text).take(0));
        assert(rests(f, none, units(text), width));
        assert(units(text) =~= units(none) + units(text));
        lemma_run(f, none, text, units(text), width);
        assert(none + text =~= text);
        lemma_finish(f.run(units(text), width), text, units(text), width);
    }
}

/// **Only empty text has no rows.**
pub proof fn law_empty_text_has_no_rows(text: Seq<char>, width: nat)
    ensures
        layout(text, width).len() == 0 <==> text.len() == 0,
{
}

/// **Text that fits stays as it is**: it is one row without additions.
pub proof fn law_fitting_text_is_one_row(text: Seq<char>, width: nat)
    requires
        text.len() > 0,
        width == 0 || visible_width(text) <= width,
    ensures
        layout(text, width).len() == 1,
        layout(text, width)[0].text() == text,
{
    assert(layout(text, width)[0].text() =~= text);
}

/// **Spaces are preserved**: what the rows show, put together, is the text as it
/// was written, with all the whitespace in it.
pub proof fn law_spaces_are_preserved(text: Seq<char>, width: nat)
    ensures
        rows_content(layout(text, width)) == text,
{
    if width > 0 {
        lemma_layout(text, width);
    } else if text.len() > 0 {
        let rows = layout(text, width);
        lemma_rows_push(Seq::empty(), rows[0]);
        assert(rows =~= Seq::empty().push(rows[0]));
        assert(rows_content(rows) =~= text);
    } else {
        assert(rows_content(layout(text, width)) =~= text);
    }
}

/// **No escape sequence is torn apart**: the units that the rows show are those
/// of the text, in order.
pub proof fn law_escape_sequences_stay_whole(text: Seq<char>, width: nat)
    ensures
        rows_units(layout(text, width)) == units(text),
{
    lemma_empty();
    if width > 0 {
        lemma_layout(text, width);
    } else if text.len() > 0 {
        let rows = layout(text, width);
        lemma_rows_push(Seq::empty(), rows[0]);
        assert(rows =~= Seq::empty().push(rows[0]));
        assert(rows_units(rows) =~= units(text));
    } else {
        assert(text =~= Seq::<char>::empty());
    }
}

/// Every unit of a row is one of the rows.
proof fn lemma_unit_of_row(rows: Seq<Row>, i: int, k: int)
    requires
        0 <= i < rows.len(),
        0 <= k < row_units(rows[i]).len(),
    ensures
        rows_units(rows).contains(row_units(rows[i])[k]),
    decreases rows.len(),
{
    let before = rows_units(rows.drop_last());
    let u = row_units(rows[i])[k];
    if i == rows.len() - 1 {
        assert(rows_units(rows)[before.len() + k] == u);
    } else {
        lemma_unit_of_row(rows.drop_last(), i, k);
        let j = choose|j: int| 0 <= j < before.len() && before[j] == u;
        assert(rows_units(rows)[j] == u);
    }
}

/// **Rows keep to the width**: where no character is wider than `width`, no row
/// takes more than `width` columns, as its characters are counted, or else as it
/// is seen.
pub proof fn law_rows_keep_to_the_width(text: Seq<char>, width: nat)
    requires
        width > 0,
        forall|k: int|
            0 <= k < units(text).len() ==> unit_columns(#[trigger] units(text)[k]) <= width,
    ensures
        rows_fit(layout(text, width), width),
{
    lemma_layout(text, width);
    let rows = layout(text, width);
    assert forall|i: int| 0 <= i < rows.len() implies row_fits(#[trigger] rows[i], width) by {
        let row = rows[i];
        assert(is_sound(row, units(text), width));
        assert forall|k: int| 0 <= k < row_units(row).len() implies unit_columns(
            #[trigger] row_units(row)[k],
        ) <= width by {
            lemma_unit_of_row(rows, i, k);
            let j = choose|j: int|
                0 <= j < units(text).len() && units(text)[j] == row_units(row)[k];
            assert(unit_columns(units(text)[j]) <= width);
        }
        assert forall|k: int| 0 <= k < units(row.carried).len() implies unit_columns(
            #[trigger] units(row.carried)[k],
        ) <= width by {
            assert(row_units(row)[k] == units(row.carried)[k]);
        }
        assert forall|k: int| 0 <= k < units(row.body).len() implies unit_columns(
            #[trigger] units(row.body)[k],
        ) <= width by {
            assert(row_units(row)[k + units(row.carried).len()] == units(row.body)[k]);
        }
    }
}

/// **A character that is too wide stands alone**: a row takes more than `width`
/// columns only for one character that is wider than that, and no other character
/// of the row takes columns.
pub proof fn law_wide_character_stands_alone(text: Seq<char>, width: nat, i: int)
    requires
        width > 0,
        0 <= i < layout(text, width).len(),
    ensures
        ({
            let row = layout(text, width)[i];
            row_fits(row, width) || holds_one_wide(row.carried, row.body, width)
        }),
{
    lemma_layout(text, width);
    assert(is_sound(layout(text, width)[i], units(text), width));
}

/// The units of a row stand one behind the other among those of the rows.
proof fn lemma_row_stands_in(rows: Seq<Row>, i: int) -> (start: int)
    requires
        0 <= i < rows.len(),
    ensures
        0 <= start <= start + row_units(rows[i]).len() <= rows_units(rows).len(),
        row_units(rows[i]) == rows_units(rows).subrange(
            start,
            start + row_units(rows[i]).len(),
        ),
    decreases rows.len(),
{
    let before = rows_units(rows.drop_last());
    let n = row_units(rows[i]).len();
    if i == rows.len() - 1 {
        let start = before.len() as int;
        assert(rows_units(rows).subrange(start, start + n) =~= row_units(rows[i]));
        start
    } else {
        let start = lemma_row_stands_in(rows.drop_last(), i);
        assert(rows_units(rows).subrange(start, start + n) =~= before.subrange(start, start + n));
        start
    }
}

/// **Rows are seen to keep to the width**: where every part of the text is
/// measured to be as wide as its characters together, and no character is wider
/// than `width`, no row is measured to be wider than `width`.
pub proof fn law_rows_are_seen_to_keep_to_the_width(text: Seq<char>, width: nat, i: int)
    requires
        width > 0,
        0 <= i < layout(text, width).len(),
        forall|k: int|
            0 <= k < units(text).len() ==> unit_columns(#[trigger] units(text)[k]) <= width,
        forall|part: Seq<char>| #[trigger]
            stands_in(part, units(text)) ==> seen_width(part) == text_columns(part),
    ensures
        seen_width(layout(text, width)[i].content()) <= width,
{
    lemma_layout(text, width);
    law_rows_keep_to_the_width(text, width);
    let rows = layout(text, width);
    let row = rows[i];
    let us = units(text);
    assert(is_sound(row, us, width));
    let start = lemma_row_stands_in(rows, i);
    let n = units(row.carried).len();
    assert(stands_in(row.content(), us) && stands_in(row.carried, us)) by {
        reveal(stands_in);
        assert(us.subrange(start, start + n) =~= units(row.carried)) by {
            assert forall|k: int| 0 <= k < n implies us[start + k] == #[trigger] units(
                row.carried,
            )[k] by {
                assert(row_units(row)[k] == units(row.carried)[k]);
                assert(us.subrange(start, start + row_units(row).len())[k] == us[start + k]);
            }
        }
    }
    lemma_total_concat(units(row.carried), units(row.body));
    assert(row_fits(row, width));
}

/// The columns of characters that take one each.
proof fn lemma_plain_columns(s: Seq<char>)
    requires
        forall|i: int| 0 <= i < s.len() ==> #[trigger] s[i] != ESC && columns(s[i]) == 1,
    ensures
        text_columns(s) == s.len(),
    decreases s.len(),
{
    lemma_empty();
    if s.len() == 0 {
        assert(s =~= Seq::<char>::empty());
    } else {
        lemma_units_step(s);
        assert(s[0] != ESC);
        lemma_plain_columns(s.skip(1));
    }
}

/// What a row shows is a part of what the rows show.
proof fn lemma_row_is_part(rows: Seq<Row>, i: int, k: int)
    requires
        0 <= i < rows.len(),
        0 <= k < rows[i].content().len(),
    ensures
        rows_content(rows).contains(rows[i].content()[k]),
    decreases rows.len(),
{
    let before = rows_content(rows.drop_last());
    let c = rows[i].content()[k];
    if i == rows.len() - 1 {
        assert(rows_content(rows)[before.len() + k] == c);
    } else {
        lemma_row_is_part(rows.drop_last(), i, k);
        let j = choose|j: int| 0 <= j < before.len() && before[j] == c;
        assert(rows_content(rows)[j] == c);
    }
}

/// A row of printable text is no longer than `width`.
pub proof fn lemma_printable_row(text: Seq<char>, width: nat, i: int)
    requires
        width > 0,
        0 <= i < layout(text, width).len(),
        is_printable(text),
        forall|k: int| 0 <= k < text.len() ==> columns(#[trigger] text[k]) == 1,
        rows_fit(layout(text, width), width),
        layout(text, width)[i].is_measured(),
    ensures
        layout(text, width)[i].content().len() <= width,
{
    law_spaces_are_preserved(text, width);
    let rows = layout(text, width);
    let row = rows[i];
    assert forall|k: int| 0 <= k < row.content().len() implies ' ' <= #[trigger] row.content()[k]
        <= '~' && columns(row.content()[k]) == 1 by {
        lemma_row_is_part(rows, i, k);
        let j = choose|j: int| 0 <= j < text.len() && text[j] == row.content()[k];
        assert(columns(text[j]) == 1);
    }
    assert forall|k: int| 0 <= k < row.carried.len() implies ' ' <= #[trigger] row.carried[k]
        <= '~' by {
        assert(row.content()[k] == row.carried[k]);
    }
    assert forall|k: int| 0 <= k < row.body.len() implies #[trigger] row.body[k] != ESC && columns(
        row.body[k],
    ) == 1 by {
        assert(row.content()[row.carried.len() + k] == row.body[k]);
    }
    lemma_plain_columns(row.body);
    assert(row_fits(row, width));
}

/// **Rows break at whitespace**: every row but the last ends with whitespace, or
/// is followed by a row that begins with whitespace, or comes of cutting a word;
/// and only a word that is wider than a row is cut.
pub proof fn law_rows_break_at_whitespace(text: Seq<char>, width: nat, i: int)
    requires
        width > 0,
        0 <= i < layout(text, width).len() - 1,
    ensures
        ({
            let row = layout(text, width)[i];
            let next = layout(text, width)[i + 1];
            ||| row.body.len() > 0 && white_space(row.body.last())
            ||| next.carried.len() == 0 && next.body.len() > 0 && white_space(next.body[0])
            ||| row.cut_from.len() > 0 && is_oversized(row.cut_from, units(text), width)
        }),
{
    lemma_layout(text, width);
    assert(is_sound(layout(text, width)[i], units(text), width));
    assert(ends_well(layout(text, width)[i]) || begins_with_space(
        layout(text, width)[i + 1].carried,
        layout(text, width)[i + 1].body,
    ));
}

/// **Rows break only where they have to**: every row but the last takes more than
/// `width` columns with the first token of the rest of the text, or is measured
/// to be wider than `width` itself.
pub proof fn law_rows_break_only_where_needed(text: Seq<char>, width: nat, i: int)
    requires
        width > 0,
        0 <= i < layout(text, width).len() - 1,
    ensures
        ({
            let rows = layout(text, width);
            let rest = units(text).skip(rows_units(rows.take(i + 1)).len() as int);
            ||| row_columns(rows[i].carried, rows[i].body) + total_columns(token(rest)) > width
            ||| seen_width(rows[i].content()) > width
        }),
{
    lemma_layout(text, width);
    assert(is_needed(layout(text, width), i, units(text), width));
}

/// **Pieces of words are as full as can be**: a row but the last that shows neither
/// whitespace nor the rest of a word does not fit into `width` columns with the next
/// unit of the text, or is measured to be wider than that itself.
pub proof fn law_pieces_are_full(text: Seq<char>, width: nat, i: int)
    requires
        width > 0,
        0 <= i < layout(text, width).len() - 1,
        layout(text, width)[i].carried.len() == 0,
        forall|k: int|
            0 <= k < units(layout(text, width)[i].body).len() ==> !is_space(
                #[trigger] units(layout(text, width)[i].body)[k],
            ),
    ensures
        ({
            let rows = layout(text, width);
            let end = rows_units(rows.take(i + 1)).len() as int;
            ||| end < units(text).len() && text_columns(rows[i].body) + unit_columns(
                units(text)[end],
            ) > width
            ||| seen_width(rows[i].content()) > width
        }),
{
    lemma_empty();
    lemma_layout(text, width);
    assert(is_full(layout(text, width), i, units(text), width));
    assert(layout(text, width)[i].carried =~= Seq::<char>::empty());
}

/// **Whitespace begins a row only where it is not seen to fit**: where it would
/// stand behind the word that the row before ends with, that row would be measured
/// to be wider than `width` with it.
pub proof fn law_whitespace_stays_where_it_is_seen_to_fit(text: Seq<char>, width: nat, i: int)
    requires
        width > 0,
        0 <= i < layout(text, width).len() - 1,
        layout(text, width)[i].body.len() > 0,
        !is_space(units(layout(text, width)[i].body).last()),
        rows_units(layout(text, width).take(i + 1)).len() < units(text).len(),
        is_space(units(text)[rows_units(layout(text, width).take(i + 1)).len() as int]),
    ensures
        ({
            let rows = layout(text, width);
            let c = units(text)[rows_units(rows.take(i + 1)).len() as int][0];
            ||| seen_width(rows[i].content().push(c)) > width
            ||| seen_width(rows[i].content()) > width
        }),
{
    lemma_layout(text, width);
    assert(has_no_room(layout(text, width), i, units(text), width));
}

/// **A word is parted from the whitespace behind it only where it fills a row**: the
/// row before takes columns for that word alone.
pub proof fn law_word_keeps_its_whitespace(text: Seq<char>, width: nat, i: int)
    requires
        width > 0,
        0 <= i < layout(text, width).len() - 1,
        layout(text, width)[i].body.len() > 0,
        !is_space(units(layout(text, width)[i].body).last()),
        rows_units(layout(text, width).take(i + 1)).len() < units(text).len(),
        is_space(units(text)[rows_units(layout(text, width).take(i + 1)).len() as int]),
    ensures
        ({
            let row = layout(text, width)[i];
            seen_width(row.carried) + text_columns(row.body) == total_columns(
                last_word(units(row.body)),
            )
        }),
{
    lemma_layout(text, width);
    assert(has_no_room(layout(text, width), i, units(text), width));
}

/// **Only a word that has just become too wide is cut**: what a row is cut from
/// takes more than `width` columns, holds no whitespace, and took no more without
/// its last unit.
pub proof fn law_words_are_cut_as_late_as_can_be(text: Seq<char>, width: nat, i: int)
    requires
        width > 0,
        0 <= i < layout(text, width).len(),
        layout(text, width)[i].cut_from.len() > 0,
    ensures
        ({
            let word = layout(text, width)[i].cut_from;
            &&& total_columns(units(word)) > width
            &&& total_columns(units(word).drop_last()) <= width
            &&& forall|k: int| 0 <= k < units(word).len() ==> !is_space(#[trigger] units(word)[k])
        }),
{
    lemma_layout(text, width);
    assert(is_sound(layout(text, width)[i], units(text), width));
}

/// **Rows show something**: no row is empty, but for a last one behind a word that
/// was cut to its end.
pub proof fn law_rows_show_something(text: Seq<char>, width: nat, i: int)
    requires
        0 <= i < layout(text, width).len(),
    ensures
        layout(text, width)[i].content().len() > 0 || (i == layout(text, width).len() - 1
            && layout(text, width)[i].cut_from.len() > 0 && width > 0),
{
    if width > 0 {
        lemma_layout(text, width);
        assert(layout(text, width)[i].content().len() > 0 || (i == layout(text, width).len() - 1
            && layout(text, width)[i].cut_from.len() > 0));
    }
}

/// **Styles come from the text**: a row begins with nothing, or with a style
/// sequence that stands in the text and is no reset.
pub proof fn law_styles_come_from_the_text(text: Seq<char>, width: nat, i: int)
    requires
        0 <= i < layout(text, width).len(),
    ensures
        is_style_of(layout(text, width)[i].open, units(text)),
{
    if width > 0 {
        lemma_layout(text, width);
        assert(is_sound(layout(text, width)[i], units(text), width));
    }
}

/// **Text without styles gets none**: its rows are what they show, without
/// additions.
pub proof fn law_plain_text_gets_no_style(text: Seq<char>, width: nat, i: int)
    requires
        0 <= i < layout(text, width).len(),
        !has_style(units(text)),
    ensures
        layout(text, width)[i].open.len() == 0,
        !layout(text, width)[i].reset,
        layout(text, width)[i].text() == layout(text, width)[i].content(),
{
    law_styles_come_from_the_text(text, width, i);
    let row = layout(text, width)[i];
    let us = units(text);
    if row.open.len() > 0 {
        let k = choose|k: int| 0 <= k < us.len() && us[k] == row.open;
        assert(is_style(us[k]));
    }
    if width > 0 {
        lemma_layout(text, width);
        assert(is_sound(row, us, width));
    }
    assert(row.text() =~= row.content());
}

/// The style that is switched on behind the units `us`: the last style sequence
/// among them, unless it is a reset.
pub open spec fn active_style(us: Seq<Seq<char>>) -> Option<Seq<char>>
    decreases us.len(),
{
    if us.len() == 0 {
        None
    } else if is_style_sequence(us.last()) {
        if is_style(us.last()) {
            Some(us.last())
        } else {
            None
        }
    } else {
        active_style(us.drop_last())
    }
}

/// What switches on the style that is on behind the units `us`; nothing, where none
/// is.
pub open spec fn active_text(us: Seq<Seq<char>>) -> Seq<char> {
    match active_style(us) {
        Some(sequence) => sequence,
        None => Seq::empty(),
    }
}

proof fn lemma_cut_keeps_style(f: Flow, width: nat)
    ensures
        f.cut_chunks(width).style == f.style,
    decreases f.word.len(),
{
    if seen_width(f.word) > width && !is_one_wide_chunk(f.word, width as int) {
        lemma_chunk(f.word, width);
        lemma_cut_keeps_style(f.chunk(chunk_len(f.word, width as int)), width);
    }
}

proof fn lemma_style_run(f: Flow, read: Seq<Seq<char>>, us: Seq<Seq<char>>, width: nat)
    requires
        f.style == active_style(read),
    ensures
        f.run(us, width).style == active_style(read + us),
    decreases us.len(),
{
    if us.len() == 0 {
        assert(read + us =~= read);
    } else {
        let u = us[0];
        let more = read.push(u);
        assert(more.drop_last() =~= read);
        if !is_escape(u) && !white_space(u[0]) {
            lemma_cut_keeps_style(f.glyph(u[0], columns(u[0])).begin_cut(), width);
        }
        lemma_style_run(f.step(u, width), more, us.drop_first(), width);
        assert(more + us.drop_first() =~= read + us);
    }
}

/// **The style at hand is the last one read**: what new rows begin with, and
/// what makes a finished row end with a reset, is the last style sequence of the
/// text so far, unless it was a reset.
pub proof fn law_style_is_the_last_one_read(us: Seq<Seq<char>>, width: nat)
    ensures
        Flow::start().run(us, width).style == active_style(us),
{
    lemma_style_run(Flow::start(), Seq::empty(), us, width);
    assert(Seq::<Seq<char>>::empty() + us =~= us);
}

} // verus!
