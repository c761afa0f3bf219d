//! In which style the rows of a layout begin and end, and how a cut goes on.

use vstd::prelude::*;

use crate::ansi::{closed_text, complete, is_escape, reset_sequence, unit_len, units, white_space};
use crate::layout::{layout, sets_style, Flow, Row};
use crate::measure::{columns, seen_width, text_columns, visible_width};
use crate::split::{chunk_len, is_one_wide_chunk, lemma_chunk};
use crate::wrap_laws::{
    active_style, active_text, are_unspaced, breaks_well, cuts, is_read, is_space, is_style,
    is_style_sequence, lemma_begin_cut, lemma_cut_chunk, lemma_empty, lemma_end_word,
    lemma_first_unit, lemma_read, lemma_rows_push, lemma_single, lemma_step, lemma_token_space,
    lemma_word_grows, lemma_word_stands_in, rests, row_units, rows_content, rows_units, token,
};

verus! {

/// The number of units of the word that the units `us` begin with.
pub open spec fn word_len(us: Seq<Seq<char>>) -> nat
    decreases us.len(),
{
    if us.len() == 0 || is_space(us[0]) {
        0
    } else {
        1 + word_len(us.drop_first())
    }
}

/// The position among the units of the text where row `i` begins.
pub open spec fn start_of(rows: Seq<Row>, i: int) -> int {
    rows_units(rows.take(i)).len() as int
}

/// Whether `word` is what stands right before unit `n`, and position `p` lies in it
/// or at its end.
pub open spec fn spans(word: Seq<char>, n: int, p: int, us: Seq<Seq<char>>) -> bool {
    &&& word.len() > 0
    &&& 0 <= n - units(word).len() <= p <= n <= us.len()
    &&& us.subrange(n - units(word).len(), n) == units(word)
}

/// Whether `row`, which begins at position `p` and ends at `q`, comes of the cut of a
/// word that was read up to unit `n`: it begins in the style that was on there; it
/// ends there if it shows the rest of the word; and if it does not reach that far,
/// the next row comes of the same cut, as `next_cut` says.
pub open spec fn is_of_cut(
    row: Row,
    p: int,
    q: int,
    n: int,
    next_cut: Seq<char>,
    us: Seq<Seq<char>>,
) -> bool {
    &&& spans(row.cut_from, n, p, us)
    &&& row.open == active_text(us.take(n))
    &&& row.carried.len() > 0 ==> p + units(row.carried).len() == n
    &&& q < n ==> next_cut == row.cut_from
}

/// Whether row `i` begins in the right style: behind a break at whitespace in the one
/// that was on when the next word was read; in a cut word in the one that was on
/// where it was cut; and the first one in none, unless it comes of a cut.
pub open spec fn opens_right(
    rows: Seq<Row>,
    i: int,
    next_cut: Seq<char>,
    us: Seq<Seq<char>>,
) -> bool {
    let p = start_of(rows, i);
    let q = start_of(rows, i + 1);
    if rows[i].cut_from.len() > 0 {
        exists|n: int| #[trigger] is_of_cut(rows[i], p, q, n, next_cut, us)
    } else if i == 0 {
        rows[i].open.len() == 0
    } else {
        rows[i].open == active_text(us.take((p + word_len(us.skip(p))) as int))
    }
}

/// Whether a style was on behind the first `n` of the units `us`.
pub open spec fn is_styled(us: Seq<Seq<char>>, n: int) -> bool {
    active_style(us.take(n)) is Some
}

/// Whether row `i` ends with a reset exactly where a style was on when it was
/// finished: when the next word was read, or when a word was cut.
pub open spec fn closes_right(
    rows: Seq<Row>,
    i: int,
    next_cut: Seq<char>,
    us: Seq<Seq<char>>,
) -> bool {
    let q = start_of(rows, i + 1);
    let row = rows[i];
    if next_cut.len() == 0 {
        row.reset == is_styled(us, (q + word_len(us.skip(q))) as int)
    } else {
        ||| exists|n: int| #[trigger] spans(row.cut_from, n, q, us) && row.reset == is_styled(us, n)
        ||| exists|n: int| #[trigger] spans(next_cut, n, q, us) && row.reset == is_styled(us, n)
    }
}

/// What the row behind row `i` is cut from.
spec fn next_cut(f: Flow, i: int) -> Seq<char> {
    if i + 1 < f.rows.len() {
        f.rows[i + 1].cut_from
    } else {
        f.cut_from
    }
}

spec fn ok_at(f: Flow, i: int, us: Seq<Seq<char>>) -> bool {
    opens_right(f.rows, i, next_cut(f, i), us) && closes_right(f.rows, i, next_cut(f, i), us)
}

/// Whether the current row begins in the right style.
spec fn begins_right(f: Flow, us: Seq<Seq<char>>) -> bool {
    let p = rows_units(f.rows).len() as int;
    if f.cut_from.len() > 0 {
        exists|n: int|
            #![trigger spans(f.cut_from, n, p, us)]
            spans(f.cut_from, n, p, us) && f.open == active_text(us.take(n)) && p + units(
                f.carried,
            ).len() == n
    } else if f.rows.len() == 0 {
        f.open.len() == 0
    } else {
        f.open == active_text(us.take((p + word_len(us.skip(p))) as int))
    }
}

/// What holds of the styles of a layout that has read the text `t`.
spec fn clad(f: Flow, t: Seq<char>, us: Seq<Seq<char>>) -> bool {
    &&& f.style == active_style(us.take(units(t).len() as int))
    &&& forall|i: int| 0 <= i < f.rows.len() ==> #[trigger] ok_at(f, i, us)
    &&& begins_right(f, us)
}

/// Whether the last row used up the word that it was cut from.
spec fn used_up(f: Flow, us: Seq<Seq<char>>) -> bool {
    let q = rows_units(f.rows).len() as int;
    let row = f.rows.last();
    &&& f.rows.len() > 0
    &&& spans(row.cut_from, q, start_of(f.rows, f.rows.len() - 1), us)
    &&& spans(row.cut_from, q, q, us)
    &&& row.open == active_text(us.take(q))
    &&& row.carried.len() > 0 ==> start_of(f.rows, f.rows.len() - 1) + units(row.carried).len()
        == q
    &&& row.reset == is_styled(us, q)
}

/// The same between two units.
spec fn dressed(f: Flow, t: Seq<char>, us: Seq<Seq<char>>) -> bool {
    &&& clad(f, t, us)
    &&& f.is_blank() && f.rows.len() > 0 ==> used_up(f, us)
}

/// The same while a word is being cut.
spec fn cutting(f: Flow, t: Seq<char>, us: Seq<Seq<char>>) -> bool {
    let n = units(t).len() as int;
    &&& f.style == active_style(us.take(n))
    &&& spans(f.cut_from, n, n, us)
    &&& units(f.word).len() <= units(f.cut_from).len()
    &&& forall|i: int| 0 <= i < f.rows.len() ==> #[trigger] ok_at(f, i, us)
    &&& f.word.len() == 0 ==> used_up(f, us)
}

/// A style sequence counts from where it is read.
proof fn lemma_active_next(us: Seq<Seq<char>>, n: int)
    requires
        0 <= n < us.len(),
    ensures
        active_style(us.take(n + 1)) == if is_style_sequence(us[n]) {
            if is_style(us[n]) {
                Some(us[n])
            } else {
                None
            }
        } else {
            active_style(us.take(n))
        },
{
    assert(us.take(n + 1).drop_last() =~= us.take(n));
    assert(us.take(n + 1).last() == us[n]);
}

/// A word is as long as it is, where whitespace or nothing follows it.
proof fn lemma_word_len(word: Seq<Seq<char>>, more: Seq<Seq<char>>)
    requires
        are_unspaced(word),
        more.len() == 0 || is_space(more[0]),
    ensures
        word_len(word + more) == word.len(),
    decreases word.len(),
{
    if word.len() == 0 {
        assert(word + more =~= more);
    } else {
        let rest = word.drop_first();
        assert forall|i: int| 0 <= i < rest.len() implies !is_space(#[trigger] rest[i]) by {
            assert(word[i + 1] == rest[i]);
        }
        lemma_word_len(rest, more);
        assert(!is_space(word[0]));
        assert((word + more).drop_first() =~= rest + more);
    }
}

/// The rows before another row begin where they did.
proof fn lemma_starts(rows: Seq<Row>, row: Row)
    ensures
        forall|i: int|
            0 <= i <= rows.len() ==> #[trigger] start_of(rows.push(row), i) == start_of(rows, i),
        start_of(rows, rows.len() as int) == rows_units(rows).len(),
        start_of(rows.push(row), (rows.len() + 1) as int) == rows_units(rows).len() + row_units(
            row,
        ).len(),
{
    assert forall|i: int| 0 <= i <= rows.len() implies #[trigger] start_of(rows.push(row), i)
        == start_of(rows, i) by {
        assert(rows.push(row).take(i) =~= rows.take(i));
    }
    assert(rows.take(rows.len() as int) =~= rows);
    assert(rows.push(row).take((rows.len() + 1) as int) =~= rows.push(row));
    lemma_rows_push(rows, row);
}

/// What was right of the rows stays right behind another one.
proof fn lemma_ok_stays(f: Flow, g: Flow, row: Row, us: Seq<Seq<char>>)
    requires
        g.rows == f.rows.push(row),
        row.cut_from == f.cut_from,
        forall|i: int| 0 <= i < f.rows.len() ==> #[trigger] ok_at(f, i, us),
    ensures
        forall|i: int| 0 <= i < f.rows.len() ==> #[trigger] ok_at(g, i, us),
{
    lemma_starts(f.rows, row);
    assert forall|i: int| 0 <= i < f.rows.len() implies #[trigger] ok_at(g, i, us) by {
        assert(ok_at(f, i, us));
        assert(next_cut(g, i) == next_cut(f, i));
        assert(start_of(g.rows, i) == start_of(f.rows, i));
        assert(start_of(g.rows, i + 1) == start_of(f.rows, i + 1));
    }
}

/// Finishing the current row, where a word or whitespace goes into the next one.
proof fn lemma_clad_push(f: Flow, t: Seq<char>, us: Seq<Seq<char>>)
    requires
        is_read(f, t, us),
        clad(f, t, us),
        word_len(us.skip(units(t).len() - units(f.word).len())) == units(f.word).len(),
    ensures
        clad(f.push_row(), t, us),
{
    let g = f.push_row();
    let row = f.current_row(f.style is Some);
    let q = units(t).len() - units(f.word).len();
    let k = f.rows.len() as int;
    lemma_starts(f.rows, row);
    lemma_ok_stays(f, g, row, us);
    let p = rows_units(f.rows).len() as int;
    assert(start_of(g.rows, k) == p);
    assert(start_of(g.rows, k + 1) == q);
    if f.cut_from.len() > 0 {
        let n = choose|n: int|
            #![trigger spans(f.cut_from, n, p, us)]
            spans(f.cut_from, n, p, us) && f.open == active_text(us.take(n)) && p + units(
                f.carried,
            ).len() == n;
        assert(is_of_cut(row, p, q, n, next_cut(g, k), us));
    }
    assert(ok_at(g, k, us));
    assert forall|i: int| 0 <= i < g.rows.len() implies #[trigger] ok_at(g, i, us) by {
        if i < k {
            assert(ok_at(g, i, us));
        }
    }
}

/// The current row is finished, or shows nothing yet, when a word begins to be cut.
proof fn lemma_clad_cut(f: Flow, t: Seq<char>, us: Seq<Seq<char>>)
    requires
        is_read(f, t, us),
        dressed(f, t, us),
        f.word.len() > 0,
    ensures
        cutting(f.begin_cut(), t, us),
{
    let g = f.begin_cut();
    let n = units(t).len() as int;
    lemma_word_stands_in(f, t, us);
    let w = units(f.word);
    assert(us.subrange(n - w.len(), n) =~= w) by {
        assert forall|i: int| 0 <= i < w.len() implies #[trigger] w[i] == us[n - w.len() + i] by {
            assert(us.skip(n - w.len())[i] == w[i]);
        }
    }
    assert(spans(f.word, n, n, us));
    if f.is_blank() {
        if f.rows.len() > 0 {
            let last = f.rows.len() - 1;
            let q = rows_units(f.rows).len() as int;
            let row = f.rows[last];
            assert(f.rows.take(last + 1) =~= f.rows);
            assert(is_of_cut(row, start_of(f.rows, last), q, q, f.word, us));
            assert forall|i: int| 0 <= i < g.rows.len() implies #[trigger] ok_at(g, i, us) by {
                assert(ok_at(f, i, us));
                if i < last {
                    assert(next_cut(g, i) == next_cut(f, i));
                } else {
                    assert(spans(row.cut_from, q, q, us));
                }
            }
        }
    } else {
        let row = f.current_row(f.style is Some);
        let k = f.rows.len() as int;
        let p = rows_units(f.rows).len() as int;
        let q = n - w.len();
        lemma_starts(f.rows, row);
        lemma_ok_stays(f, g, row, us);
        assert(start_of(g.rows, k) == p);
        assert(start_of(g.rows, k + 1) == q);
        if f.cut_from.len() > 0 {
            let m = choose|m: int|
                #![trigger spans(f.cut_from, m, p, us)]
                spans(f.cut_from, m, p, us) && f.open == active_text(us.take(m)) && p + units(
                    f.carried,
                ).len() == m;
            assert(is_of_cut(row, p, q, m, next_cut(g, k), us));
        }
        assert(spans(f.word, n, q, us));
        assert(next_cut(g, k) == f.word);
        assert(ok_at(g, k, us));
        assert forall|i: int| 0 <= i < g.rows.len() implies #[trigger] ok_at(g, i, us) by {
            if i < k {
                assert(ok_at(g, i, us));
            }
        }
    }
}

/// A chunk of the word becomes a row.
#[verifier::rlimit(40)]
proof fn lemma_clad_chunk(f: Flow, t: Seq<char>, us: Seq<Seq<char>>, width: nat)
    requires
        cuts(f, t, us, width),
        cutting(f, t, us),
        seen_width(f.word) > width,
        !is_one_wide_chunk(f.word, width as int),
    ensures
        cutting(f.chunk(chunk_len(f.word, width as int)), t, us),
{
    lemma_empty();
    let c = chunk_len(f.word, width as int);
    let g = f.chunk(c);
    let n = units(t).len() as int;
    let row = g.rows.last();
    let k = f.rows.len() as int;
    let p = rows_units(f.rows).len() as int;
    lemma_chunk(f.word, width);
    lemma_cut_chunk(f, t, us, width);
    lemma_starts(f.rows, row);
    lemma_ok_stays(f, g, row, us);
    assert(f.carried =~= Seq::<char>::empty() && f.body =~= Seq::<char>::empty());
    assert(p == n - units(f.word).len());
    let q = rows_units(g.rows).len() as int;
    assert(start_of(g.rows, k) == p);
    assert(start_of(g.rows, k + 1) == q);
    assert(q == n - units(g.word).len());
    assert(spans(f.cut_from, n, p, us));
    assert(spans(f.cut_from, n, q, us));
    assert(is_of_cut(row, p, q, n, next_cut(g, k), us));
    assert(ok_at(g, k, us));
    assert forall|i: int| 0 <= i < g.rows.len() implies #[trigger] ok_at(g, i, us) by {
        if i < k {
            assert(ok_at(g, i, us));
        }
    }
    if g.word.len() == 0 {
        assert(g.word =~= Seq::<char>::empty());
        assert(used_up(g, us));
    }
}

/// A cut leads to a row that begins with what is left of the word.
proof fn lemma_clad_chunks(f: Flow, t: Seq<char>, us: Seq<Seq<char>>, width: nat)
    requires
        cuts(f, t, us, width),
        cutting(f, t, us),
    ensures
        dressed(f.cut_chunks(width), t, us),
    decreases f.word.len(),
{
    lemma_empty();
    lemma_chunk(f.word, width);
    if seen_width(f.word) <= width || is_one_wide_chunk(f.word, width as int) {
        let g = f.end_cut(seen_width(f.word));
        let n = units(t).len() as int;
        let p = rows_units(f.rows).len() as int;
        assert(f.carried =~= Seq::<char>::empty() && f.body =~= Seq::<char>::empty());
        assert(p == n - units(f.word).len());
        assert(spans(g.cut_from, n, p, us));
        assert forall|i: int| 0 <= i < g.rows.len() implies #[trigger] ok_at(g, i, us) by {
            assert(ok_at(f, i, us));
            assert(next_cut(g, i) == next_cut(f, i));
        }
    } else {
        lemma_clad_chunk(f, t, us, width);
        lemma_cut_chunk(f, t, us, width);
        lemma_clad_chunks(f.chunk(chunk_len(f.word, width as int)), t, us, width);
    }
}

/// A word goes into a row, where whitespace or nothing follows it.
proof fn lemma_clad_end_word(f: Flow, t: Seq<char>, more: nat, us: Seq<Seq<char>>, width: nat)
    requires
        rests(f, t, us, width),
        clad(f, t, us),
        units(t).len() == us.len() || is_space(us[units(t).len() as int]),
    ensures
        clad(f.end_word(more, width), t, us),
{
    let n = units(t).len() as int;
    lemma_word_stands_in(f, t, us);
    assert(us.skip(n).len() > 0 ==> us.skip(n)[0] == us[n]);
    lemma_word_len(units(f.word), us.skip(n));
    let g = f.end_word(more, width);
    let f1 = if f.overflows(more, width) {
        lemma_clad_push(f, t, us);
        f.push_row()
    } else {
        f
    };
    assert forall|i: int| 0 <= i < g.rows.len() implies #[trigger] ok_at(g, i, us) by {
        assert(ok_at(f1, i, us));
        assert(next_cut(g, i) == next_cut(f1, i));
    }
}

#[verifier::rlimit(40)]
proof fn lemma_clad_space(f: Flow, t: Seq<char>, c: char, us: Seq<Seq<char>>, width: nat)
    requires
        rests(f, t, us, width),
        clad(f, t, us),
        closed_text(t),
        closed_text(f.word),
        c != '\x1b',
        white_space(c),
        units(t).len() < us.len(),
        us[units(t).len() as int] == seq![c],
    ensures
        dressed(f.space(c, columns(c), width), t + seq![c], us),
{
    let n = units(t).len() as int;
    let u = seq![c];
    lemma_empty();
    lemma_single(c);
    lemma_read(t, u);
    lemma_active_next(us, n);
    lemma_token_space(us.skip(n));
    lemma_end_word(f, t, columns(c), us, width);
    lemma_clad_end_word(f, t, columns(c), us, width);
    let g = f.end_word(columns(c), width);
    assert(g.word =~= Seq::<char>::empty());
    let seen = seen_width(g.carried + g.body.push(c));
    let h = if g.overflows(columns(c), width) && seen > width {
        assert(us.skip(n)[0] == us[n]);
        lemma_clad_push(g, t, us);
        g.push_row()
    } else {
        g
    };
    let k = f.space(c, columns(c), width);
    assert forall|i: int| 0 <= i < k.rows.len() implies #[trigger] ok_at(k, i, us) by {
        assert(ok_at(h, i, us));
        assert(next_cut(k, i) == next_cut(h, i));
    }
    assert(units(t + u).len() == n + 1);
    assert(k.style == active_style(us.take(n + 1)));
    lemma_begins_alike(h, k, us);
}

/// Whether the current row begins in the right style depends on where it begins alone.
proof fn lemma_begins_alike(f: Flow, g: Flow, us: Seq<Seq<char>>)
    requires
        begins_right(f, us),
        g.rows == f.rows,
        g.cut_from == f.cut_from,
        g.open == f.open,
        g.carried == f.carried,
    ensures
        begins_right(g, us),
{
    let p = rows_units(f.rows).len() as int;
    if f.cut_from.len() > 0 {
        let n = choose|n: int|
            #![trigger spans(f.cut_from, n, p, us)]
            spans(f.cut_from, n, p, us) && f.open == active_text(us.take(n)) && p + units(
                f.carried,
            ).len() == n;
        assert(spans(g.cut_from, n, p, us));
    }
}

#[verifier::rlimit(40)]
proof fn lemma_clad_step(f: Flow, t: Seq<char>, u: Seq<char>, us: Seq<Seq<char>>, width: nat)
    requires
        rests(f, t, us, width),
        dressed(f, t, us),
        closed_text(t),
        closed_text(f.word),
        u.len() > 0,
        unit_len(u) == u.len(),
        units(t).len() < us.len(),
        us[units(t).len() as int] == u,
    ensures
        dressed(f.step(u, width), t + u, us),
{
    let n = units(t).len() as int;
    lemma_empty();
    lemma_read(t, u);
    lemma_active_next(us, n);
    let h = if is_escape(u) {
        f.escape(u)
    } else {
        f.glyph(u[0], columns(u[0]))
    };
    if !is_space(u) {
        if is_escape(u) {
            assert(sets_style(u) <==> is_style_sequence(u));
            assert(reset_sequence() =~= seq!['\x1b', '[', '0', 'm']);
        }
        assert forall|i: int| 0 <= i < h.rows.len() implies #[trigger] ok_at(h, i, us) by {
            assert(ok_at(f, i, us));
            assert(next_cut(h, i) == next_cut(f, i));
        }
        assert(units(t + u).len() == n + 1);
        assert(h.style == active_style(us.take(n + 1)));
        lemma_begins_alike(f, h, us);
        assert(dressed(h, t + u, us));
    }
    if !is_escape(u) {
        let c = u[0];
        assert(u =~= seq![c]);
        lemma_single(c);
        if white_space(c) {
            lemma_clad_space(f, t, c, us, width);
        } else {
            let g = f.glyph(c, columns(c));
            assert(g.word =~= f.word + u);
            lemma_word_grows(f, t, u, us, width);
            if g.word_width > width {
                lemma_read(f.word, u);
                assert(units(g.word).drop_last() =~= units(f.word));
                assert forall|i: int| 0 <= i < g.rows.len() implies
                    #[trigger] breaks_well(g, i) by {
                    assert(breaks_well(Flow { word: f.word + u, ..f }, i));
                }
                lemma_begin_cut(g, t + u, us, width);
                lemma_clad_cut(g, t + u, us);
                lemma_clad_chunks(g.begin_cut(), t + u, us, width);
            }
        }
    }
}

/// All that holds of a layout between two units.
#[verifier::opaque]
spec fn goes_well(f: Flow, t: Seq<char>, us: Seq<Seq<char>>, width: nat) -> bool {
    rests(f, t, us, width) && dressed(f, t, us)
}

proof fn lemma_goes_well(f: Flow, t: Seq<char>, u: Seq<char>, us: Seq<Seq<char>>, width: nat)
    requires
        goes_well(f, t, us, width),
        closed_text(t),
        closed_text(f.word),
        u.len() > 0,
        unit_len(u) == u.len(),
        units(t).len() < us.len(),
        us[units(t).len() as int] == u,
    ensures
        goes_well(f.step(u, width), t + u, us, width),
        complete(u) ==> closed_text(f.step(u, width).word) && closed_text(t + u),
{
    reveal(goes_well);
    lemma_clad_step(f, t, u, us, width);
    lemma_step(f, t, u, us, width);
}

proof fn lemma_clad_run(f: Flow, t: Seq<char>, rest: Seq<char>, us: Seq<Seq<char>>, width: nat)
    requires
        goes_well(f, t, us, width),
        rest.len() > 0 ==> closed_text(t) && closed_text(f.word),
        us == units(t) + units(rest),
    ensures
        goes_well(f.run(units(rest), width), t + rest, us, width),
    decreases rest.len(),
{
    if rest.len() == 0 {
        assert(t + rest =~= t);
    } else {
        lemma_first_unit(rest);
        let n = unit_len(rest) as int;
        let u = rest.take(n);
        let more = rest.skip(n);
        lemma_goes_well(f, t, u, us, width);
        lemma_read(t, u);
        assert(units(t + u) + units(more) =~= us);
        assert(units(rest).drop_first() =~= units(more));
        lemma_clad_run(f.step(u, width), t + u, more, us, width);
        assert(t + u + more =~= t + rest);
    }
}

/// What the row behind row `i` is cut from; nothing, where there is none.
pub open spec fn cut_behind(rows: Seq<Row>, i: int) -> Seq<char> {
    if i + 1 < rows.len() {
        rows[i + 1].cut_from
    } else {
        Seq::empty()
    }
}

proof fn lemma_clad_finish(f: Flow, t: Seq<char>, us: Seq<Seq<char>>, width: nat)
    requires
        rests(f, t, us, width),
        dressed(f, t, us),
        us == units(t),
    ensures
        ({
            let rows = f.finish(width);
            &&& forall|i: int|
                0 <= i < rows.len() ==> #[trigger] opens_right(rows, i, cut_behind(rows, i), us)
            &&& forall|i: int|
                0 <= i < rows.len() - 1 ==> #[trigger] closes_right(
                    rows,
                    i,
                    cut_behind(rows, i),
                    us,
                )
            &&& !rows.last().reset
        }),
{
    lemma_empty();
    let g = if f.word.len() > 0 {
        lemma_clad_end_word(f, t, 0, us, width);
        assert(us.skip(us.len() as int) =~= Seq::<Seq<char>>::empty());
        assert(token(us.skip(us.len() as int)) =~= Seq::<Seq<char>>::empty());
        lemma_end_word(f, t, 0, us, width);
        f.end_word(0, width)
    } else {
        assert(f.word =~= Seq::<char>::empty());
        f
    };
    assert(g.word =~= Seq::<char>::empty());
    let rows = f.finish(width);
    let last = g.current_row(false);
    let k = g.rows.len() as int;
    lemma_starts(g.rows, last);
    assert forall|i: int| 0 <= i < rows.len() implies #[trigger] opens_right(
        rows,
        i,
        cut_behind(rows, i),
        us,
    ) by {
        assert(start_of(rows, i) == start_of(g.rows, i));
        if i < k {
            assert(ok_at(g, i, us));
            assert(start_of(rows, i + 1) == start_of(g.rows, i + 1));
            assert(next_cut(g, i) == cut_behind(rows, i));
        } else if g.cut_from.len() > 0 {
            let p = rows_units(g.rows).len() as int;
            let n = choose|n: int|
                #![trigger spans(g.cut_from, n, p, us)]
                spans(g.cut_from, n, p, us) && g.open == active_text(us.take(n)) && p + units(
                    g.carried,
                ).len() == n;
            assert(is_of_cut(last, p, start_of(rows, i + 1), n, cut_behind(rows, i), us));
        }
    }
    assert forall|i: int| 0 <= i < rows.len() - 1 implies #[trigger] closes_right(
        rows,
        i,
        cut_behind(rows, i),
        us,
    ) by {
        assert(ok_at(g, i, us));
        assert(start_of(rows, i + 1) == start_of(g.rows, i + 1));
        assert(next_cut(g, i) == cut_behind(rows, i));
    }
}

proof fn lemma_styles(text: Seq<char>, width: nat)
    ensures
        ({
            let rows = layout(text, width);
            let us = units(text);
            &&& forall|i: int|
                0 <= i < rows.len() ==> #[trigger] opens_right(rows, i, cut_behind(rows, i), us)
            &&& forall|i: int|
                0 <= i < rows.len() - 1 ==> #[trigger] closes_right(
                    rows,
                    i,
                    cut_behind(rows, i),
                    us,
                )
            &&& rows.len() > 0 ==> !rows.last().reset
        }),
{
    if text.len() > 0 && width > 0 && visible_width(text) > width {
        lemma_empty();
        let f = Flow::start();
        let none = Seq::<char>::empty();
        assert(none =~= rows_content(f.rows) + f.carried + f.body + f.word);
        assert(units(none) =~= rows_units(f.rows) + units(f.carried) + units(f.body) + units(
            f.word,
        ));
        assert(units(none) =~= units(text).take(0));
        assert(text_columns(none) == 0);
        assert(rests(f, none, units(text), width));
        assert(units(text).take(0).len() == 0);
        assert(dressed(f, none, units(text)));
        assert(units(text) =~= units(none) + units(text));
        reveal(goes_well);
        lemma_clad_run(f, none, text, units(text), width);
        assert(none + text =~= text);
        lemma_clad_finish(f.run(units(text), width), text, units(text), width);
    }
}

/// **Rows begin in the style that is on**: a row behind a break at whitespace is
/// opened in the style that was on when the word that it begins with was read to its
/// end, and in none where none was on or where it was reset.
pub proof fn law_rows_begin_in_the_style_that_is_on(text: Seq<char>, width: nat, i: int)
    requires
        0 < i < layout(text, width).len(),
        layout(text, width)[i].cut_from.len() == 0,
    ensures
        ({
            let p = start_of(layout(text, width), i);
            let read = units(text).take((p + word_len(units(text).skip(p))) as int);
            layout(text, width)[i].open == match active_style(read) {
                Some(sequence) => sequence,
                None => Seq::empty(),
            }
        }),
{
    lemma_styles(text, width);
    let rows = layout(text, width);
    assert(opens_right(rows, i, cut_behind(rows, i), units(text)));
}

/// **The row before ends with a reset exactly where a style is on** at that point.
pub proof fn law_rows_end_with_a_reset_where_a_style_is_on(text: Seq<char>, width: nat, i: int)
    requires
        0 <= i < layout(text, width).len() - 1,
        layout(text, width)[i + 1].cut_from.len() == 0,
    ensures
        ({
            let q = start_of(layout(text, width), i + 1);
            let read = units(text).take((q + word_len(units(text).skip(q))) as int);
            layout(text, width)[i].reset <==> active_style(read) is Some
        }),
{
    lemma_styles(text, width);
    let rows = layout(text, width);
    assert(closes_right(rows, i, cut_behind(rows, i), units(text)));
}

/// **Nothing is opened before the text, nothing is reset behind it**: the first row
/// begins in no style, unless it comes of a cut, and the last row ends without a
/// reset.
pub proof fn law_text_begins_and_ends_as_written(text: Seq<char>, width: nat)
    requires
        layout(text, width).len() > 0,
    ensures
        layout(text, width)[0].cut_from.len() == 0 ==> layout(text, width)[0].open.len() == 0,
        !layout(text, width).last().reset,
{
    lemma_styles(text, width);
    let rows = layout(text, width);
    assert(opens_right(rows, 0, cut_behind(rows, 0), units(text)));
}

/// **A cut word is shown in one style, and to its end**: a row that comes of a cut
/// stands for a part of what was cut; it begins in the style that was on where that
/// was read to its end; a rest of the word reaches up to there; and where a row does
/// not, the next one comes of the same cut.
pub proof fn law_cut_goes_on_to_the_end(text: Seq<char>, width: nat, i: int) -> (n: int)
    requires
        0 <= i < layout(text, width).len(),
        layout(text, width)[i].cut_from.len() > 0,
    ensures
        ({
            let rows = layout(text, width);
            let us = units(text);
            let row = rows[i];
            let word = units(row.cut_from);
            &&& 0 <= n - word.len() <= start_of(rows, i) <= n <= us.len()
            &&& us.subrange(n - word.len(), n) == word
            &&& row.open == active_text(us.take(n))
            &&& row.carried.len() > 0 ==> start_of(rows, i) + units(row.carried).len() == n
            &&& start_of(rows, i + 1) < n ==> i + 1 < rows.len() && rows[i + 1].cut_from
                == row.cut_from
        }),
{
    lemma_styles(text, width);
    let rows = layout(text, width);
    let us = units(text);
    assert(opens_right(rows, i, cut_behind(rows, i), us));
    let p = start_of(rows, i);
    let q = start_of(rows, i + 1);
    let n = choose|n: int| #[trigger] is_of_cut(rows[i], p, q, n, cut_behind(rows, i), us);
    n
}

/// **A row before a cut ends with a reset exactly where a style is on**: at the end of
/// what is cut there, be it what the row itself or the next one comes of.
pub proof fn law_rows_before_a_cut_end_with_a_reset(text: Seq<char>, width: nat, i: int) -> (n: int)
    requires
        0 <= i < layout(text, width).len() - 1,
        layout(text, width)[i + 1].cut_from.len() > 0,
    ensures
        ({
            let rows = layout(text, width);
            let us = units(text);
            let q = start_of(rows, i + 1);
            &&& rows[i].reset <==> active_style(us.take(n)) is Some
            &&& spans(rows[i].cut_from, n, q, us) || spans(rows[i + 1].cut_from, n, q, us)
        }),
{
    lemma_styles(text, width);
    let rows = layout(text, width);
    let us = units(text);
    assert(closes_right(rows, i, cut_behind(rows, i), us));
    let q = start_of(rows, i + 1);
    if exists|n: int| #[trigger] spans(rows[i].cut_from, n, q, us) && rows[i].reset == is_styled(
        us,
        n,
    ) {
        choose|n: int| #[trigger] spans(rows[i].cut_from, n, q, us) && rows[i].reset == is_styled(
            us,
            n,
        )
    } else {
        choose|n: int| #[trigger] spans(rows[i + 1].cut_from, n, q, us) && rows[i].reset
            == is_styled(us, n)
    }
}

} // verus!
