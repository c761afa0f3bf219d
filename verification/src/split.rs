//! Cutting a text where its columns run out.

use vstd::prelude::*;

use crate::ansi::{
    lemma_complete_first, lemma_first_unit_complete, lemma_unit_len, unit_end, unit_len, units, ESC,
};
use crate::measure::{
    characters, columns_of, text_between, text_columns, total_columns, unit_columns,
};

verus! {

/// How many of the widths `ws`, from the first on, fit into `budget` together.
pub open spec fn fitting(ws: Seq<nat>, budget: int) -> nat
    decreases ws.len(),
{
    if ws.len() == 0 || ws[0] > budget {
        0
    } else {
        1 + fitting(ws.drop_first(), budget - ws[0])
    }
}

/// The columns of each unit of `s`.
pub open spec fn unit_widths(s: Seq<char>) -> Seq<nat> {
    units(s).map_values(|u: Seq<char>| unit_columns(u))
}

/// The number of characters of the first `k` units of `s`.
pub open spec fn prefix_len(s: Seq<char>, k: nat) -> nat
    decreases k,
{
    if k == 0 {
        0
    } else {
        unit_len(s) + prefix_len(s.skip(unit_len(s) as int), (k - 1) as nat)
    }
}

/// The number of characters of the longest run of whole units at the start of
/// `s` that fits into `width` columns.
pub open spec fn split_len(s: Seq<char>, width: int) -> nat {
    prefix_len(s, fitting(unit_widths(s), width))
}

/// Whether nothing that takes a column fits into `budget`, though there is such.
pub open spec fn is_forced(ws: Seq<nat>, budget: int) -> bool {
    &&& fitting(ws, budget) < ws.len()
    &&& forall|i: int| 0 <= i < fitting(ws, budget) ==> #[trigger] ws[i] == 0
}

/// How many of the widths `ws` make a chunk for `budget` columns: those that fit,
/// or, where that would take no column, the first that takes any with those
/// around it that take none.
pub open spec fn chunk_count(ws: Seq<nat>, budget: int) -> nat {
    let k = fitting(ws, budget);
    if is_forced(ws, budget) {
        k + 1 + fitting(ws.skip((k + 1) as int), 0)
    } else {
        k
    }
}

/// The number of characters of the chunk of `width` columns that `s` begins with.
pub open spec fn chunk_len(s: Seq<char>, width: int) -> nat {
    prefix_len(s, chunk_count(unit_widths(s), width))
}

/// Whether all of `s` is one chunk that is wider than `width`, for one of its
/// characters is.
pub open spec fn is_one_wide_chunk(s: Seq<char>, width: int) -> bool {
    is_forced(unit_widths(s), width) && chunk_len(s, width) == s.len()
}

/// Whether exactly one of the units `us` takes columns, and more than `width`.
pub open spec fn is_lone(us: Seq<Seq<char>>, width: nat) -> bool {
    exists|k: int|
        0 <= k < us.len() && unit_columns(#[trigger] us[k]) > width && forall|j: int|
            0 <= j < us.len() && j != k ==> unit_columns(#[trigger] us[j]) == 0
}

/// Taking the first unit off a text.
pub proof fn lemma_units_step(s: Seq<char>)
    requires
        s.len() > 0,
    ensures
        units(s).len() > 0,
        units(s)[0] == s.take(unit_len(s) as int),
        units(s).drop_first() == units(s.skip(unit_len(s) as int)),
        units(s) == seq![s.take(unit_len(s) as int)] + units(s.skip(unit_len(s) as int)),
{
    assert(units(s).drop_first() =~= units(s.skip(unit_len(s) as int)));
}

/// Cutting a text between two of its units cuts its sequence of units there.
pub proof fn lemma_units_split(s: Seq<char>, k: nat)
    requires
        k <= units(s).len(),
    ensures
        prefix_len(s, k) <= s.len(),
        units(s.take(prefix_len(s, k) as int)) == units(s).take(k as int),
        units(s.skip(prefix_len(s, k) as int)) == units(s).skip(k as int),
        0 < k ==> 0 < prefix_len(s, k),
    decreases k,
{
    if k == 0 {
        assert(s.skip(0) =~= s);
        assert(units(s).skip(0) =~= units(s));
        assert(units(s).take(0) =~= Seq::<Seq<char>>::empty());
    } else {
        lemma_units_step(s);
        lemma_unit_len(s);
        let m = unit_len(s);
        let u = s.take(m as int);
        let rest = s.skip(m as int);
        lemma_units_split(rest, (k - 1) as nat);
        let n = prefix_len(s, k);
        let inner = prefix_len(rest, (k - 1) as nat);
        assert(s.skip(n as int) =~= rest.skip(inner as int));
        assert(units(s).skip(k as int) =~= units(rest).skip(k - 1));
        let head = s.take(n as int);
        assert(head =~= u + rest.take(inner as int));
        assert(unit_len(head) == m) by {
            if m < s.len() {
                lemma_first_unit_complete(s);
                lemma_complete_first(u, rest.take(inner as int));
            } else {
                assert(head =~= s);
            }
        }
        lemma_units_step(head);
        assert(head.take(m as int) =~= u);
        assert(head.skip(m as int) =~= rest.take(inner as int));
        assert(units(s).take(k as int) =~= seq![u] + units(rest).take(k - 1));
    }
}

/// No more widths fit than there are.
pub proof fn lemma_fitting_bound(ws: Seq<nat>, budget: int)
    ensures
        fitting(ws, budget) <= ws.len(),
    decreases ws.len(),
{
    if ws.len() > 0 && ws[0] <= budget {
        lemma_fitting_bound(ws.drop_first(), budget - ws[0]);
    }
}

/// What fits takes no more than the budget, and what follows it does not fit.
pub proof fn lemma_fitting_total(us: Seq<Seq<char>>, budget: nat)
    ensures
        ({
            let k = fitting(us.map_values(|u: Seq<char>| unit_columns(u)), budget as int);
            &&& k <= us.len()
            &&& total_columns(us.take(k as int)) <= budget
            &&& k < us.len() ==> total_columns(us.take(k as int)) + unit_columns(us[k as int])
                > budget
        }),
    decreases us.len(),
{
    let f = |u: Seq<char>| unit_columns(u);
    let ws = us.map_values(f);
    if us.len() > 0 && ws[0] <= budget {
        lemma_fitting_total(us.drop_first(), (budget - ws[0]) as nat);
        assert(us.drop_first().map_values(f) =~= ws.drop_first());
        let k = fitting(ws, budget as int);
        assert(us.take(k as int).drop_first() =~= us.drop_first().take(k - 1));
    }
}

/// The cut leaves two texts that make up the whole again, between two units.
pub proof fn lemma_split(s: Seq<char>, width: nat)
    ensures
        split_len(s, width as int) <= s.len(),
        units(s) == units(s.take(split_len(s, width as int) as int)) + units(
            s.skip(split_len(s, width as int) as int),
        ),
        text_columns(s.take(split_len(s, width as int) as int)) <= width,
        split_len(s, width as int) < s.len() ==> text_columns(
            s.take(split_len(s, width as int) as int),
        ) + unit_columns(units(s.skip(split_len(s, width as int) as int))[0]) > width,
        split_len(s, width as int) == 0 && s.len() > 0 ==> s[0] != ESC && unit_columns(
            units(s)[0],
        ) > width,
{
    let k = fitting(unit_widths(s), width as int);
    lemma_fitting_total(units(s), width);
    lemma_units_split(s, k);
    assert(units(s) =~= units(s).take(k as int) + units(s).skip(k as int));
    let n = split_len(s, width as int);
    if n < s.len() {
        lemma_units_step(s.skip(n as int));
        assert(units(s)[k as int] == units(s).skip(k as int)[0]);
    }
    if n == 0 && s.len() > 0 {
        lemma_units_step(s);
        lemma_unit_len(s);
        assert(units(s).take(0) =~= Seq::<Seq<char>>::empty());
    }
}

/// A chunk of units takes no more than the budget, or holds one unit that does
/// alone; and with what follows it, it takes more.
pub proof fn lemma_chunk_count(us: Seq<Seq<char>>, budget: nat)
    ensures
        ({
            let ws = us.map_values(|u: Seq<char>| unit_columns(u));
            let n = chunk_count(ws, budget as int);
            &&& n <= us.len()
            &&& us.len() > 0 ==> n > 0
            &&& is_forced(ws, budget as int) ==> is_lone(us.take(n as int), budget)
            &&& !is_forced(ws, budget as int) ==> total_columns(us.take(n as int)) <= budget
            &&& n < us.len() ==> total_columns(us.take(n as int)) + unit_columns(us[n as int])
                > budget
        }),
{
    let f = |u: Seq<char>| unit_columns(u);
    let ws = us.map_values(f);
    let k = fitting(ws, budget as int);
    lemma_fitting_total(us, budget);
    if is_forced(ws, budget as int) {
        let later = us.skip((k + 1) as int);
        lemma_fitting_total(later, 0);
        assert(later.map_values(f) =~= ws.skip((k + 1) as int));
        let m = fitting(ws.skip((k + 1) as int), 0);
        let n = k + 1 + m;
        let part = us.take(n as int);
        lemma_no_columns(later.take(m as int));
        assert forall|j: int| 0 <= j < k implies unit_columns(
            #[trigger] us.take(k as int)[j],
        ) == 0 by {
            assert(ws[j] == 0);
        }
        lemma_none_take_columns(us.take(k as int));
        assert(unit_columns(part[k as int]) > budget);
        assert forall|j: int| 0 <= j < part.len() && j != k implies unit_columns(
            #[trigger] part[j],
        ) == 0 by {
            if j < k {
                assert(ws[j] == 0);
            } else {
                assert(later.take(m as int)[j - k - 1] == part[j]);
            }
        }
        if n < us.len() {
            assert(part =~= us.take(k as int) + seq![us[k as int]] + later.take(m as int));
            lemma_total_concat(us.take(k as int) + seq![us[k as int]], later.take(m as int));
            lemma_total_concat(us.take(k as int), seq![us[k as int]]);
            assert(seq![us[k as int]].drop_first() =~= Seq::<Seq<char>>::empty());
            assert(total_columns(seq![us[k as int]].drop_first()) == 0);
        }
    }
}

/// Where units take no columns together, each of them takes none.
pub proof fn lemma_no_columns(us: Seq<Seq<char>>)
    requires
        total_columns(us) == 0,
    ensures
        forall|i: int| 0 <= i < us.len() ==> unit_columns(#[trigger] us[i]) == 0,
    decreases us.len(),
{
    if us.len() > 0 {
        lemma_no_columns(us.drop_first());
        assert forall|i: int| 0 <= i < us.len() implies unit_columns(#[trigger] us[i]) == 0 by {
            if i > 0 {
                assert(us.drop_first()[i - 1] == us[i]);
            }
        }
    }
}

/// Where no unit takes columns, they take none together.
proof fn lemma_none_take_columns(us: Seq<Seq<char>>)
    requires
        forall|i: int| 0 <= i < us.len() ==> unit_columns(#[trigger] us[i]) == 0,
    ensures
        total_columns(us) == 0,
    decreases us.len(),
{
    if us.len() > 0 {
        assert(unit_columns(us[0]) == 0);
        lemma_none_take_columns(us.drop_first());
    }
}

/// The columns of two runs of units add up.
pub proof fn lemma_total_concat(x: Seq<Seq<char>>, y: Seq<Seq<char>>)
    ensures
        total_columns(x + y) == total_columns(x) + total_columns(y),
    decreases x.len(),
{
    if x.len() == 0 {
        assert(x + y =~= y);
    } else {
        assert((x + y).drop_first() =~= x.drop_first() + y);
        lemma_total_concat(x.drop_first(), y);
    }
}

/// A chunk and what follows it make up the whole again, between two units.
pub proof fn lemma_chunk(s: Seq<char>, width: nat)
    ensures
        ({
            let n = chunk_len(s, width as int) as int;
            let forced = is_forced(unit_widths(s), width as int);
            &&& n <= s.len()
            &&& s.len() > 0 ==> n > 0
            &&& units(s) == units(s.take(n)) + units(s.skip(n))
            &&& !forced ==> text_columns(s.take(n)) <= width
            &&& forced ==> is_lone(units(s.take(n)), width)
            &&& n < s.len() ==> text_columns(s.take(n)) + unit_columns(units(s.skip(n))[0])
                > width
        }),
{
    let k = chunk_count(unit_widths(s), width as int);
    lemma_chunk_count(units(s), width);
    lemma_units_split(s, k);
    assert(units(s) =~= units(s).take(k as int) + units(s).skip(k as int));
    if s.len() > 0 {
        lemma_units_step(s);
    }
    let n = chunk_len(s, width as int) as int;
    if n < s.len() {
        lemma_units_step(s.skip(n));
        assert(units(s)[k as int] == units(s).skip(k as int)[0]);
    }
}

/// How many of the `widths`, from the first on, fit into `budget` together.
pub fn count_fitting(widths: &Vec<usize>, budget: usize) -> (count: usize)
    ensures
        count == fitting(widths@.map_values(|w: usize| w as nat), budget as int),
        count <= widths@.len(),
        sum_of(widths@.map_values(|w: usize| w as nat).take(count as int)) <= budget,
        count < widths@.len() ==> sum_of(
            widths@.map_values(|w: usize| w as nat).take(count as int),
        ) + widths@[count as int] > budget,
{
    let ghost ws = widths@.map_values(|w: usize| w as nat);
    let mut left: usize = budget;
    let mut i: usize = 0;
    proof {
        assert(ws.skip(0) =~= ws);
        law_as_many_as_fit(ws, budget as nat);
    }
    while i < widths.len()
        invariant
            i <= widths@.len(),
            fitting(ws, budget as int) <= ws.len(),
            sum_of(ws.take(fitting(ws, budget as int) as int)) <= budget,
            fitting(ws, budget as int) < ws.len() ==> sum_of(
                ws.take(fitting(ws, budget as int) as int),
            ) + ws[fitting(ws, budget as int) as int] > budget,
            ws == widths@.map_values(|w: usize| w as nat),
            fitting(ws, budget as int) == i + fitting(ws.skip(i as int), left as int),
        decreases widths@.len() - i,
    {
        proof {
            assert(ws.skip(i as int)[0] == widths@[i as int]);
            assert(ws.skip(i as int).drop_first() =~= ws.skip(i + 1));
        }
        if widths[i] > left {
            return i;
        }
        left = left - widths[i];
        i = i + 1;
    }
    i
}

/// How many of the `widths` make a chunk for `budget` columns, and whether one of
/// them takes more than that alone.
pub fn count_chunk(widths: &Vec<usize>, budget: usize) -> (result: (usize, bool))
    ensures
        result.0 == chunk_count(widths@.map_values(|w: usize| w as nat), budget as int),
        result.1 == is_forced(widths@.map_values(|w: usize| w as nat), budget as int),
{
    let ghost ws = widths@.map_values(|w: usize| w as nat);
    let count = count_fitting(widths, budget);
    let mut i: usize = 0;
    while i < count && i < widths.len() && widths[i] == 0
        invariant
            i <= count,
            i <= widths@.len(),
            ws == widths@.map_values(|w: usize| w as nat),
            forall|j: int| 0 <= j < i ==> #[trigger] ws[j] == 0,
        decreases widths@.len() - i,
    {
        assert(ws[i as int] == 0);
        i = i + 1;
    }
    proof {
        lemma_fitting_bound(ws, budget as int);
        if i < count {
            assert(ws[i as int] != 0);
        }
    }
    let len = widths.len();
    if count == len || i < count {
        return (count, false);
    }
    let mut end: usize = count + 1;
    let ghost later = ws.skip(count + 1);
    assert(later.skip(0) =~= later);
    while end < len && widths[end] == 0
        invariant
            count < end <= len,
            len == widths@.len(),
            ws == widths@.map_values(|w: usize| w as nat),
            later == ws.skip(count + 1),
            fitting(later, 0) == end - count - 1 + fitting(later.skip(end - count - 1), 0),
        decreases len - end,
    {
        assert(later.skip(end - count - 1)[0] == ws[end as int]);
        assert(later.skip(end - count - 1).drop_first() =~= later.skip(end - count));
        end = end + 1;
    }
    assert(end < len ==> later.skip(end - count - 1)[0] == ws[end as int]);
    (end, true)
}

/// The columns of each unit of `chars`, and the position behind it.
fn measure_units(chars: &Vec<char>) -> (result: (Vec<usize>, Vec<usize>))
    ensures
        result.0@.map_values(|w: usize| w as nat) == unit_widths(chars@),
        result.0@.len() == result.1@.len() == units(chars@).len(),
        forall|j: int|
            0 <= j < result.1@.len() ==> #[trigger] result.1@[j] == prefix_len(
                chars@,
                (j + 1) as nat,
            ),
{
    let mut ends: Vec<usize> = Vec::new();
    let mut widths: Vec<usize> = Vec::new();
    let mut i: usize = 0;
    let ghost us = units(chars@);
    let ghost f = |u: Seq<char>| unit_columns(u);
    let ghost g = |w: usize| w as nat;
    proof {
        assert(chars@.skip(0) =~= chars@);
        assert(us.skip(0) =~= us);
    }
    while i < chars.len()
        invariant
            us == units(chars@),
            i <= chars@.len(),
            widths@.len() == ends@.len() <= us.len(),
            units(chars@.skip(i as int)) == us.skip(widths@.len() as int),
            i == prefix_len(chars@, widths@.len()),
            forall|j: int| 0 <= j < widths@.len() ==> #[trigger] widths@[j] == unit_columns(us[j]),
            forall|j: int| 0 <= j < ends@.len() ==> #[trigger] ends@[j] == prefix_len(
                chars@,
                (j + 1) as nat,
            ),
        decreases chars@.len() - i,
    {
        let end = unit_end(chars, i);
        let ghost s = chars@.skip(i as int);
        let ghost k = widths@.len();
        proof {
            lemma_units_step(s);
            assert(s.skip(unit_len(s) as int) =~= chars@.skip(end as int));
            assert(us.skip(k as int)[0] == us[k as int]);
            assert(us.skip(k as int).drop_first() =~= us.skip((k + 1) as int));
            lemma_prefix_len_step(chars@, k);
        }
        if chars[i] == ESC {
            widths.push(0);
        } else {
            widths.push(columns_of(chars[i]));
        }
        ends.push(end);
        i = end;
    }
    proof {
        assert(us.skip(widths@.len() as int).len() == 0);
        assert(widths@.map_values(g) =~= us.map_values(f));
    }
    (widths, ends)
}

/// Splits `chars` behind `count` of their units, which end at `ends`.
fn split_behind(chars: &Vec<char>, ends: &Vec<usize>, count: usize) -> (parts: (String, String))
    requires
        count <= ends@.len() == units(chars@).len(),
        forall|j: int|
            0 <= j < ends@.len() ==> #[trigger] ends@[j] == prefix_len(chars@, (j + 1) as nat),
    ensures
        parts.0@ == chars@.take(prefix_len(chars@, count as nat) as int),
        parts.1@ == chars@.skip(prefix_len(chars@, count as nat) as int),
        parts.0@ + parts.1@ == chars@,
{
    proof {
        lemma_units_split(chars@, count as nat);
    }
    let cut: usize = if count == 0 {
        0
    } else {
        ends[count - 1]
    };
    let head = text_between(chars, 0, cut);
    let tail = text_between(chars, cut, chars.len());
    proof {
        assert(head@ =~= chars@.take(cut as int));
        assert(tail@ =~= chars@.skip(cut as int));
        assert(head@ + tail@ =~= chars@);
    }
    (head, tail)
}

/// Splits `word`, which may hold escape sequences, at the first position where
/// its columns would exceed `width`, into what stands before and behind it.
///
/// Both parts together are `word`; the first takes no more than `width` columns,
/// and with the next unit it would take more; no escape sequence is cut.
pub fn split_at_visible_width(word: &str, width: usize) -> (parts: (String, String))
    ensures
        parts.0@ == word@.take(split_len(word@, width as int) as int),
        parts.1@ == word@.skip(split_len(word@, width as int) as int),
        parts.0@ + parts.1@ == word@,
        units(word@) == units(parts.0@) + units(parts.1@),
        text_columns(parts.0@) <= width,
        parts.1@.len() > 0 ==> text_columns(parts.0@) + unit_columns(units(parts.1@)[0]) > width,
{
    let chars = characters(word);
    let (widths, ends) = measure_units(&chars);
    let count = count_fitting(&widths, width);
    proof {
        lemma_fitting_bound(unit_widths(word@), width as int);
        lemma_split(word@, width as nat);
    }
    split_behind(&chars, &ends, count)
}

/// Splits the chunk of `width` columns off `word`, and says whether one of its
/// characters is wider than that.
pub fn split_chunk(word: &str, width: usize) -> (result: (String, String, bool))
    ensures
        result.0@ == word@.take(chunk_len(word@, width as int) as int),
        result.1@ == word@.skip(chunk_len(word@, width as int) as int),
        result.0@ + result.1@ == word@,
        result.2 == is_forced(unit_widths(word@), width as int),
        word@.len() > 0 ==> result.0@.len() > 0,
        units(word@) == units(result.0@) + units(result.1@),
        !result.2 ==> text_columns(result.0@) <= width,
        result.2 ==> is_lone(units(result.0@), width as nat),
        result.1@.len() > 0 ==> text_columns(result.0@) + unit_columns(units(result.1@)[0])
            > width,
{
    let chars = characters(word);
    let (widths, ends) = measure_units(&chars);
    let (count, forced) = count_chunk(&widths, width);
    proof {
        lemma_chunk_count(units(word@), width as nat);
        lemma_chunk(word@, width as nat);
    }
    let (head, tail) = split_behind(&chars, &ends, count);
    (head, tail, forced)
}

/// The units of a text, one more of them at a time.
proof fn lemma_prefix_len_step(s: Seq<char>, k: nat)
    requires
        k < units(s).len(),
    ensures
        prefix_len(s, k + 1) == prefix_len(s, k) + unit_len(s.skip(prefix_len(s, k) as int)),
    decreases k,
{
    lemma_units_split(s, k);
    if s.len() == 0 {
        assert(units(s).len() == 0);
    }
    lemma_units_step(s);
    lemma_unit_len(s);
    let m = unit_len(s) as int;
    if k == 0 {
        assert(s.skip(0) =~= s);
        assert(prefix_len(s.skip(m), 0) == 0);
        assert(prefix_len(s, 1) == unit_len(s) + prefix_len(s.skip(m), 0));
    } else {
        lemma_prefix_len_step(s.skip(m), (k - 1) as nat);
        lemma_units_split(s.skip(m), (k - 1) as nat);
        assert(s.skip(m).skip(prefix_len(s.skip(m), (k - 1) as nat) as int) =~= s.skip(
            prefix_len(s, k) as int,
        ));
    }
}

/// The widths `ws`, added up.
pub open spec fn sum_of(ws: Seq<nat>) -> nat
    decreases ws.len(),
{
    if ws.len() == 0 {
        0
    } else {
        sum_of(ws.drop_last()) + ws.last()
    }
}

proof fn lemma_sum_first(ws: Seq<nat>)
    requires
        ws.len() > 0,
    ensures
        sum_of(ws) == ws[0] + sum_of(ws.drop_first()),
    decreases ws.len(),
{
    if ws.len() == 1 {
        assert(ws.drop_last() =~= Seq::<nat>::empty());
        assert(ws.drop_first() =~= Seq::<nat>::empty());
        assert(sum_of(ws.drop_last()) == 0);
    } else {
        lemma_sum_first(ws.drop_last());
        assert(ws.drop_last().drop_first() =~= ws.drop_first().drop_last());
    }
}

proof fn lemma_sum_of_none(ws: Seq<nat>)
    requires
        forall|i: int| 0 <= i < ws.len() ==> #[trigger] ws[i] == 0,
    ensures
        sum_of(ws) == 0,
    decreases ws.len(),
{
    if ws.len() > 0 {
        assert(ws[ws.len() - 1] == 0);
        lemma_sum_of_none(ws.drop_last());
    }
}

proof fn lemma_sum_has(ws: Seq<nat>, i: int)
    requires
        0 <= i < ws.len(),
    ensures
        sum_of(ws) >= ws[i],
    decreases ws.len(),
{
    if i < ws.len() - 1 {
        lemma_sum_has(ws.drop_last(), i);
    }
}

/// **As many as fit, and no more**: the widths that fit take no more than the budget
/// together, and with the next one they would.
pub proof fn law_as_many_as_fit(ws: Seq<nat>, budget: nat)
    ensures
        ({
            let k = fitting(ws, budget as int);
            &&& k <= ws.len()
            &&& sum_of(ws.take(k as int)) <= budget
            &&& k < ws.len() ==> sum_of(ws.take(k as int)) + ws[k as int] > budget
        }),
    decreases ws.len(),
{
    let k = fitting(ws, budget as int) as int;
    if ws.len() == 0 || ws[0] > budget {
        assert(ws.take(0) =~= Seq::<nat>::empty());
    } else {
        law_as_many_as_fit(ws.drop_first(), (budget - ws[0]) as nat);
        lemma_fitting_bound(ws, budget as int);
        assert(ws.take(k).drop_first() =~= ws.drop_first().take(k - 1));
        lemma_sum_first(ws.take(k));
    }
}

/// **A chunk takes as many as fit, or one that is too wide**: where it takes no more
/// than the budget, the next one does not fit with it; where it takes more, one width
/// alone does, and none of the others is more than 0; and it stops before all are
/// taken only behind one that is more than 0, and before one that is.
pub proof fn law_chunk_takes_what_fits_or_one(ws: Seq<nat>, budget: nat)
    ensures
        ({
            let n = chunk_count(ws, budget as int);
            let part = ws.take(n as int);
            &&& n <= ws.len()
            &&& sum_of(part) > budget <==> is_forced(ws, budget as int)
            &&& n < ws.len() ==> sum_of(part) > 0 && ws[n as int] > 0 && sum_of(part)
                + ws[n as int] > budget
            &&& sum_of(part) > budget ==> exists|k: int|
                0 <= k < n && #[trigger] part[k] > budget && forall|j: int|
                    0 <= j < n && j != k ==> #[trigger] part[j] == 0
        }),
{
    let k = fitting(ws, budget as int);
    law_as_many_as_fit(ws, budget);
    let n = chunk_count(ws, budget as int);
    let part = ws.take(n as int);
    if is_forced(ws, budget as int) {
        let later = ws.skip((k + 1) as int);
        let m = fitting(later, 0);
        law_as_many_as_fit(later, 0);
        assert forall|j: int| 0 <= j < k implies #[trigger] ws.take(k as int)[j] == 0 by {
            assert(ws[j] == 0);
        }
        lemma_sum_of_none(ws.take(k as int));
        assert(part[k as int] > budget);
        lemma_sum_has(part, k as int);
        assert forall|j: int| 0 <= j < n && j != k implies #[trigger] part[j] == 0 by {
            if j < k {
                assert(ws[j] == 0);
            } else {
                lemma_sum_has(later.take(m as int), j - k - 1);
                assert(later.take(m as int)[j - k - 1] == part[j]);
            }
        }
        if n < ws.len() {
            assert(later[m as int] == ws[n as int]);
        }
    } else if k < ws.len() {
        let j = choose|j: int| 0 <= j < k && #[trigger] ws[j] != 0;
        assert(part[j] == ws[j]);
        lemma_sum_has(part, j);
    }
}

} // verus!
