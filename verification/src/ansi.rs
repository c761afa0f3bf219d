//! Terminal text as a sequence of *units*.
//!
//! A unit is either one ordinary character or one whole escape sequence. Lines
//! are only ever broken between units, so that no escape sequence is torn apart.

use vstd::prelude::*;

verus! {

/// The character that begins every escape sequence.
pub const ESC: char = '\x1b';

/// The sequence that switches every style off.
pub open spec fn reset_sequence() -> Seq<char> {
    seq![ESC, '[', '0', 'm']
}

/// Whether the escape sequence that `s` begins with ends at position `j`.
///
/// A control sequence (`ESC [`) ends with a letter; an operating system command
/// (`ESC ]`) ends with BEL or with `ESC \`.
pub open spec fn terminates(s: Seq<char>, j: int) -> bool {
    if s[1] == '[' {
        'a' <= s[j] <= 'z' || 'A' <= s[j] <= 'Z'
    } else {
        s[j] == '\x07' || (s[j] == '\\' && s[j - 1] == ESC)
    }
}

/// The number of characters up to and with the first terminator at or behind
/// `j`, or all of `s` where there is none.
pub open spec fn terminated_len(s: Seq<char>, j: nat) -> nat
    decreases s.len() - j,
{
    if j >= s.len() {
        s.len()
    } else if terminates(s, j as int) {
        j + 1
    } else {
        terminated_len(s, j + 1)
    }
}

/// The number of characters of the unit that `s` begins with.
pub open spec fn unit_len(s: Seq<char>) -> nat {
    if s.len() <= 1 || s[0] != ESC {
        if s.len() == 0 { 0 } else { 1 }
    } else if s[1] == '[' || s[1] == ']' {
        terminated_len(s, 2)
    } else {
        2
    }
}

/// Whether `u` is an escape sequence.
pub open spec fn is_escape(u: Seq<char>) -> bool {
    u.len() > 0 && u[0] == ESC
}

/// The units of `s`, in order.
pub open spec fn units(s: Seq<char>) -> Seq<Seq<char>>
    decreases s.len(),
{
    if s.len() == 0 {
        Seq::empty()
    } else {
        proof {
            lemma_unit_len(s);
        }
        seq![s.take(unit_len(s) as int)] + units(s.skip(unit_len(s) as int))
    }
}

/// Whether `u` is one unit whatever follows it.
pub open spec fn complete(u: Seq<char>) -> bool {
    &&& u.len() > 0
    &&& unit_len(u) == u.len()
    &&& u[0] == ESC ==> u.len() >= 2
    &&& (u[0] == ESC && (u[1] == '[' || u[1] == ']')) ==> u.len() >= 3 && terminates(
        u,
        u.len() - 1,
    )
}

/// Whether every unit of `s` is complete, so that text put behind `s` does not
/// change them.
pub open spec fn closed_text(s: Seq<char>) -> bool {
    forall|i: int| 0 <= i < units(s).len() ==> complete(#[trigger] units(s)[i])
}

proof fn lemma_terminated_len(s: Seq<char>, j: nat)
    requires
        j <= s.len(),
    ensures
        j <= terminated_len(s, j) <= s.len(),
        j < s.len() ==> j < terminated_len(s, j),
        terminated_len(s, j) < s.len() ==> terminates(s, terminated_len(s, j) - 1),
        forall|k: int| j <= k < terminated_len(s, j) - 1 ==> !terminates(s, k),
    decreases s.len() - j,
{
    if j < s.len() && !terminates(s, j as int) {
        lemma_terminated_len(s, j + 1);
    }
}

/// A unit of non-empty text has at least one character and no more than the text.
pub proof fn lemma_unit_len(s: Seq<char>)
    ensures
        unit_len(s) <= s.len(),
        s.len() > 0 ==> unit_len(s) > 0,
{
    if s.len() >= 2 {
        lemma_terminated_len(s, 2);
    }
}

proof fn lemma_terminated_len_is(s: Seq<char>, j: nat, e: nat)
    requires
        j < e <= s.len(),
        terminates(s, e - 1),
        forall|k: int| j <= k < e - 1 ==> !terminates(s, k),
    ensures
        terminated_len(s, j) == e,
    decreases e - j,
{
    if j + 1 < e {
        assert(!terminates(s, j as int));
        lemma_terminated_len_is(s, j + 1, e);
    }
}

proof fn lemma_terminates_prefix(s: Seq<char>, n: int)
    requires
        2 <= n <= s.len(),
    ensures
        forall|k: int| 2 <= k < n ==> terminates(s.take(n), k) == terminates(s, k),
{
}

/// A unit with text behind it is complete.
pub proof fn lemma_first_unit_complete(s: Seq<char>)
    requires
        unit_len(s) < s.len(),
    ensures
        complete(s.take(unit_len(s) as int)),
{
    lemma_unit_len(s);
    let n = unit_len(s);
    let u = s.take(n as int);
    if s[0] == ESC && (s[1] == '[' || s[1] == ']') {
        lemma_terminated_len(s, 2);
        lemma_terminates_prefix(s, n as int);
        assert(terminates(u, n - 1)) by {
            assert(terminates(s, n - 1));
        }
        assert forall|k: int| 2 <= k < n - 1 implies !terminates(u, k) by {
            assert(!terminates(s, k));
        }
        lemma_terminated_len_is(u, 2, n);
    }
}

/// A complete unit stays the first unit of any text that begins with it.
pub proof fn lemma_complete_first(u: Seq<char>, rest: Seq<char>)
    requires
        complete(u),
    ensures
        unit_len(u + rest) == u.len(),
{
    let s = u + rest;
    if u[0] == ESC && (u[1] == '[' || u[1] == ']') {
        let n = u.len();
        lemma_terminated_len(u, 2);
        assert(s.take(n as int) =~= u);
        lemma_terminates_prefix(s, n as int);
        assert(terminates(s, n - 1)) by {
            assert(terminates(u, n - 1));
        }
        assert forall|k: int| 2 <= k < n - 1 implies !terminates(s, k) by {
            assert(!terminates(u, k));
        }
        lemma_terminated_len_is(s, 2, n);
    }
}

/// The position behind the unit of `chars` that begins at `start`.
pub fn unit_end(chars: &Vec<char>, start: usize) -> (end: usize)
    requires
        start < chars@.len(),
    ensures
        end == start + unit_len(chars@.skip(start as int)),
        start < end <= chars@.len(),
{
    let ghost s = chars@.skip(start as int);
    proof {
        lemma_unit_len(s);
    }
    let len = chars.len();
    if chars[start] != ESC || start + 1 == len {
        return start + 1;
    }
    let kind = chars[start + 1];
    if kind != '[' && kind != ']' {
        return start + 2;
    }
    let mut i: usize = start + 2;
    while i < len
        invariant
            start + 2 <= i <= len,
            len == chars@.len(),
            s == chars@.skip(start as int),
            kind == s[1],
            kind == '[' || kind == ']',
            unit_len(s) == terminated_len(s, (i - start) as nat),
        decreases chars@.len() - i,
    {
        let c = chars[i];
        assert(c == s[i - start]);
        assert(chars@[i - 1] == s[i - start - 1]);
        i = i + 1;
        if kind == '[' {
            if ('a' <= c && c <= 'z') || ('A' <= c && c <= 'Z') {
                return i;
            }
        } else if c == '\x07' || (c == '\\' && chars[i - 2] == ESC) {
            return i;
        }
    }
    i
}

/// Whether `c` has the Unicode property `White_Space`.
pub open spec fn white_space(c: char) -> bool {
    ||| '\t' <= c <= '\r'
    ||| c == ' '
    ||| c == '\u{85}'
    ||| c == '\u{a0}'
    ||| c == '\u{1680}'
    ||| '\u{2000}' <= c <= '\u{200a}'
    ||| c == '\u{2028}'
    ||| c == '\u{2029}'
    ||| c == '\u{202f}'
    ||| c == '\u{205f}'
    ||| c == '\u{3000}'
}

/// Decides whether `c` has the Unicode property `White_Space`.
pub fn is_white_space(c: char) -> (yes: bool)
    ensures
        yes == white_space(c),
{
    ('\t' <= c && c <= '\r') || c == ' ' || c == '\u{85}' || c == '\u{a0}' || c == '\u{1680}' || (
    '\u{2000}' <= c && c <= '\u{200a}') || c == '\u{2028}' || c == '\u{2029}' || c == '\u{202f}'
        || c == '\u{205f}' || c == '\u{3000}'
}

/// Whether `c` is a letter of ASCII.
pub open spec fn is_letter(c: char) -> bool {
    ('a' <= c && c <= 'z') || ('A' <= c && c <= 'Z')
}

/// **A character is a unit**: any but ESC, and ESC where nothing follows it; and ESC
/// with any character but brackets behind it is one together with that.
pub proof fn law_characters_are_units(s: Seq<char>)
    requires
        s.len() > 0,
    ensures
        s[0] != '\x1b' ==> unit_len(s) == 1,
        s.len() == 1 ==> unit_len(s) == 1,
        s.len() > 1 && s[0] == '\x1b' && s[1] != '[' && s[1] != ']' ==> unit_len(s) == 2,
{
}

/// **A control sequence ends with its first letter**, and with the text where it has
/// none.
pub proof fn law_control_sequence_ends_with_a_letter(s: Seq<char>, j: int)
    requires
        s.len() >= 2,
        s[0] == '\x1b',
        s[1] == '[',
        2 <= j <= s.len(),
        forall|k: int| 2 <= k < j ==> !is_letter(#[trigger] s[k]),
        j < s.len() ==> is_letter(s[j]),
    ensures
        unit_len(s) == if j < s.len() {
            j + 1
        } else {
            j
        },
{
    assert forall|k: int| 2 <= k < j implies !terminates(s, k) by {
        assert(!is_letter(s[k]));
    }
    lemma_ends_at(s, j);
}

/// **A command ends with BEL or with ESC and a backslash**, whichever comes first, and
/// with the text where neither does.
pub proof fn law_command_ends_with_its_terminator(s: Seq<char>, j: int)
    requires
        s.len() >= 2,
        s[0] == '\x1b',
        s[1] == ']',
        2 <= j <= s.len(),
        forall|k: int|
            2 <= k < j ==> #[trigger] s[k] != '\x07' && (s[k] != '\\' || s[k - 1] != '\x1b'),
        j < s.len() ==> s[j] == '\x07' || (s[j] == '\\' && s[j - 1] == '\x1b'),
    ensures
        unit_len(s) == if j < s.len() {
            j + 1
        } else {
            j
        },
{
    assert forall|k: int| 2 <= k < j implies !terminates(s, k) by {
        assert(s[k] != '\x07');
    }
    lemma_ends_at(s, j);
}

proof fn lemma_ends_at(s: Seq<char>, j: int)
    requires
        s.len() >= 2,
        2 <= j <= s.len(),
        forall|k: int| 2 <= k < j ==> !terminates(s, k),
        j < s.len() ==> terminates(s, j),
    ensures
        terminated_len(s, 2) == if j < s.len() {
            j + 1
        } else {
            j
        },
{
    lemma_terminated_len(s, 2);
    let e = terminated_len(s, 2);
    if j < s.len() {
        if e - 1 > j {
            assert(!terminates(s, j));
        }
        if e - 1 < j {
            assert(terminates(s, e - 1));
        }
    } else if e < s.len() {
        assert(terminates(s, e - 1));
    }
}

/// The units `us`, one behind the other.
pub open spec fn joined(us: Seq<Seq<char>>) -> Seq<char>
    decreases us.len(),
{
    if us.len() == 0 {
        Seq::empty()
    } else {
        joined(us.drop_last()) + us.last()
    }
}

proof fn lemma_joined_first(u: Seq<char>, us: Seq<Seq<char>>)
    ensures
        joined(seq![u] + us) == u + joined(us),
    decreases us.len(),
{
    let all = seq![u] + us;
    if us.len() == 0 {
        assert(all.drop_last() =~= Seq::<Seq<char>>::empty());
        assert(joined(all.drop_last()) =~= Seq::<char>::empty());
        assert(all.last() == u);
        assert(joined(all) =~= u);
        assert(u + joined(us) =~= u);
    } else {
        assert(all.drop_last() =~= seq![u] + us.drop_last());
        lemma_joined_first(u, us.drop_last());
        assert(joined(all) =~= u + joined(us));
    }
}

/// **The units make up the text**: one behind the other they are the text, none of
/// them is empty, and each of them is one unit by itself.
pub proof fn law_units_make_up_the_text(s: Seq<char>)
    ensures
        joined(units(s)) == s,
        forall|i: int|
            0 <= i < units(s).len() ==> (#[trigger] units(s)[i]).len() > 0 && unit_len(units(s)[i])
                == units(s)[i].len(),
    decreases s.len(),
{
    if s.len() == 0 {
        assert(joined(units(s)) =~= s);
    } else {
        lemma_unit_len(s);
        let n = unit_len(s) as int;
        let u = s.take(n);
        let rest = s.skip(n);
        law_units_make_up_the_text(rest);
        lemma_joined_first(u, units(rest));
        assert(u + rest =~= s);
        assert(unit_len(u) == u.len()) by {
            if n < s.len() {
                lemma_first_unit_complete(s);
            } else {
                assert(u =~= s);
            }
        }
        assert forall|i: int| 0 <= i < units(s).len() implies (#[trigger] units(s)[i]).len() > 0
            && unit_len(units(s)[i]) == units(s)[i].len() by {
            if i > 0 {
                assert(units(s)[i] == units(rest)[i - 1]);
            }
        }
    }
}

} // verus!
