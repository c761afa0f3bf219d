use forge_core::ansi::{is_white_space, unit_end};
use forge_core::layout::Layout;
use forge_core::measure::columns_of;
use forge_core::split::{count_chunk, count_fitting, split_at_visible_width, split_chunk};
use forge_core::wrap::{break_lines, wrap_with_prefixes};

/// Strip ANSI codes for plain-text comparison.
fn strip(s: &str) -> String {
    String::from_utf8(strip_ansi_escapes::strip(s)).unwrap()
}

fn wrap(text: &str, width: usize, fp: &str, np: &str) -> Vec<String> {
    wrap_with_prefixes(text, width, fp, np)
}

fn split(word: &str, width: usize) -> (String, String) {
    split_at_visible_width(word, width)
}

fn pair(head: &str, tail: &str) -> (String, String) {
    (head.to_string(), tail.to_string())
}

// Basic ASCII

#[test]
fn empty_text_returns_empty_vec() {
    let actual = wrap("", 80, "  • ", "    ");
    let expected: Vec<String> = vec![];
    assert_eq!(actual, expected);
}

#[test]
fn short_text_fits_on_first_line() {
    // width=80 content cols; "hello world" = 11 cols: fits
    let actual = wrap("hello world", 80, "  • ", "    ");
    let expected = vec!["  • hello world"];
    assert_eq!(actual, expected);
}

#[test]
fn ascii_wraps_at_space() {
    // width=11 content cols (prefix not counted).
    // "hello " = 6, adding "world " = 6+6=12 > 11: wrap before "world"
    let actual = wrap("hello world foo", 11, "  • ", "    ");
    let stripped: Vec<String> = actual.iter().map(|l| strip(l)).collect();
    assert!(stripped.len() >= 2, "should wrap: {:?}", stripped);
    assert!(
        stripped[0].contains("hello"),
        "first line must contain 'hello'"
    );
    assert!(
        actual.iter().any(|l| strip(l).contains("world")),
        "some line must contain 'world'"
    );
}

// Korean spacing preservation

#[test]
fn korean_spaces_preserved_no_wrap_needed() {
    // width=80; "안녕 하세요" = 11 cols: fits on one line; space preserved.
    let text = "안녕 하세요";
    let actual = wrap(text, 80, "  • ", "    ");
    assert_eq!(actual.len(), 1, "should be 1 line: {:?}", actual);
    assert!(
        actual[0].contains("안녕 하세요"),
        "space must be preserved: {:?}",
        actual[0]
    );
}

#[test]
fn korean_spaces_preserved_after_wrap() {
    // width=8 content cols (prefix not counted).
    // "안녕" = 4 cols, space = 1: "안녕 " = 5 ≤ 8, fits.
    // "하세요" = 6 cols: 5+6 = 11 > 8: wrap.
    let text = "안녕 하세요";
    let actual = wrap(text, 8, "  • ", "    ");
    assert_eq!(actual.len(), 2, "expected 2 lines: {:?}", actual);
    // First line must contain "안녕 " WITH the trailing space.
    assert!(
        actual[0].contains("안녕 "),
        "space after 안녕 must be preserved: {:?}",
        actual[0]
    );
    // Second line must contain "하세요".
    assert!(
        actual[1].contains("하세요"),
        "second line must contain 하세요: {:?}",
        actual[1]
    );
}

#[test]
fn korean_multi_word_spaces_all_preserved() {
    // width=80; all spaces in a multi-word Korean sentence survive.
    let text = "이것은 한국어 테스트 문장입니다";
    let actual = wrap(text, 80, "  • ", "    ");
    assert!(
        actual[0].contains("이것은 한국어 테스트 문장입니다"),
        "all spaces must be preserved: {:?}",
        actual[0]
    );
}

#[test]
fn korean_wraps_preserving_all_spaces() {
    // width=14 content cols forces multi-line.
    let text = "이것은 한국어 테스트";
    let actual = wrap(text, 14, "  • ", "    ");
    assert!(actual.len() >= 2, "expected wrapping: {:?}", actual);
    // All Korean words must be present across lines.
    let all = actual.join("");
    assert!(all.contains("이것은"), "이것은 missing: {:?}", all);
    assert!(all.contains("한국어"), "한국어 missing: {:?}", all);
    assert!(all.contains("테스트"), "테스트 missing: {:?}", all);
}

// Continuation prefix

#[test]
fn continuation_lines_use_next_prefix() {
    // width=7 content cols to force a wrap.
    let text = "word1 word2 word3";
    let actual = wrap(text, 7, "A> ", "   ");
    assert!(
        actual[0].starts_with("A> "),
        "first line prefix: {:?}",
        actual[0]
    );
    if actual.len() > 1 {
        assert!(
            actual[1].starts_with("   "),
            "cont. prefix: {:?}",
            actual[1]
        );
    }
}

// ANSI

#[test]
fn ansi_codes_do_not_affect_width_measurement() {
    // Bold "hello" + " world": visually same as plain.
    let bold_hello = "\x1b[1mhello\x1b[0m";
    let text = format!("{} world", bold_hello);
    let actual = wrap(&text, 80, "  ", "  ");
    // Should fit on one line with width=80.
    assert_eq!(actual.len(), 1);
    assert!(actual[0].contains("hello"));
    assert!(actual[0].contains("world"));
}

// Exact lines

#[test]
fn ascii_lines_are_exact() {
    assert_eq!(
        wrap("hello world foo", 11, "A ", "B "),
        vec!["A hello ", "B world foo"]
    );
}

#[test]
fn korean_lines_are_exact() {
    assert_eq!(wrap("안녕 하세요", 8, "A ", "B "), vec!["A 안녕 ", "B 하세요"]);
    assert_eq!(
        wrap("이것은 한국어 테스트", 14, "", ""),
        vec!["이것은 한국어 ", "테스트"]
    );
}

#[test]
fn space_that_does_not_fit_begins_a_line() {
    assert_eq!(wrap("hello world", 5, "", ""), vec!["hello", " ", "world"]);
    assert_eq!(wrap("hello  wo", 5, "", ""), vec!["hello", "  wo"]);
    assert_eq!(wrap("hello a", 6, "", ""), vec!["hello ", "a"]);
    assert_eq!(wrap("abcd\u{3000}e", 5, "", ""), vec!["abcd", "\u{3000}e"]);
}

#[test]
fn zero_width_does_not_wrap() {
    assert_eq!(wrap("hello world", 0, "A ", "B "), vec!["A hello world"]);
}

#[test]
fn oversized_word_is_cut() {
    assert_eq!(
        wrap("abcdefghijkl", 5, "A ", "B "),
        vec!["A abcde", "B f", "B ghijk", "B l"]
    );
}

#[test]
fn oversized_word_behind_text_begins_a_new_line() {
    assert_eq!(wrap("ab cdefghij", 5, "", ""), vec!["ab ", "cdefg", "hij"]);
}

#[test]
fn rest_of_an_oversized_word_is_followed_by_text() {
    assert_eq!(wrap("abcdefg hi jkl", 6, "", ""), vec!["abcdef", "g hi ", "jkl"]);
}

#[test]
fn wide_characters_are_cut_between_columns() {
    assert_eq!(wrap("가나다라", 5, "", ""), vec!["가나", "다라"]);
}

#[test]
fn style_is_closed_and_opened_again_at_a_break() {
    assert_eq!(
        wrap("\x1b[31mred text more", 5, "", ""),
        vec!["\x1b[31mred \x1b[0m", "\x1b[31mtext \x1b[0m", "\x1b[31mmore"]
    );
}

#[test]
fn style_that_ends_before_the_break_is_not_opened_again() {
    assert_eq!(
        wrap("\x1b[31mred text\x1b[0m", 5, "", ""),
        vec!["\x1b[31mred ", "text\x1b[0m"]
    );
}

#[test]
fn style_is_closed_and_opened_again_in_a_cut_word() {
    assert_eq!(
        wrap("\x1b[1mabcdefg", 5, "", ""),
        vec!["\x1b[1m\x1b[1mabcde\x1b[0m", "\x1b[1mfg"]
    );
}

#[test]
fn reset_ends_the_style() {
    assert_eq!(
        wrap("\x1b[1mab\x1b[0m cd ef", 5, "", ""),
        vec!["\x1b[1mab\x1b[0m ", "cd ef"]
    );
}

#[test]
fn hyperlinks_take_no_columns() {
    let link = "\x1b]8;;http://example.com\x1b\\";
    let text = format!("{}ab cd\x1b]8;;\x1b\\ ef", link);
    assert_eq!(
        wrap(&text, 6, "", ""),
        vec![
            format!("{}ab cd\x1b]8;;\x1b\\ ", link),
            "ef".to_string()
        ]
    );
}

#[test]
fn control_sequence_without_end_stays_whole() {
    assert_eq!(
        wrap("ab cd ef\x1b[12", 5, "", ""),
        vec!["ab ", "cd ef\x1b[12"]
    );
}

#[test]
fn space_stays_where_the_line_is_seen_to_fit() {
    // Two characters of two columns each, seen as one of two columns.
    let thumb = "\u{1f44d}\u{1f3fd}";
    assert_eq!(
        wrap(&format!("{} ab", thumb), 4, "", ""),
        vec![format!("{} ", thumb), "ab".to_string()]
    );
    assert_eq!(
        wrap(&format!("{}  ab", thumb), 4, "", ""),
        vec![format!("{} ", thumb), " ab".to_string()]
    );
}

#[test]
fn whitespace_without_columns_before_an_oversized_word_is_kept() {
    assert_eq!(wrap("\tabcd", 3, "", ""), vec!["\t", "abc", "d"]);
    assert_eq!(wrap("\nabcdefg", 5, "", ""), vec!["\n", "abcde", "fg"]);
}

#[test]
fn space_before_an_oversized_word_is_kept() {
    assert_eq!(wrap(" abcdefgh", 5, "", ""), vec![" ", "abcde", "fgh"]);
    assert_eq!(
        wrap("  \u{3000}가나다라마", 4, "", ""),
        vec!["  \u{3000}", "가나", "다", "라마"]
    );
}

#[test]
fn no_space_is_lost() {
    let text = " \x1b[1m 가 나\n abcdefghijk \tlmnopqrstuvw\x1b[0m  ";
    let spaces = |s: &str| s.chars().filter(|c| *c == ' ').count();
    for width in 3..40 {
        let rows = break_lines(text, width);
        assert_eq!(spaces(&rows.concat()), spaces(text), "width {}", width);
    }
}

#[test]
fn line_break_between_words_is_kept() {
    assert_eq!(wrap("ab\ncd ef gh", 5, "", ""), vec!["ab\ncd ", "ef gh"]);
}

#[test]
fn contents_make_up_the_text() {
    let text = "이것은 한국어  테스트 abcdefghijklmnop 문장 입니다 ";
    for width in 3..40 {
        let rows = break_lines(text, width);
        assert_eq!(rows.concat(), text, "width {}", width);
    }
}

#[test]
fn rows_keep_to_the_width() {
    let text = "some words of several lengths, and averyveryverylongonewithoutspaces";
    for width in 1..30 {
        for row in break_lines(text, width) {
            assert!(row.chars().count() <= width, "{:?}", row);
            assert!(!row.is_empty());
        }
    }
}

#[test]
fn korean_rows_keep_to_the_width() {
    let text = "이것은 한국어  테스트\u{3000}문장입니다 띄어쓰기";
    for width in 2..30 {
        let rows = break_lines(text, width);
        assert_eq!(rows.concat(), text);
        for row in rows {
            let columns: usize = row.chars().map(columns_of).sum();
            assert!(columns <= width, "{:?}", row);
        }
    }
}

#[test]
fn one_column_is_enough_for_ascii() {
    assert_eq!(wrap("abc de", 1, "", ""), vec!["a", "b", "c", " ", "d", "e"]);
}

#[test]
fn character_that_is_too_wide_has_a_line_for_itself() {
    assert_eq!(wrap("안녕", 1, "A ", "B "), vec!["A 안", "B 녕"]);
    assert_eq!(wrap("a 안b", 1, "", ""), vec!["a", " ", "안", "b"]);
    assert_eq!(wrap("a\u{3000}b", 1, "", ""), vec!["a", "\u{3000}", "b"]);
    assert_eq!(
        wrap("\x1b[1m안녕", 1, "", ""),
        vec!["\x1b[1m\x1b[1m안\x1b[0m", "\x1b[1m녕"]
    );
}

#[test]
fn control_sequences_end_with_a_letter() {
    assert_eq!(
        wrap("\x1b[2Aabc def", 3, "", ""),
        vec!["\x1b[2Aabc", " ", "def"]
    );
    assert_eq!(wrap("ab\x1b[1;2~Zcd ef", 4, "", ""), vec!["ab\x1b[1;2~Zcd", " ef"]);
}

// Splitting

#[test]
fn split_gives_head_and_tail() {
    assert_eq!(split("hello", 3), pair("hel", "lo"));
    assert_eq!(split("hello", 5), pair("hello", ""));
    assert_eq!(split("", 5), pair("", ""));
    assert_eq!(split("가나다", 3), pair("가", "나다"));
    assert_eq!(split("가나다", 1), pair("", "가나다"));
}

#[test]
fn split_keeps_escape_sequences_whole() {
    assert_eq!(
        split("\x1b[1mabc\x1b[0mdef", 3),
        pair("\x1b[1mabc\x1b[0m", "def")
    );
    assert_eq!(split("ab\x1b[1mcd", 1), pair("a", "b\x1b[1mcd"));
    assert_eq!(split("\x1b[2Aab", 1), pair("\x1b[2Aa", "b"));
    assert_eq!(split("a\x1b]0;t\x07bc", 2), pair("a\x1b]0;t\x07b", "c"));
}

#[test]
fn widths_that_fit_are_counted() {
    assert_eq!(count_fitting(&vec![1, 1, 2], 3), 2);
    assert_eq!(count_fitting(&vec![2, 0, 0, 1], 2), 3);
    assert_eq!(count_fitting(&vec![2], 1), 0);
    assert_eq!(count_fitting(&vec![], 1), 0);
}

#[test]
fn chunks_hold_at_least_one_character() {
    assert_eq!(count_chunk(&vec![1, 1, 2], 3), (2, false));
    assert_eq!(count_chunk(&vec![3, 0, 1], 2), (2, true));
    assert_eq!(count_chunk(&vec![0, 3], 2), (2, true));
    assert_eq!(count_chunk(&vec![0, 2], 2), (2, false));
    assert_eq!(count_chunk(&vec![], 2), (0, false));
    let chunk = |word: &str, width: usize| split_chunk(word, width);
    assert_eq!(chunk("abc", 2), ("ab".to_string(), "c".to_string(), false));
    assert_eq!(chunk("안녕", 1), ("안".to_string(), "녕".to_string(), true));
}

// Measuring

#[test]
fn characters_have_columns() {
    assert_eq!(columns_of('a'), 1);
    assert_eq!(columns_of('가'), 2);
    assert_eq!(columns_of('\n'), 0);
    assert_eq!(columns_of('\u{17d8}'), 3);
    assert_eq!(columns_of('\u{301}'), 0);
}

#[test]
fn no_character_is_wider_than_three_columns() {
    assert!(('\0'..=char::MAX).all(|c| columns_of(c) <= 3));
}

#[test]
fn whitespace_is_what_it_is_everywhere() {
    assert!(('\0'..=char::MAX).all(|c| is_white_space(c) == c.is_whitespace()));
}

#[test]
fn units_end_where_they_should() {
    let end = |text: &str| unit_end(&text.chars().collect::<Vec<char>>(), 0);
    assert_eq!(end("ab"), 1);
    assert_eq!(end("\x1b"), 1);
    assert_eq!(end("\x1b)x"), 2);
    assert_eq!(end("\x1b[31mx"), 5);
    assert_eq!(end("\x1b[2Jx"), 4);
    assert_eq!(end("\x1b[2Kx"), 4);
    assert_eq!(end("\x1b[2Ax"), 4);
    assert_eq!(end("\x1b[?25lx"), 6);
    assert_eq!(end("\x1b[1;1Hx"), 6);
    assert_eq!(end("\x1b]0;t\x07x"), 6);
    assert_eq!(end("\x1b]0;t\x1b\\x"), 7);
    assert_eq!(end("\x1b]0;t\\x"), 7);
    assert_eq!(end("\x1b[12"), 4);
}

// Step by step

#[test]
fn layout_takes_widths_as_they_come() {
    let mut layout = Layout::new();
    layout.glyph('x', 4);
    layout.end_word(1, 6);
    layout.place(' ', 1, 5, 6);
    layout.glyph('y', 2);
    layout.end_word(1, 6);
    layout.place(' ', 1, 3, 6);
    layout.escape("\x1b[1m");
    layout.glyph('z', 9);
    layout.begin_cut();
    layout.chunk("\x1b[1m", "z".to_string());
    layout.end_cut(1);
    layout.push_row();
    assert_eq!(
        layout.finish(6),
        vec![
            "x ",
            "y \x1b[0m",
            "\x1b[1m\x1b[1m\x1b[0m",
            "\x1b[1mz\x1b[0m",
            "\x1b[1m"
        ]
    );
}

#[test]
fn layout_places_whitespace_as_it_is_counted_or_seen() {
    let rows = |c_width: usize, seen: usize| {
        let mut layout = Layout::new();
        layout.glyph('x', 4);
        layout.end_word(c_width, 4);
        layout.place(' ', c_width, seen, 4);
        layout.finish(4)
    };
    assert_eq!(rows(1, 5), vec!["x", " "]);
    assert_eq!(rows(1, 4), vec!["x "]);
    assert_eq!(rows(0, 5), vec!["x "]);
}

#[test]
fn layout_cuts_a_word_that_grows_too_wide() {
    let mut layout = Layout::new();
    layout.word_character('a', 2);
    layout.word_character('b', 2);
    layout.word_character('c', 2);
    assert_eq!(layout.finish(2), vec!["ab", "c"]);
}
