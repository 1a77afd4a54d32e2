//! The pieces of a preview on concrete values.

use search_preview::context::{
    build_context_segments, build_context_segments_from_ranges, build_literal_context_segments,
};
use search_preview::context_spec::{
    dedupe_context_specs, find_all_spec_hits, ContextMatchSpec, TermHit,
};
use search_preview::evidence::select_hidden_context_ranges;
use search_preview::highlight::HighlightQuery;
use search_preview::literal::{eq_ignore_ascii_case, match_literal_ranges, Literal};
use search_preview::normalize::{
    find_normalized_match_ranges, normalize_for_search, normalize_highlight_query, NormalizedText,
};
use search_preview::query::ParsedQuery;
use search_preview::ranges::merge_match_ranges;
use search_preview::sanitize::sanitize_preview;
use search_preview::segments::{
    build_match_segments, build_match_segments_for_query, build_match_segments_with_ranges,
    truncate_around_match,
};
use search_preview::sorting::merge_sort;
use search_preview::text::{char_len_utf8, chars_of, string_of, IndexedText};
use search_preview::truncate::{simple_truncate, truncate_start};
use search_preview::words::{is_whitespace, join_with_spaces, split_whitespace, trimmed};

fn texts(list: &[Literal]) -> Vec<&str> {
    list.iter().map(|l| l.text()).collect()
}

// --- characters and words ---

#[test]
fn whitespace_is_what_unicode_calls_white_space() {
    for c in '\0'..=char::MAX {
        assert_eq!(is_whitespace(c), c.is_whitespace(), "{c:?}");
    }
}

#[test]
fn characters_take_as_many_bytes_as_in_utf8() {
    for c in '\0'..=char::MAX {
        assert_eq!(char_len_utf8(c), c.len_utf8(), "{c:?}");
    }
}

#[test]
fn offsets_and_indices_of_a_text() {
    let text = IndexedText::new("aé…b");
    assert_eq!((text.len(), text.byte_len()), (4, 7));
    assert_eq!((text.offset(0), text.offset(2), text.offset(4)), (0, 3, 7));
    assert_eq!(text.char_index(0), 0);
    assert_eq!(text.char_index(1), 1);
    assert_eq!(text.char_index(2), 2);
    assert_eq!(text.char_index(3), 2);
    assert_eq!(text.char_index(7), 4);
    assert_eq!(text.char_index(100), 4);
    assert_eq!(text.char_at(1), 'é');
    assert_eq!(text.substring(1, 3), "é…");
}

#[test]
fn characters_of_a_text_and_back() {
    let chars = chars_of("né…");
    assert_eq!(chars, vec!['n', 'é', '…']);
    assert_eq!(string_of(&chars, 0, 2), "né");
}

#[test]
fn words_are_split_joined_and_split_again() {
    let list = split_whitespace("  a\u{3000}bc\t\n d ");
    assert_eq!(list, vec!["a", "bc", "d"]);
    let joined = join_with_spaces(&list);
    assert_eq!(joined, "a bc d");
    assert_eq!(split_whitespace(&joined), list);
    assert_eq!(split_whitespace(" \n"), Vec::<String>::new());
}

#[test]
fn trimming_takes_whitespace_off_both_ends() {
    assert_eq!(trimmed(&chars_of("\u{a0} a b\u{2003}")), "a b");
    assert_eq!(trimmed(&chars_of(" \t")), "");
}

// --- ranges ---

#[test]
fn sorting_keeps_values_and_orders_them() {
    let v: Vec<(usize, usize)> = vec![(3, 1), (0, 5), (3, 0), (0, 2), (0, 5)];
    assert_eq!(merge_sort(&v), vec![(0, 2), (0, 5), (0, 5), (3, 0), (3, 1)]);
}

#[test]
fn merged_ranges_are_the_union() {
    let merged = merge_match_ranges(vec![(5, 7), (0, 2), (2, 3), (6, 9), (4, 4)]);
    assert_eq!(merged, vec![(0, 3), (5, 9)]);
    assert_eq!(merge_match_ranges(merged.clone()), merged);
    assert_eq!(merge_match_ranges(vec![(6, 9), (1, 3), (0, 2), (5, 6)]), merged);
    assert_eq!(merge_match_ranges(vec![(3, 3), (5, 2)]), vec![]);
}

// --- normalized matching ---

#[test]
fn matching_ignores_case() {
    assert_eq!(find_normalized_match_ranges("RED Fox", "red"), vec![(0, 3)]);
    assert_eq!(find_normalized_match_ranges("ÉTÉ", "été"), vec![(0, 5)]);
}

#[test]
fn ascii_is_folded_to_lower_case() {
    for c in '\0'..='\u{7f}' {
        let expected = if c == '_' { ' ' } else { c.to_ascii_lowercase() };
        assert_eq!(normalize_for_search(&c.to_string()), expected.to_string(), "{c:?}");
    }
}

#[test]
fn ascii_letters_and_digits_make_words() {
    for c in '\0'..='\u{7f}' {
        let found = !find_normalized_match_ranges(&format!("{c}x"), "x").is_empty();
        assert_eq!(found, !c.is_ascii_alphanumeric() || c == 'x' || c == 'X', "{c:?}");
    }
}

#[test]
fn the_order_and_number_of_words_do_not_matter() {
    let text = "run with the loader, Run_with";
    let ranges = find_normalized_match_ranges(text, "run with");
    assert_eq!(ranges, vec![(0, 8), (21, 29)]);
    assert_eq!(find_normalized_match_ranges(text, "with run with"), ranges);
}

#[test]
fn a_character_with_a_longer_lowercase_form_is_matched_whole() {
    // The lowercase form of 'İ' is an 'i' and a combining dot.
    assert_eq!(find_normalized_match_ranges("İx", "i"), vec![(0, 2)]);
    assert_eq!(find_normalized_match_ranges("İx", "x"), vec![(2, 3)]);
}

#[test]
fn a_letter_of_any_script_is_part_of_a_word() {
    assert_eq!(find_normalized_match_ranges("éred red", "red"), vec![(6, 9)]);
    assert_eq!(find_normalized_match_ranges("²red", "red"), vec![]);
    assert_eq!(find_normalized_match_ranges("→red", "red"), vec![(3, 6)]);
}

#[test]
fn a_term_of_punctuation_matches_anywhere() {
    assert_eq!(find_normalized_match_ranges("a->b", "->"), vec![(1, 3)]);
}

#[test]
fn hits_do_not_overlap() {
    assert_eq!(NormalizedText::new("....").find_term_ranges("..."), vec![(0, 3)]);
    assert_eq!(NormalizedText::new("abc").find_term_ranges(""), vec![]);
}

#[test]
fn separators_join_matches() {
    assert_eq!(find_normalized_match_ranges("red-team/blue", "red team blue"), vec![(0, 13)]);
    assert_eq!(find_normalized_match_ranges("run_with_loader", "run with loader"), vec![(0, 15)]);
    assert_eq!(find_normalized_match_ranges("red, team", "red team"), vec![(0, 3), (5, 9)]);
    assert_eq!(find_normalized_match_ranges("red", " \t"), vec![]);
}

#[test]
fn overlapping_matches_become_one() {
    assert_eq!(find_normalized_match_ranges("redaction", "red redact"), vec![(0, 6)]);
}

#[test]
fn byte_offsets_in_normalized_text() {
    let text = NormalizedText::new("aé_b");
    assert_eq!(text.byte_to_char_index(0), 0);
    assert_eq!(text.byte_to_char_index(1), 1);
    assert_eq!(text.byte_to_char_index(2), 2);
    assert_eq!(text.byte_to_char_index(4), 3);
    assert_eq!(text.byte_to_char_index(100), 4);
}

#[test]
fn queries_are_normalized() {
    assert_eq!(normalize_for_search("Foo_BAR  "), "foo bar  ");
    assert_eq!(normalize_highlight_query("  Foo_BAR \n baz "), "foo bar baz");
    assert_eq!(normalize_highlight_query(" _ "), "");
}

// --- truncation ---

#[test]
fn text_that_fits_is_kept() {
    assert_eq!(simple_truncate("hello", 5), "hello");
    assert_eq!(truncate_start("hello", 5), "hello");
    assert_eq!(simple_truncate("", 0), "");
}

#[test]
fn text_is_cut_at_its_end() {
    assert_eq!(simple_truncate("hello", 4), "hel…");
    assert_eq!(simple_truncate("hello", 1), "…");
    assert_eq!(simple_truncate("hello", 0), "");
}

#[test]
fn text_is_cut_at_its_start() {
    assert_eq!(truncate_start("hello", 4), "…llo");
    assert_eq!(truncate_start("hello", 1), "…");
    assert_eq!(truncate_start("hello", 0), "");
}

#[test]
fn wide_characters_take_two_columns() {
    assert_eq!(simple_truncate("日本語", 6), "日本語");
    assert_eq!(simple_truncate("日本語", 5), "日本…");
    assert_eq!(simple_truncate("日本語", 4), "日…");
    assert_eq!(simple_truncate("日本語", 2), "…");
    assert_eq!(truncate_start("日本語", 5), "…本語");
    assert_eq!(truncate_start("日本語", 4), "…語");
}

#[test]
fn marks_and_control_characters_take_no_column_of_their_own() {
    // A combining accent has no width, and a control character is counted with none.
    assert_eq!(simple_truncate("e\u{301}abc", 3), "e\u{301}a…");
    assert_eq!(simple_truncate("\u{7}\u{7}abcde", 4), "\u{7}\u{7}abc…");
    assert_eq!(truncate_start("abcde\u{7}\u{7}", 4), "…cde\u{7}\u{7}");
}

// --- sanitizing ---

#[test]
fn tags_and_runs_of_whitespace_are_removed() {
    assert_eq!(sanitize_preview("a <b>bold</b>\n\n\ttext "), "a bold text");
    assert_eq!(sanitize_preview("a< b >c"), "ac");
    assert_eq!(sanitize_preview("x > y < z"), "x y");
    assert_eq!(sanitize_preview("a \r\n<i> </i> b"), "a b");
    assert_eq!(sanitize_preview("\u{a0}a\u{a0}b\u{a0}"), "a\u{a0}b");
}

#[test]
fn sanitizing_twice_changes_nothing() {
    for text in ["a <b> c\t\td", "  ", "<<x>> y", "né\u{2003}é \n"] {
        let once = sanitize_preview(text);
        assert_eq!(sanitize_preview(&once), once);
    }
}

// --- match lines ---

#[test]
fn a_match_is_shown_with_its_context() {
    let text = "0123456789 foo 0123456789";
    assert_eq!(build_match_segments(text, "foo", 11), "…89 foo 01…");
    assert_eq!(build_match_segments(text, "foo", 15), "0123456789 foo…");
}

#[test]
fn distant_matches_get_a_segment_each() {
    let text = format!("foo{}bar", ".".repeat(30));
    assert_eq!(build_match_segments(&text, "foo bar", 20), "foo..…..bar");
}

#[test]
fn matches_twenty_characters_apart_belong_together() {
    let near = format!("foo{}bar", ".".repeat(20));
    assert_eq!(build_match_segments(&near, "foo bar", 10), "foo...…");
    let far = format!("foo{}bar", ".".repeat(21));
    assert_eq!(build_match_segments(&far, "foo bar", 10), "foo…bar");
}

#[test]
fn groups_that_fit_with_their_ellipses_give_a_line() {
    // Six characters in two groups, and three ellipses at most.
    let text = format!("foo{}bar{}", ".".repeat(30), ".".repeat(30));
    let ranges = vec![(0, 3), (33, 36)];
    assert_eq!(
        build_match_segments_with_ranges(&text, ranges.clone(), 9),
        Some("foo…bar…".to_string())
    );
    assert_eq!(build_match_segments_with_ranges(&text, ranges, 7), None);
    let inside = format!("...{text}");
    assert_eq!(
        build_match_segments_with_ranges(&inside, vec![(3, 6), (36, 39)], 9),
        Some("…foo…bar…".to_string())
    );
}

#[test]
fn only_three_groups_are_shown() {
    let text = format!("kk{}", ".".repeat(25)).repeat(4);
    assert_eq!(build_match_segments(&text, "kk", 30), "kk...…...kk...…...kk...…");
}

#[test]
fn a_match_as_wide_as_the_line_stands_alone() {
    assert_eq!(build_match_segments("aa foo bb", "foo", 3), "foo");
    assert_eq!(build_match_segments("aa foo bb", "foo", 2), "f…");
    assert_eq!(truncate_around_match("aa foo bb", "foo", 0), "");
    assert_eq!(truncate_around_match("aa foo bb", "bar", 4), "aa …");
}

#[test]
fn a_match_whose_ellipses_do_not_fit_stands_alone() {
    assert_eq!(build_match_segments("aa foo bb", "foo", 4), "foo");
    assert_eq!(build_match_segments("aaaa red bbbb", "red", 4), "red");
    assert_eq!(build_match_segments("aa foo bb", "foo", 5), "…foo…");
    assert_eq!(build_match_segments("aa foo", "foo", 4), "…foo");
    assert_eq!(build_match_segments("foo bb", "foo", 4), "foo…");
}

#[test]
fn no_line_is_wider_than_asked() {
    let text = "aaaa red bbbb and more red to the right, red";
    for width in 0..50 {
        for query in ["red", "aaaa more", "bbbb", "right red", "none", ""] {
            let line = build_match_segments(text, query, width);
            assert!(line.chars().count() <= width, "{query} at {width}: {line}");
            let parsed = HighlightQuery::parse(query);
            let line = build_match_segments_for_query(text, &parsed, width);
            assert!(line.chars().count() <= width, "{query} at {width}: {line}");
        }
    }
}

#[test]
fn a_text_that_fits_is_shown_whole() {
    assert_eq!(build_match_segments("abc red", "red", 7), "abc red");
    assert_eq!(build_match_segments("日本 red", "red", 8), "日本 red");
    assert_eq!(build_match_segments("abc red", "red", 6), "…red");
    let query = HighlightQuery::parse("red");
    assert_eq!(build_match_segments_for_query("abc red", &query, 7), "abc red");
    assert_eq!(
        build_match_segments_with_ranges("abc red", vec![(4, 7)], 7),
        Some("abc red".to_string())
    );
}

#[test]
fn context_is_shared_between_the_sides_of_a_match() {
    assert_eq!(truncate_around_match("日本 foo 日本", "foo", 10), "… foo 日…");
}

#[test]
fn segments_of_a_parsed_query_fall_back_to_the_start() {
    let query = HighlightQuery::parse("\"foo\"");
    assert_eq!(build_match_segments_for_query("aa foo bb", &query, 4), "aa …");
    assert_eq!(build_match_segments_for_query("aa foo bb", &query, 5), "…foo…");
    assert_eq!(build_match_segments_for_query("aa bar bb", &query, 4), "aa …");
}

#[test]
fn segments_that_are_too_wide_are_none() {
    assert_eq!(build_match_segments_with_ranges("aa foo bb", vec![(3, 6)], 4), None);
    assert_eq!(
        build_match_segments_with_ranges("aa foo bb", vec![], 4),
        Some("aa …".to_string())
    );
    assert_eq!(
        build_match_segments_with_ranges("aa foo bb", vec![(5, 3)], 6),
        Some("aa fo…".to_string())
    );
    assert_eq!(
        build_match_segments_with_ranges("日 foo 日", vec![(4, 7)], 5),
        Some("…foo…".to_string())
    );
}

// --- literals and queries ---

#[test]
fn literals_match_but_for_the_case_of_ascii_letters() {
    let literal = Literal::new("Ab".to_string());
    assert_eq!(literal.match_ranges("xABab AB"), vec![(1, 3), (3, 5), (6, 8)]);
    assert!(literal.matches("cab"));
    assert!(!literal.matches("a b"));
    assert_eq!(Literal::new("aB".to_string()).match_ranges("xABab AB"), literal.match_ranges("xABab AB"));
    assert!(!Literal::new("É".to_string()).matches("é"));
    assert!(!Literal::new(String::new()).matches("a"));
}

#[test]
fn ranges_of_several_literals() {
    let literals = vec![Literal::new("b".to_string()), Literal::new("a_".to_string())];
    assert_eq!(match_literal_ranges("a_b", &literals), vec![(2, 3), (0, 2)]);
}

#[test]
fn texts_compared_ignoring_ascii_case() {
    assert!(eq_ignore_ascii_case("Alpha-1", "aLPHA-1"));
    assert!(!eq_ignore_ascii_case("É", "é"));
    assert!(!eq_ignore_ascii_case("ab", "abc"));
    assert!(!eq_ignore_ascii_case("[", "{"));
}

#[test]
fn quoted_parts_of_a_query() {
    let parsed = ParsedQuery::parse("foo \"bar baz\" qux \"x\"");
    assert_eq!(split_whitespace(parsed.unquoted()), vec!["foo", "qux"]);
    assert_eq!(texts(parsed.literals()), vec!["bar baz", "x"]);

    let open = ParsedQuery::parse("a \"b");
    assert_eq!(split_whitespace(open.unquoted()), vec!["a", "b"]);
    assert!(open.literals().is_empty());

    let plain = ParsedQuery::parse("foo bar");
    assert_eq!(plain.unquoted(), "foo bar");
    assert!(ParsedQuery::parse("\"\"").literals().is_empty());
}

#[test]
fn words_with_an_underscore_are_literals() {
    let query = HighlightQuery::parse("Foo my_var \"Exact Text\" bar");
    assert_eq!(query.unquoted, "foo bar");
    assert_eq!(texts(&query.literals), vec!["Exact Text", "my_var"]);
    assert_eq!(query.context_text(), "foo bar exact text my var");
}

#[test]
fn an_empty_query_matches_nothing() {
    let query = HighlightQuery::default();
    assert_eq!(query.unquoted, "");
    assert!(query.literals.is_empty());
    assert!(!query.has_match("anything"));
    assert!(!query.needs_literal_context("anything"));
    assert_eq!(query.match_ranges("anything"), vec![]);
}

#[test]
fn a_query_matches_where_it_has_ranges() {
    let query = HighlightQuery::parse("foo my_var");
    assert_eq!(query.match_ranges("foo and MY_VAR"), vec![(0, 3), (8, 14)]);
    assert_eq!(query.match_ranges("my var"), vec![]);
    assert!(query.has_match("foo"));
    assert!(query.has_match("my_var"));
    assert!(!query.has_match("my var"));
    assert!(query.has_literal_match("my_var"));
    assert!(!query.has_literal_match("foo"));
    assert!(query.needs_literal_context("foo"));
    assert!(!query.needs_literal_context("my_var"));
}

#[test]
fn words_and_literals_are_merged() {
    let query = HighlightQuery::parse("foo \"oo b\"");
    assert_eq!(query.match_ranges("foo bar"), vec![(0, 5)]);
}

// --- terms and hits ---

#[test]
fn repeated_terms_are_dropped() {
    let specs = vec![
        ContextMatchSpec::Normalized("a".to_string()),
        ContextMatchSpec::Normalized("A".to_string()),
        ContextMatchSpec::Literal(Literal::new("A".to_string())),
        ContextMatchSpec::Literal(Literal::new("a".to_string())),
        ContextMatchSpec::Normalized("b".to_string()),
    ];
    let kept = dedupe_context_specs(&specs);
    let keys: Vec<(&str, bool)> = kept.iter().map(|s| s.key()).collect();
    assert_eq!(keys, vec![("a", false), ("A", true), ("b", false)]);
    assert_eq!(dedupe_context_specs(&kept).len(), 3);
}

#[test]
fn no_more_than_sixty_four_terms_are_kept() {
    let specs: Vec<ContextMatchSpec> =
        (0..70).map(|i| ContextMatchSpec::Normalized(format!("t{i}"))).collect();
    let kept = dedupe_context_specs(&specs);
    assert_eq!(kept.len(), 64);
    assert_eq!(kept[63].key(), ("t63", false));
}

#[test]
fn hits_come_in_the_order_of_the_text() {
    let specs = vec![
        ContextMatchSpec::Normalized("beta".to_string()),
        ContextMatchSpec::Literal(Literal::new("a".to_string())),
    ];
    let text = "alpha Beta";
    let expected = vec![(0, 1, 1), (4, 5, 1), (6, 10, 0), (9, 10, 1)];
    for normalized in [None, Some(&NormalizedText::new(text))] {
        let hits = find_all_spec_hits(text, &specs, normalized);
        let found: Vec<(usize, usize, usize)> =
            hits.iter().map(|h| (h.start, h.end, h.term_idx)).collect();
        assert_eq!(found, expected);
    }
}

fn hit(start: usize, end: usize, term_idx: usize) -> TermHit {
    TermHit { start, end, term_idx }
}

#[test]
fn nothing_is_selected_without_a_missing_term() {
    assert_eq!(select_hidden_context_ranges("ab", &vec![], 0, 0), None);
    assert_eq!(select_hidden_context_ranges("ab", &vec![hit(0, 1, 0)], 0b10, 1), None);
    assert_eq!(
        select_hidden_context_ranges("ab", &vec![hit(0, 1, 1)], 0b10, 1),
        Some(vec![(0, 1)])
    );
}

#[test]
fn the_ranking_of_clusters() {
    let gap = ".".repeat(60);
    let select = |first: &str, hits: &[TermHit], mask: u64, count: u32| {
        let text = format!("{first}{gap}a b");
        let mut all = hits.to_vec();
        let start = first.len() + gap.len();
        all.push(hit(start, start + 1, 0));
        all.push(hit(start + 2, start + 3, 1));
        select_hidden_context_ranges(&text, &all, mask, count)
    };
    let second = |first: &str| {
        let start = first.len() + 60;
        Some(vec![(start, start + 3)])
    };
    // More missing terms come first.
    assert_eq!(select("a", &[hit(0, 1, 0)], 0b11, 2), second("a"));
    // Then more adjacent pairs.
    assert_eq!(select("a x b", &[hit(0, 1, 0), hit(4, 5, 1)], 0b11, 2), second("a x b"));
    assert_eq!(select("b a", &[hit(0, 1, 1), hit(2, 3, 0)], 0b11, 2), second("b a"));
    // Then more terms.
    assert_eq!(
        select("a b c", &[hit(0, 1, 0), hit(2, 3, 1), hit(4, 5, 3)], 0b11, 2),
        Some(vec![(0, 5)])
    );
    // Then the tighter span.
    assert_eq!(select("a  b", &[hit(0, 1, 0), hit(3, 4, 1)], 0b11, 2), second("a  b"));
    // Then the earlier place.
    assert_eq!(select("a b", &[hit(0, 1, 0), hit(2, 3, 1)], 0b11, 2), Some(vec![(0, 3)]));
}

#[test]
fn only_letters_and_numbers_keep_terms_apart() {
    let gap = ".".repeat(60);
    for (between, adjacent) in
        [("_", true), ("** -", true), ("\n", true), ("A", false), ("7", false), ("é", false)]
    {
        // The first cluster is tighter unless its terms are apart.
        let text = format!("a{between}b{gap}a{}b", " ".repeat(between.len() + 1));
        let end = between.len() + 2;
        let second = end + gap.len();
        let hits = vec![
            hit(0, 1, 0),
            hit(end - 1, end, 1),
            hit(second, second + 1, 0),
            hit(text.len() - 1, text.len(), 1),
        ];
        let expected = if adjacent { (0, end) } else { (second, text.len()) };
        assert_eq!(
            select_hidden_context_ranges(&text, &hits, 0b11, 2),
            Some(vec![expected]),
            "{between:?}"
        );
    }
}

#[test]
fn hits_fifty_bytes_apart_belong_together() {
    let text = format!("a{}b", ".".repeat(60));
    let near = vec![hit(0, 1, 0), hit(51, 52, 1)];
    let far = vec![hit(0, 1, 0), hit(52, 53, 1)];
    assert_eq!(select_hidden_context_ranges(&text, &near, 0b10, 1), Some(vec![(0, 52)]));
    assert_eq!(select_hidden_context_ranges(&text, &far, 0b10, 1), Some(vec![(52, 53)]));
}

// --- context lines ---

#[test]
fn no_matches_or_no_width_give_no_context() {
    assert_eq!(build_context_segments_from_ranges("foo", &[], 10), None);
    assert_eq!(build_context_segments_from_ranges("foo", &[(0, 3)], 0), None);
    assert_eq!(build_context_segments_from_ranges("<b></b>", &[(0, 7)], 10), None);
}

#[test]
fn the_window_around_a_hidden_match() {
    let text = "0123456789 foo 0123456789";
    assert_eq!(
        build_context_segments_from_ranges(text, &[(11, 14)], 20),
        Some("…456789 foo 01234…".to_string())
    );
    assert_eq!(
        build_context_segments_from_ranges("foo bar", &[(0, 3)], 20),
        Some("foo bar…".to_string())
    );
    assert_eq!(
        build_context_segments_from_ranges("aa foo", &[(3, 6)], 20),
        Some("aa foo".to_string())
    );
}

#[test]
fn a_match_with_two_columns_beside_it_is_not_cut() {
    assert_eq!(
        build_context_segments_from_ranges("aaaa foo bbbb", &[(5, 8)], 5),
        Some("…foo…".to_string())
    );
    assert_eq!(
        build_context_segments_from_ranges("aaaa-foo-bbbb", &[(5, 8)], 5),
        Some("…-foo".to_string())
    );
    assert_eq!(
        build_context_segments_from_ranges("aaaa-foo-bbbb", &[(5, 8)], 4),
        Some("…-f…".to_string())
    );
}

#[test]
fn the_windows_around_two_hidden_matches() {
    assert_eq!(
        build_context_segments_from_ranges("aa foo bb bar cc", &[(3, 6), (10, 13)], 20),
        Some("…a foo…b bar…".to_string())
    );
    // A window that overlaps the one before it goes on where that one ended.
    assert_eq!(
        build_context_segments_from_ranges("foo bar", &[(0, 3), (4, 7)], 40),
        Some("foo bar".to_string())
    );
}

#[test]
fn a_match_inside_the_one_before_it_goes_on_from_its_window() {
    let text = "0123456789".repeat(6);
    assert_eq!(
        build_context_segments_from_ranges(&text, &[(0, 10), (8, 9)], 40),
        Some("0123456789012345…".to_string())
    );
}

#[test]
fn a_long_match_is_cut() {
    assert_eq!(
        build_context_segments_from_ranges("foo bar baz qux", &[(0, 15)], 5),
        Some("foo …".to_string())
    );
}

#[test]
fn windows_are_cleaned() {
    assert_eq!(
        build_context_segments_from_ranges("x\n\n<b>foo</b>\ty", &[(6, 9)], 40),
        Some("x foo y…".to_string())
    );
}

#[test]
fn a_preview_of_the_whole_text_needs_no_context() {
    let text = "alpha and beta and alpha";
    for query in ["alpha", "alpha beta", "alpha gamma", "gamma"] {
        assert_eq!(build_context_segments(text, text, query, 40), None);
    }
}

#[test]
fn hits_beyond_those_of_the_preview_are_shown() {
    assert_eq!(
        build_context_segments("foo and foo", "foo", "foo", 40),
        Some("foo and foo".to_string())
    );
    assert_eq!(build_context_segments("foo and bar", "foo", "foo", 40), None);
    assert_eq!(build_context_segments("foo and foo", "foo", "foo", 0), None);
}

#[test]
fn a_missing_term_is_shown() {
    let text = format!("alpha {} beta end", "x ".repeat(60));
    let line = build_context_segments(&text, "alpha", "alpha beta", 16);
    assert_eq!(line, Some("…x x beta end…".to_string()));
    assert_eq!(build_context_segments(&text, "alpha", "alpha gamma", 16), None);
}

#[test]
fn a_term_repeated_in_another_case_changes_nothing() {
    let text = "alpha and later beta the end";
    assert_eq!(
        build_context_segments(text, "preview", "alpha ALPHA beta", 80),
        build_context_segments(text, "preview", "alpha beta", 80)
    );
}

#[test]
fn only_literals_ask_for_literal_context() {
    let query = HighlightQuery::parse("alpha \"exact-text\"");
    assert_eq!(
        build_literal_context_segments("alpha and EXACT-text", "alpha", &query, 80),
        Some("alpha and EXACT-text".to_string())
    );
    assert_eq!(build_literal_context_segments("alpha alpha", "none", &query, 80), None);
    let words = HighlightQuery::parse("alpha");
    assert_eq!(build_literal_context_segments("alpha", "none", &words, 80), None);
}
