//! Matches, match lines and context lines on concrete texts.

use search_preview::context::{build_context_segments, build_context_segments_for_query};
use search_preview::highlight::HighlightQuery;
use search_preview::normalize::find_normalized_match_ranges;
use search_preview::segments::build_match_segments;
use search_preview::truncate::simple_truncate;

#[test]
fn find_normalized_ranges_phrase() {
    let text = "hello red team world";
    let ranges = find_normalized_match_ranges(text, "red team");
    // Adjacent words separated by space merge into one range
    assert_eq!(ranges.len(), 1);
    assert_eq!(&text[ranges[0].0..ranges[0].1], "red team");
}

#[test]
fn find_normalized_ranges_prefix_match() {
    // "red" matches at start of "redaction" (prefix), "team" has no match
    let ranges = find_normalized_match_ranges("Extend log redaction to cover", "red team");
    assert_eq!(ranges.len(), 1);
    assert_eq!(
        &"Extend log redaction to cover"[ranges[0].0..ranges[0].1],
        "red"
    );
}

#[test]
fn find_normalized_ranges_underscore() {
    let text = "set red_team flag";
    let ranges = find_normalized_match_ranges(text, "red team");
    // Adjacent words separated by underscore merge into one range
    assert_eq!(ranges.len(), 1);
    assert_eq!(&text[ranges[0].0..ranges[0].1], "red_team");
}

// --- build_match_segments tests ---

#[test]
fn match_segments_no_query() {
    let text = "hello world this is a long text";
    let result = build_match_segments(text, "", 20);
    assert_eq!(result, simple_truncate(text, 20));
}

#[test]
fn match_segments_no_matches() {
    let text = "hello world this is a long text";
    let result = build_match_segments(text, "xyz", 20);
    assert_eq!(result, simple_truncate(text, 20));
}

#[test]
fn match_segments_all_fit() {
    // All matches within max_width, should use simple truncation
    let text = "foo bar baz and more text";
    let result = build_match_segments(text, "foo", 30);
    assert_eq!(result, text);
}

#[test]
fn match_segments_distant_matches() {
    // Two matches far apart — should produce segmented output with "…"
    let text = "start secrets aaa bbb ccc ddd eee fff ggg hhh iii jjj kkk lll mmm nnn ooo ppp plot end";
    let result = build_match_segments(text, "secrets plot", 40);
    assert!(result.contains("secrets"));
    assert!(result.contains("plot"));
    assert!(result.contains("…"));
    assert!(result.chars().count() <= 40);
}

#[test]
fn match_segments_close_matches_merged() {
    // Two matches close together — should be one segment
    let text =
        "aaa bbb ccc ddd eee fff ggg hhh iii jjj kkk lll secrets and plot end more text here";
    let result = build_match_segments(text, "secrets plot", 50);
    assert!(result.contains("secrets"));
    assert!(result.contains("plot"));
}

// --- build_context_segments tests ---

#[test]
fn context_segments_none_when_all_visible() {
    let full_text = "red team exercise";
    let preview = "red team exercise";
    let result = build_context_segments(full_text, preview, "red team", 80);
    assert!(result.is_none());
}

#[test]
fn context_segments_one_hidden_match() {
    let full_text = "redaction stuff here and then red team exercise later";
    let preview = "redaction stuff here and then";
    let result = build_context_segments(full_text, preview, "red team", 80);
    assert!(result.is_some());
    let ctx = result.unwrap();
    // Should contain "red" and/or "team" from the hidden match area
    assert!(ctx.contains("red") || ctx.contains("team"));
    assert!(ctx.contains("…"));
}

#[test]
fn context_segments_multiword_hidden() {
    let full_text = "I want secrets from the vault, and later write me a plot twist";
    let preview = "I want secrets from the";
    // Preview has "secrets", hidden has "plot" — context should prioritize "plot"
    let result = build_context_segments(full_text, preview, "secrets plot", 80);
    assert!(result.is_some());
    let ctx = result.unwrap();
    assert!(ctx.contains("plot"));
}

#[test]
fn context_segments_prioritizes_missing_terms() {
    // "secrets" appears many times but "plot" only once deep in text.
    // Preview shows "secrets" — context should show "plot", not more "secrets".
    let full_text = "secrets here and secrets there and secrets everywhere and finally a plot twist at the end";
    let preview = "secrets here and secrets there";
    let result = build_context_segments(full_text, preview, "secrets plot", 80);
    assert!(result.is_some());
    let ctx = result.unwrap();
    assert!(
        ctx.contains("plot"),
        "context should contain 'plot' but was: {ctx}"
    );
}

#[test]
fn context_segments_empty_query() {
    let result = build_context_segments("some text", "some", "", 80);
    assert!(result.is_none());
}

#[test]
fn context_segments_prefers_adjacent_phrase_over_distant_terms() {
    // "audio" and "generation" each appear early in unrelated boilerplate,
    // and the literal phrase "audio generation" appears much later. The
    // snippet must surface the phrase, not the early independent hits.
    let mut full_text = String::new();
    full_text.push_str("Card generation is supported. -field:Audio is a filter. ");
    full_text.push_str(&"junk ".repeat(20));
    full_text
        .push_str("First-class audio generation (OpenAI TTS) and image support is missing. ");
    full_text.push_str(&"junk ".repeat(20));
    let preview = "Some unrelated preview line about deck workflow";
    let result = build_context_segments(&full_text, preview, "audio generation", 120);
    assert!(result.is_some());
    let ctx = result.unwrap();
    assert!(
        ctx.contains("audio generation"),
        "context should contain the literal phrase 'audio generation', got: {ctx}"
    );
}

#[test]
fn context_segments_phrase_inside_markdown_bold() {
    // The phrase appears inside `**...**` (markdown bold). Adjacency must
    // still be detected — markdown punctuation is a word boundary.
    let mut full_text = String::new();
    full_text.push_str("audio is mentioned. generation is mentioned separately. ");
    full_text.push_str(&"x ".repeat(30));
    full_text.push_str("**Audio generation** is the actual recommendation here.");
    let preview = "boring preview text";
    let result = build_context_segments(&full_text, preview, "audio generation", 120);
    assert!(result.is_some());
    let ctx = result.unwrap();
    let lower = ctx.to_lowercase();
    assert!(
        lower.contains("audio generation"),
        "context should contain the phrase 'audio generation', got: {ctx}"
    );
}

#[test]
fn context_segments_skips_clusters_only_covering_visible_terms() {
    // "audio" is in the preview already. A standalone "audio" cluster
    // should not be selected — the snippet should surface "generation"
    // (the missing term), preferably alongside "audio" if a phrase exists.
    let full_text = "audio first. then later generation alone. and finally audio generation together at the end.";
    let preview = "audio first. then later";
    let result = build_context_segments(full_text, preview, "audio generation", 120);
    assert!(result.is_some());
    let ctx = result.unwrap();
    assert!(
        ctx.contains("generation"),
        "context should contain 'generation', got: {ctx}"
    );
}

#[test]
fn context_segments_distant_terms_dont_count_as_adjacent() {
    // Two clusters with the same unique_count, but only one has the
    // terms actually adjacent. The adjacent one must win.
    let mut full_text = String::new();
    // Cluster A: alpha and beta with junk between (within merge_gap=50
    // bytes but not adjacent — `aaaa` is alphanumeric in the gap).
    full_text.push_str("alpha aaaa bbbb cccc dddd beta ");
    full_text.push_str(&"x ".repeat(40));
    // Cluster B: literal phrase
    full_text.push_str("alpha beta together here");
    let preview = "boring preview line";
    let result = build_context_segments(&full_text, preview, "alpha beta", 100);
    assert!(result.is_some());
    let ctx = result.unwrap();
    assert!(
        ctx.contains("alpha beta together")
            || ctx.ends_with("here")
            || ctx.contains("beta together"),
        "expected the literal phrase cluster to be selected, got: {ctx}"
    );
}

#[test]
fn context_segments_dedupes_query_terms() {
    // Repeated query terms must not inflate uniqueness/adjacency math.
    let full_text = "alpha alpha and later beta the end";
    let preview = "preview only";
    let r1 = build_context_segments(full_text, preview, "alpha alpha beta", 80);
    let r2 = build_context_segments(full_text, preview, "alpha beta", 80);
    // Should produce the same context — duplicates are folded away.
    assert_eq!(r1, r2);
}

#[test]
fn context_segments_underscore_phrase_still_detected() {
    // Underscores normalize to spaces, so `audio_generation` should be
    // detected as the adjacent phrase `audio generation`.
    let mut full_text = String::new();
    full_text.push_str("audio early. generation early. ");
    full_text.push_str(&"x ".repeat(30));
    full_text.push_str("the relevant audio_generation pipeline lives here.");
    let preview = "preview only";
    let result = build_context_segments(&full_text, preview, "audio generation", 120);
    assert!(result.is_some());
    let ctx = result.unwrap();
    assert!(
        ctx.contains("audio_generation") || ctx.contains("audio generation"),
        "context should contain the adjacent occurrence, got: {ctx}"
    );
}

#[test]
fn context_query_quoted_literal_preserves_punctuation_contract() {
    let query = HighlightQuery::parse("\"audio_generation\"");
    let mut full_text = String::new();
    full_text.push_str("punctuation-stripped audio generation appears early. ");
    full_text.push_str(&"x ".repeat(30));
    full_text.push_str("the exact audio_generation literal appears here.");
    let preview = "preview only";

    let result = build_context_segments_for_query(&full_text, preview, &query, 120);

    assert!(result.is_some());
    let ctx = result.unwrap();
    assert!(ctx.contains("audio_generation"), "got: {ctx}");
    assert!(
        !ctx.contains("audio generation appears early"),
        "got: {ctx}"
    );
}

// --- word boundary tests ---

#[test]
fn word_boundary_rejects_mid_word() {
    // "red" should not match inside "fired" (not at word start)
    let ranges = find_normalized_match_ranges("fired and tired", "red");
    assert_eq!(ranges.len(), 0);
}

#[test]
fn word_boundary_allows_prefix() {
    // "red" matches at start of "redaction" (prefix matching)
    let ranges = find_normalized_match_ranges("redaction plan", "red");
    assert_eq!(ranges.len(), 1);
    assert_eq!(&"redaction plan"[ranges[0].0..ranges[0].1], "red");
}

#[test]
fn word_boundary_accepts_whole_word() {
    let ranges = find_normalized_match_ranges("the red fox", "red");
    assert_eq!(ranges.len(), 1);
    assert_eq!(&"the red fox"[ranges[0].0..ranges[0].1], "red");
}

#[test]
fn word_boundary_accepts_punctuation_adjacent() {
    // "red" after punctuation should match
    let ranges = find_normalized_match_ranges("it was (red) not blue", "red");
    assert_eq!(ranges.len(), 1);
}

#[test]
fn word_boundary_start_end_of_string() {
    let ranges = find_normalized_match_ranges("red", "red");
    assert_eq!(ranges.len(), 1);
    let ranges = find_normalized_match_ranges("red fox", "red");
    assert_eq!(ranges.len(), 1);
    let ranges = find_normalized_match_ranges("the red", "red");
    assert_eq!(ranges.len(), 1);
}
