use github_fetcher_mcp::models::LineRange;
use github_fetcher_mcp::window::{apply_content_limits, slice_lines};

#[test]
fn enforces_character_limit_without_splitting_codepoints() {
    let content = "héllo";
    let limited = apply_content_limits(content, None, Some(3));

    assert_eq!(limited, "hél");
}

#[test]
fn trims_to_requested_number_of_lines() {
    let content = "one\ntwo\nthree\nfour\n";
    let limited = apply_content_limits(content, Some(LineRange::End(2)), None);

    assert_eq!(limited, "one\ntwo\n");
}

#[test]
fn applies_both_limits_when_set() {
    let content = "1\n2\n3\n4";
    let limited = apply_content_limits(content, Some(LineRange::End(2)), Some(5));

    assert_eq!(limited, "1\n2\n");
}

#[test]
fn returns_empty_when_line_limit_is_zero() {
    let content = "content";
    let limited = apply_content_limits(content, Some(LineRange::End(0)), Some(10));

    assert_eq!(limited, "");
}

#[test]
fn trims_to_line_range() {
    let content = "a\nb\nc\nd\n";
    let limited = apply_content_limits(content, Some(LineRange::Range { start: 2, end: 3 }), None);

    assert_eq!(limited, "b\nc\n");
}

#[test]
fn returns_text_unchanged_without_limits() {
    let content = "alpha\nbeta\n";
    assert_eq!(apply_content_limits(content, None, None), content);
}

#[test]
fn open_ended_range_keeps_lines_to_the_end() {
    let content = "a\nb\nc\n";
    let limited = apply_content_limits(content, Some(LineRange::Start(2)), None);
    assert_eq!(limited, "b\nc\n");
}

#[test]
fn keeps_a_final_line_without_terminator() {
    let content = "a\nb\nc";
    let limited = apply_content_limits(content, Some(LineRange::Range { start: 2, end: 9 }), None);
    assert_eq!(limited, "b\nc");
}

#[test]
fn empty_results_for_degenerate_ranges() {
    assert_eq!(slice_lines("a\nb\n", 0, 3), "");
    assert_eq!(slice_lines("a\nb\n", 2, 1), "");
    assert_eq!(slice_lines("a\nb\n", 5, 9), "");
    assert_eq!(
        apply_content_limits("anything", Some(LineRange::Range { start: 0, end: 4 }), None),
        ""
    );
    assert_eq!(apply_content_limits("anything", None, Some(0)), "");
}

#[test]
fn slices_lines_directly() {
    assert_eq!(slice_lines("a\nb\nc", 2, 5), "b\nc");
    assert_eq!(slice_lines("a\nb\nc", 1, 1), "a\n");
}

#[test]
fn character_limit_beyond_length_keeps_everything() {
    assert_eq!(apply_content_limits("short", None, Some(100)), "short");
}
