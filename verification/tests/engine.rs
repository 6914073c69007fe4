//! Width measurement, wrapping and balloon rendering.

use iron_pony::{
    check_uniform_style, consume_escape, hard_wrap, is_closed_chars, render_balloon, str_chars,
    visible_width, wrap_message, BalloonMode, BalloonStyle,
};

#[test]
fn wrap_splits_words() {
    let lines = wrap_message("a bb ccc dddd", 6);
    assert_eq!(lines, vec!["a bb", "ccc", "dddd"]);
}

#[test]
fn wrap_of_empty_message_is_one_empty_line() {
    let lines = wrap_message("", 10);
    assert_eq!(lines, vec![""]);
}

#[test]
fn wrap_keeps_blank_lines_in_position() {
    let lines = wrap_message("a\n\nb", 10);
    assert_eq!(lines, vec!["a", "", "b"]);
}

#[test]
fn wrap_hard_splits_unbroken_words() {
    let lines = wrap_message("abcdef", 2);
    assert_eq!(lines, vec!["ab", "cd", "ef"]);
}

#[test]
fn wrap_keeps_the_word_sequence() {
    let lines = wrap_message("the quick brown fox jumps over", 10);
    let rewrapped: Vec<String> =
        lines.iter().flat_map(|l| l.split_whitespace().map(str::to_string)).collect();
    assert_eq!(rewrapped, vec!["the", "quick", "brown", "fox", "jumps", "over"]);
}

#[test]
fn wrap_respects_width_for_every_line() {
    let lines = wrap_message("one two three four five six seven", 9);
    assert!(!lines.is_empty());
    for line in &lines {
        assert!(visible_width(line) <= 9, "line {line:?} too wide");
    }
}

#[test]
fn hard_wrap_splits_at_code_points() {
    let word = str_chars("abcd");
    let pieces = hard_wrap(&word, 3);
    let pieces: Vec<String> = pieces.iter().map(|p| p.iter().collect()).collect();
    assert_eq!(pieces, vec!["abc", "d"]);
}

#[test]
fn visible_width_counts_columns() {
    assert_eq!(visible_width("hello"), 5);
    assert_eq!(visible_width(""), 0);
}

#[test]
fn visible_width_of_escape_sequences_is_zero() {
    assert_eq!(visible_width("\u{1b}[31m\u{1b}[0m"), 0);
    assert_eq!(visible_width("\u{1b}]0;title\u{7}"), 0);
}

#[test]
fn visible_width_skips_embedded_escapes() {
    assert_eq!(visible_width("a\u{1b}[31mb\u{1b}[0mc"), 3);
}

#[test]
fn visible_width_is_additive_across_closed_parts() {
    let a = "x\u{1b}[31m";
    let b = "\u{1b}[0my";
    let joined = format!("{a}{b}");
    assert_eq!(visible_width(&joined), visible_width(a) + visible_width(b));
}

#[test]
fn visible_width_counts_wide_code_points() {
    assert_eq!(visible_width("\u{4e00}"), 2);
    assert_eq!(visible_width("a\u{4e00}b"), 4);
}

#[test]
fn consume_escape_reads_whole_sequences() {
    let csi = str_chars("\u{1b}[31mrest");
    assert_eq!(consume_escape(&csi), 5);
    let osc = str_chars("\u{1b}]0;t\u{7}rest");
    assert_eq!(consume_escape(&osc), 6);
    let lone = str_chars("\u{1b}");
    assert_eq!(consume_escape(&lone), 1);
    let plain = str_chars("abc");
    assert_eq!(consume_escape(&plain), 0);
}

#[test]
fn think_balloon_borders_hello() {
    let style = BalloonStyle::default_for_mode(BalloonMode::Think);
    let rows = render_balloon("hello", 40, &style);
    assert!(rows.iter().any(|row| row == "\u{1b}[0m( hello\u{1b}[0m )\u{1b}[0m"));
}

#[test]
fn balloon_rows_share_one_visible_width() {
    let style = BalloonStyle::default_for_mode(BalloonMode::Say);
    let rows = render_balloon("the quick brown fox jumps", 14, &style);
    assert!(rows.len() >= 4);
    let w = visible_width(&rows[0]);
    for row in &rows {
        assert_eq!(visible_width(row), w, "row {row:?} out of column");
    }
}

#[test]
fn default_styles_are_uniform() {
    let say = BalloonStyle::default_for_mode(BalloonMode::Say);
    let think = BalloonStyle::default_for_mode(BalloonMode::Think);
    assert!(check_uniform_style(&say));
    assert!(check_uniform_style(&think));
}

#[test]
fn closedness_check_sees_unterminated_escapes() {
    assert!(is_closed_chars(&str_chars("plain")));
    assert!(is_closed_chars(&str_chars("a\u{1b}[31mb\u{1b}[0m")));
    assert!(!is_closed_chars(&str_chars("a\u{1b}[31")));
    assert!(!is_closed_chars(&str_chars("a\u{1b}]title")));
}

#[test]
fn say_balloon_uses_angle_edges() {
    let style = BalloonStyle::default_for_mode(BalloonMode::Say);
    let rows = render_balloon("hi", 40, &style);
    assert!(rows.iter().any(|row| row.contains("< hi")));
}
