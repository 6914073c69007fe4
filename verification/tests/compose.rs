//! Style parsing, template splicing and metadata headers.

use iron_pony::{
    expand_predefined_vars, insert_balloon, load_style, parse_metadata_header, parse_style,
    pony_candidates, style_candidates, BalloonMode, BalloonStyle,
};

#[test]
fn inserts_balloon_anchor() {
    let template = "  $balloon$\n   \\\n    (oo)";
    let style = load_style(None, &Vec::new(), BalloonMode::Say).expect("default style");
    let balloon = vec!["< hi >".to_string(), "\\----/".to_string()];
    let out = insert_balloon(template, &balloon, &style);
    assert!(out.contains("< hi >"));
    assert!(out.contains("\\----/"));
}

#[test]
fn expands_link_vars_from_style() {
    let say = load_style(None, &Vec::new(), BalloonMode::Say).expect("say style");
    let think = load_style(None, &Vec::new(), BalloonMode::Think).expect("think style");

    let say_out = insert_balloon("x $\\$ y", &Vec::new(), &say);
    let think_out = insert_balloon("x $\\$ y", &Vec::new(), &think);

    assert_eq!(say_out, "x \u{1b}[0m\\\u{1b}[0m y");
    assert_eq!(think_out, "x \u{1b}[0mo\u{1b}[0m y");
}

#[test]
fn expands_literal_dollar_token() {
    let say = BalloonStyle::default_for_mode(BalloonMode::Say);
    assert_eq!(expand_predefined_vars("a $$ b", &say), "a $ b");
    assert_eq!(expand_predefined_vars("no tokens", &say), "no tokens");
}

#[test]
fn balloon_prepends_when_no_anchor() {
    let style = BalloonStyle::default_for_mode(BalloonMode::Say);
    let balloon = vec!["B1".to_string(), "B2".to_string()];
    let out = insert_balloon("line1\nline2", &balloon, &style);
    assert_eq!(out, "B1\nB2\nline1\nline2");
}

#[test]
fn anchor_keeps_other_lines_intact() {
    let style = BalloonStyle::default_for_mode(BalloonMode::Say);
    let balloon = vec!["TOP".to_string(), "BOTTOM".to_string()];
    let out = insert_balloon("before\n  $balloon$tail\nafter", &balloon, &style);
    let lines: Vec<&str> = out.lines().collect();
    assert_eq!(lines[0], "before");
    assert_eq!(lines[1], "  TOP");
    assert_eq!(lines[2], "  BOTTOMtail");
    assert_eq!(lines[3], "after");
}

#[test]
fn parses_metadata_header() {
    let raw = "$$$\nNAME: Twilight\ncomment\n$$$\npony";
    let (meta, body) = parse_metadata_header(raw);
    let values = meta.tag_values("NAME").expect("NAME tag");
    assert_eq!(values, &vec!["Twilight".to_string()]);
    assert_eq!(meta.comments, vec!["comment"]);
    assert_eq!(body.trim(), "pony");
}

#[test]
fn text_without_header_is_all_body() {
    let (meta, body) = parse_metadata_header("just a pony");
    assert!(meta.tags.is_empty());
    assert!(meta.comments.is_empty());
    assert_eq!(body, "just a pony");
}

#[test]
fn unterminated_header_keeps_whole_text() {
    let raw = "$$$\nNAME: Pony\nno closing marker";
    let (meta, body) = parse_metadata_header(raw);
    assert!(meta.tag_values("NAME").is_some());
    assert_eq!(body, raw);
}

#[test]
fn parse_ascii_style() {
    let raw = "\\:\\\n/:/\nX:X\n\nn:_\n: \n";
    let style = parse_style(raw);
    assert_eq!(style.link, "\\");
    assert_eq!(style.link_mirror, "/");
}

#[test]
fn continuation_lines_extend_the_last_key() {
    let raw = "nw: a\n: b\n: c\n";
    let style = parse_style(raw);
    assert_eq!(style.nw, vec![" a", " b", " c"]);
}

#[test]
fn unrecognized_keys_are_ignored() {
    let raw = "bogus:zzz\nww:( \n";
    let style = parse_style(raw);
    assert_eq!(style.ww, "( ");
    assert_eq!(style.nw, Vec::<String>::new());
}

#[test]
fn minimum_width_counts_the_widest_sw_row() {
    let style = parse_style("sw:----\n");
    assert_eq!(style.min_width, 8);
    assert_eq!(style.min_height, 1);
}

#[test]
fn content_rows_pad_against_their_own_edges() {
    let style = iron_pony::BalloonStyle::new(
        "x".to_string(),
        "x".to_string(),
        "x".to_string(),
        "[ ".to_string(),
        " ]".to_string(),
        Vec::new(),
        Vec::new(),
        Vec::new(),
        Vec::new(),
        Vec::new(),
        String::new(),
        String::new(),
        String::new(),
        Vec::new(),
        Vec::new(),
        Vec::new(),
        Vec::new(),
        Vec::new(),
        String::new(),
        String::new(),
        String::new(),
    );
    assert_eq!(style.min_width, 4);
    let rows = style.render(0, &vec!["ab".to_string()]);
    assert_eq!(rows, vec!["[ ab ]"]);
}

#[test]
fn crlf_header_comments_lose_their_carriage_return() {
    let raw = "$$$\r\nNAME: X\r\ncomment\r\n$$$\r\nbody";
    let (meta, body) = parse_metadata_header(raw);
    let values = meta.tag_values("NAME").expect("NAME tag");
    assert_eq!(values, &vec!["X".to_string()]);
    assert_eq!(meta.comments, vec!["comment"]);
    assert_eq!(body, "body");
}

#[test]
fn parsed_style_derives_minimum_box() {
    let raw = "ee: )\nww:( \ne: )\nnee: )\nsee: )\nn:_\ns:-\n";
    let style = parse_style(raw);
    assert_eq!(style.min_width, 4);
    assert_eq!(style.min_height, 2);
}

#[test]
fn style_candidates_probe_each_root() {
    let roots = vec!["dir".to_string()];
    let cands = style_candidates("round", &roots, BalloonMode::Say);
    assert_eq!(cands, vec!["dir/round", "dir/round.say", "dir/round.balloon"]);
}

#[test]
fn pathish_style_name_is_tried_directly_first() {
    let roots = vec!["dir".to_string()];
    let cands = style_candidates("sub/round", &roots, BalloonMode::Think);
    assert_eq!(
        cands,
        vec!["sub/round", "dir/sub/round", "dir/sub/round.think", "dir/sub/round.balloon"],
    );
}

#[test]
fn load_style_parses_first_readable_source() {
    let sources = vec![None, Some("\\:+\n/:+\nX:+\n".to_string()), Some("\\:z\n".to_string())];
    let style = load_style(Some("any"), &sources, BalloonMode::Say).expect("parsed style");
    assert_eq!(style.link, "+");
}

#[test]
fn load_style_reports_not_found() {
    let sources: Vec<Option<String>> = vec![None, None];
    assert!(load_style(Some("missing"), &sources, BalloonMode::Say).is_none());
}

#[test]
fn pony_candidates_probe_bare_and_suffixed_names() {
    let cands = pony_candidates("root", "twilight");
    assert_eq!(cands, vec!["root/twilight", "root/twilight.pony"]);
}
