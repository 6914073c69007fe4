//! Fortunes, figure selection, the full render pipeline, and the parity
//! helpers.

use iron_pony::{
    default_balloon_paths, default_pony_paths, first_mismatch, is_candidate, list_ponies,
    normalize_argv, pick_fortune, render, select_pony, split_fortunes, substitute_vars,
    BalloonMode, BalloonStyle, FortuneConfig, FortuneDb, Mode, PonyError, RenderConfig,
};

#[test]
fn parses_percent_delimited_fortunes() {
    let parsed = split_fortunes("one\n%\ntwo\n%\nthree\n");
    assert_eq!(parsed, vec!["one", "two", "three"]);
}

#[test]
fn fortune_segments_keep_inner_newlines() {
    let parsed = split_fortunes("a\nb\n%\nc\n");
    assert_eq!(parsed, vec!["a\nb", "c"]);
}

#[test]
fn empty_fortune_segments_are_dropped() {
    let parsed = split_fortunes("%\n%\nonly\n%\n%\n");
    assert_eq!(parsed, vec!["only"]);
}

#[test]
fn candidate_names_filter_hidden_index_and_offensive() {
    assert!(is_candidate("plain", false));
    assert!(!is_candidate(".hidden", false));
    assert!(!is_candidate("index.dat", false));
    assert!(!is_candidate("rude-o", false));
    assert!(is_candidate("rude-o", true));
}

#[test]
fn pick_fortune_refuses_empty_databases() {
    let config = FortuneConfig::default();
    let dbs = vec![FortuneDb { path: "a".to_string(), fortunes: Vec::new() }];
    match pick_fortune(&config, &dbs) {
        Err(PonyError::Fortune(text)) => {
            assert_eq!(text, "no fortunes available in sources");
        },
        other => panic!("unexpected result: {other:?}"),
    }
}

#[test]
fn pick_fortune_returns_a_loaded_fortune() {
    let mut config = FortuneConfig::default();
    config.seed = Some(11);
    let dbs = vec![
        FortuneDb { path: "a".to_string(), fortunes: vec!["alpha".to_string()] },
        FortuneDb { path: "b".to_string(), fortunes: vec!["beta".to_string()] },
    ];
    let fortune = pick_fortune(&config, &dbs).expect("fortune");
    assert!(fortune == "alpha" || fortune == "beta");
}

#[test]
fn select_pony_prefers_requested_name() {
    let names = vec!["alpha".to_string()];
    let selected = select_pony(Some("explicit"), None, &names, Some(1)).expect("selected");
    assert_eq!(selected, "explicit");
}

#[test]
fn select_pony_prefers_best_pony() {
    let best = "ponies/best.pony".to_string();
    let names = vec!["other".to_string()];
    let selected = select_pony(None, Some(&best), &names, Some(7)).expect("selected pony");
    assert!(selected.ends_with("best.pony"));
}

#[test]
fn select_pony_random_is_seeded() {
    let names = vec!["alpha".to_string(), "beta".to_string()];
    let first = select_pony(None, None, &names, Some(42)).expect("first");
    let second = select_pony(None, None, &names, Some(42)).expect("second");
    assert_eq!(first, second);
    assert!(first == "alpha" || first == "beta");
}

#[test]
fn select_pony_with_nothing_installed_fails() {
    let names: Vec<String> = Vec::new();
    match select_pony(None, None, &names, None) {
        Err(e) => assert!(e.message().contains("was not found")),
        Ok(other) => panic!("unexpected selection: {other}"),
    }
}

#[test]
fn render_inserts_balloon() {
    let mut config = RenderConfig::default();
    config.message = "hello world".to_string();
    config.mode = Mode::Say;
    let style = BalloonStyle::default_for_mode(BalloonMode::Say);
    let out = render(&config, "$balloon$\n  \\\n   pony\n", &style).expect("rendered");
    assert!(out.contains("hello world"));
    assert!(out.contains("\\"));
}

#[test]
fn render_refuses_blank_message() {
    let mut config = RenderConfig::default();
    config.message = "   ".to_string();
    let style = BalloonStyle::default_for_mode(BalloonMode::Say);
    match render(&config, "$balloon$", &style) {
        Err(PonyError::NoMessage) => {},
        other => panic!("unexpected result: {other:?}"),
    }
}

#[test]
fn default_paths_are_the_conventional_roots() {
    let ponies = default_pony_paths();
    assert_eq!(ponies.len(), 6);
    assert_eq!(ponies[0], "/usr/share/ponysay/ponies");
    let balloons = default_balloon_paths();
    assert_eq!(balloons, vec!["/usr/share/ponysay/balloons", "/usr/local/share/ponysay/balloons"]);
}

#[test]
fn listed_names_are_merged_sorted_and_unique() {
    let found = vec![
        vec!["beta".to_string(), "alpha".to_string()],
        vec!["alpha".to_string(), "gamma".to_string()],
    ];
    let names = list_ponies(&found);
    assert_eq!(names, vec!["alpha", "beta", "gamma"]);
}

#[test]
fn drops_program_name_from_argv() {
    let normalized = normalize_argv(vec!["ponysay".to_string(), "--help".to_string()]);
    assert_eq!(normalized, vec!["--help"]);
}

#[test]
fn argv_starting_with_a_flag_is_kept_whole() {
    let normalized = normalize_argv(vec!["--help".to_string(), "x".to_string()]);
    assert_eq!(normalized, vec!["--help", "x"]);
}

#[test]
fn mismatch_reports_length() {
    let detail = first_mismatch(b"abc", b"ab", "a", "b");
    assert!(detail.contains("length mismatch"));
}

#[test]
fn mismatch_reports_first_differing_byte() {
    let detail = first_mismatch(b"abc", b"axc", "left", "right");
    assert_eq!(detail, "byte 1: left=0x62, right=0x78");
}

#[test]
fn identical_outputs_report_no_mismatch() {
    let detail = first_mismatch(b"same", b"same", "l", "r");
    assert_eq!(detail, "outputs are identical");
}

#[test]
fn substitutes_case_placeholders() {
    let out = substitute_vars("{temp}/f and {workspace}/g", "/tmp/x", "/ws");
    assert_eq!(out, "/tmp/x/f and /ws/g");
}

#[test]
fn error_messages_name_their_subject() {
    let e = PonyError::PonyNotFound { name: "rarity".to_string() };
    assert_eq!(e.message(), "pony 'rarity' was not found");
    let io = PonyError::Io { path: "/p".to_string(), message: "gone".to_string() };
    assert_eq!(io.message(), "io error for /p: gone");
}
