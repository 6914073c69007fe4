//! Rendering engine for speech-balloon output: visible-width measurement of
//! text that may contain terminal escape sequences, width-aware word wrapping,
//! a data-driven balloon border model, and a template compositor that splices
//! the finished balloon into an ASCII-art figure at its anchor token.

mod api;
mod balloon;
mod fortune;
mod parity;
mod pony;
mod rng;
mod style;
mod text;
mod width;
mod wrap;

pub use api::{
    default_balloon_paths, default_pony_paths, lex_le, lex_lt, list_balloons, list_ponies,
    pick_fortune, pony_error_text, render, select_pony, Mode, PonyError, RenderConfig,
};
pub use balloon::{
    balloon_width, check_uniform_style, render_balloon, render_balloon_spec, render_spec,
    rows_closed, uniform_style,
};
pub use fortune::{
    fortune_error_text, is_candidate, split_fortunes, split_fortunes_spec, FortuneConfig,
    FortuneDb, FortuneError,
};
pub use parity::{
    first_mismatch, first_mismatch_spec, normalize_argv, normalize_argv_spec, substitute_vars,
    substitute_vars_spec,
};
pub use pony::{
    expand_predefined_vars, expand_spec, insert_balloon, insert_lines_spec, insert_spec,
    lemma_anchor_keeps_other_lines, lemma_no_anchor_prepends, parse_metadata_header,
    parse_meta_spec, pony_candidates, PonyAsset, PonyMetadata, TagEntry,
};
pub use style::{
    candidates_spec, is_say_default, is_think_default, load_style, parse_style,
    parsed_style_matches, style_candidates, BalloonMode, BalloonStyle,
};
pub use text::{is_space, split_lines, str_chars};
pub use wrap::{
    flat_words, hard_wrap, hard_wrap_spec, join_spaced, lemma_blank_line_one_empty,
    lemma_wrap_line_fits, lemma_wrap_line_nonempty, lemma_wrap_line_preserves_words,
    lemma_wrap_spec_fits, lemma_words_from_wordish, line_fits, wordish, wrap_line_spec,
    wrap_message, wrap_spec, words_of,
};
pub use width::{
    char_width_of, closed, consume_escape, esc_free, esc_len, escapes_only, is_closed_chars,
    lemma_escapes_only_width_zero,
    lemma_vis_width_additive, vis_width, visible_width, MAX_MSG, MAX_TEXT,
};
