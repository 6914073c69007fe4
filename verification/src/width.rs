//! Visible width of text destined for a fixed-width terminal.
//!
//! The width of a string is the number of terminal columns it occupies once
//! rendered: embedded escape sequences occupy no columns, and every other
//! code point contributes its East-Asian-width-aware column count.

use vstd::prelude::*;

verus! {

/// Upper bound, in code points, on any single piece of text the engine
/// handles.  Keeping lengths below this bound keeps every width sum and
/// every dimension computed by the engine inside `usize` on all targets.
pub const MAX_TEXT: usize = 0x0100_0000;

/// Upper bound, in code points, on a whole message handed to the renderer:
/// tighter than `MAX_TEXT` so that decorated forms of its lines still fit.
pub const MAX_MSG: usize = 0x0080_0000;

/// Terminal column count of a single code point, as the Unicode
/// East-Asian-width tables define it (0 for control and zero-width
/// code points, up to 3 for the widest).
pub uninterp spec fn char_width_of(c: char) -> nat;

/// Relies on `unicode_width::UnicodeWidthChar::width`: the column count of a
/// code point, `None` for control characters.  The result depends on the code
/// point alone; the table entries are 0, 1, 2 or 3 columns, and the printable
/// ASCII range (space included) is exactly one column wide.
#[verifier::external_body]
pub fn char_width(c: char) -> (w: usize)
    ensures
        w as nat == char_width_of(c),
        w <= 3,
        (' ' <= c && c < '\u{7f}') ==> w == 1,
{
    unicode_width::UnicodeWidthChar::width(c).unwrap_or(0)
}

/// The escape character that introduces every escape sequence.
pub open spec fn esc() -> char {
    '\u{1b}'
}

/// Terminator of a string-type escape sequence (`ESC ]`): a backslash or the
/// bell character.
pub open spec fn is_st_terminator(c: char) -> bool {
    c == '\\' || c == '\u{7}'
}

/// Terminator of a bracketed control sequence (`ESC [`): a tilde or an ASCII
/// letter.
pub open spec fn is_csi_terminator(c: char) -> bool {
    c == '~' || ('a' <= c && c <= 'z') || ('A' <= c && c <= 'Z')
}

/// Index just past the first terminator at or after position `i`, or the end
/// of the sequence when no terminator follows.  `osc` selects which
/// terminator set applies.
pub open spec fn scan_past(s: Seq<char>, i: int, osc: bool) -> int
    decreases s.len() - i,
{
    if i < 0 || i >= s.len() {
        s.len() as int
    } else if (if osc {
        is_st_terminator(s[i])
    } else {
        is_csi_terminator(s[i])
    }) {
        i + 1
    } else {
        scan_past(s, i + 1, osc)
    }
}

/// Length in code points of the escape sequence that starts at the head of
/// `s`, or 0 when `s` does not start with the escape character.  A lone
/// escape character is a sequence of length 1; `ESC ]` runs to a string
/// terminator; `ESC [` runs to the first tilde or letter; any other
/// introducer makes a two-character sequence.  An unterminated sequence runs
/// to the end of `s`.
pub open spec fn esc_len(s: Seq<char>) -> int {
    if s.len() == 0 || s[0] != esc() {
        0
    } else if s.len() == 1 {
        1
    } else if s[1] == ']' {
        scan_past(s, 2, true)
    } else if s[1] == '[' {
        scan_past(s, 2, false)
    } else {
        2
    }
}

pub proof fn lemma_scan_past_bounds(s: Seq<char>, i: int, osc: bool)
    requires
        0 <= i <= s.len(),
    ensures
        i <= scan_past(s, i, osc) <= s.len(),
    decreases s.len() - i,
{
    if i < s.len() {
        lemma_scan_past_bounds(s, i + 1, osc);
    }
}

pub proof fn lemma_esc_len_bounds(s: Seq<char>)
    requires
        s.len() > 0,
        s[0] == esc(),
    ensures
        1 <= esc_len(s) <= s.len(),
{
    if s.len() > 1 && (s[1] == ']' || s[1] == '[') {
        lemma_scan_past_bounds(s, 2, s[1] == ']');
    }
}

/// Visible width of a sequence of code points: escape sequences contribute
/// nothing, every other code point contributes its column count.
pub open spec fn vis_width(s: Seq<char>) -> nat
    decreases s.len(),
    via vis_width_decreases
{
    if s.len() == 0 {
        0
    } else if s[0] == esc() {
        vis_width(s.skip(esc_len(s)))
    } else {
        char_width_of(s[0]) + vis_width(s.skip(1))
    }
}

#[via_fn]
proof fn vis_width_decreases(s: Seq<char>) {
    if s.len() > 0 && s[0] == esc() {
        lemma_esc_len_bounds(s);
    }
}

/// Sum of the column counts of all code points, escape sequences included.
/// An upper bound for `vis_width`, and the measure the hard word-splitter
/// accumulates.
pub open spec fn char_sum(s: Seq<char>) -> nat
    decreases s.len(),
{
    if s.len() == 0 {
        0
    } else {
        char_width_of(s[0]) + char_sum(s.skip(1))
    }
}

pub proof fn lemma_char_sum_split(s: Seq<char>, k: int)
    requires
        0 <= k <= s.len(),
    ensures
        char_sum(s) == char_sum(s.take(k)) + char_sum(s.skip(k)),
    decreases k,
{
    if k == 0 {
        assert(s.take(0) =~= Seq::<char>::empty());
        assert(s.skip(0) =~= s);
    } else {
        lemma_char_sum_split(s.skip(1), k - 1);
        assert(s.take(k).skip(1) =~= s.skip(1).take(k - 1));
        assert(s.skip(k) =~= s.skip(1).skip(k - 1));
        assert(char_sum(s.take(k)) == char_width_of(s[0]) + char_sum(s.skip(1).take(k - 1)));
    }
}

/// No string is visibly wider than the sum of its code-point widths: the
/// escape-sequence chunks that `vis_width` skips can only lower the total.
pub proof fn lemma_vis_width_le_char_sum(s: Seq<char>)
    ensures
        vis_width(s) <= char_sum(s),
    decreases s.len(),
{
    if s.len() == 0 {
    } else if s[0] == esc() {
        lemma_esc_len_bounds(s);
        let k = esc_len(s);
        lemma_vis_width_le_char_sum(s.skip(k));
        lemma_char_sum_split(s, k);
    } else {
        lemma_vis_width_le_char_sum(s.skip(1));
    }
}

/// The larger of two counts.
pub open spec fn nmax(a: nat, b: nat) -> nat {
    if a >= b {
        a
    } else {
        b
    }
}

/// The greatest visible width among a sequence of rows, 0 when there are
/// none.
pub open spec fn widest(rs: Seq<Seq<char>>) -> nat
    decreases rs.len(),
{
    if rs.len() == 0 {
        0
    } else {
        nmax(widest(rs.drop_last()), vis_width(rs.last()))
    }
}

/// Every row within the engine's text bound.
pub open spec fn rows_fit(rs: Seq<Seq<char>>) -> bool {
    forall|i: int| 0 <= i < rs.len() ==> (#[trigger] rs[i]).len() <= MAX_TEXT
}

/// All rows, and the row count itself, within the engine's text bound.
pub open spec fn rows_short(rs: Seq<Seq<char>>) -> bool {
    rs.len() <= MAX_TEXT && rows_fit(rs)
}

/// The terminator set selected by `osc`, as one predicate.
pub open spec fn is_terminator(c: char, osc: bool) -> bool {
    if osc {
        is_st_terminator(c)
    } else {
        is_csi_terminator(c)
    }
}

/// `s` consists of nothing but escape sequences, the last possibly
/// unterminated.
pub open spec fn escapes_only(s: Seq<char>) -> bool
    decreases s.len(),
    via escapes_only_decreases
{
    if s.len() == 0 {
        true
    } else if s[0] == esc() {
        escapes_only(s.skip(esc_len(s)))
    } else {
        false
    }
}

#[via_fn]
proof fn escapes_only_decreases(s: Seq<char>) {
    if s.len() > 0 && s[0] == esc() {
        lemma_esc_len_bounds(s);
    }
}

/// A string made only of escape sequences occupies no columns at all.
pub proof fn lemma_escapes_only_width_zero(s: Seq<char>)
    requires
        escapes_only(s),
    ensures
        vis_width(s) == 0,
    decreases s.len(),
{
    if s.len() > 0 {
        lemma_esc_len_bounds(s);
        lemma_escapes_only_width_zero(s.skip(esc_len(s)));
    }
}

/// The escape sequence at the head of `s` is terminated strictly inside `s`,
/// so no text appended after `s` can extend it.
pub open spec fn esc_complete(s: Seq<char>) -> bool {
    s.len() >= 2 && s[0] == esc() && (if s[1] == ']' {
        exists|j: int| 2 <= j < s.len() && is_st_terminator(s[j])
    } else if s[1] == '[' {
        exists|j: int| 2 <= j < s.len() && is_csi_terminator(s[j])
    } else {
        true
    })
}

proof fn lemma_scan_past_append(s: Seq<char>, t: Seq<char>, i: int, osc: bool)
    requires
        0 <= i <= s.len(),
        exists|j: int| i <= j < s.len() && is_terminator(#[trigger] s[j], osc),
    ensures
        scan_past(s, i, osc) == scan_past(s + t, i, osc),
        scan_past(s, i, osc) <= s.len(),
    decreases s.len() - i,
{
    let j = choose|j: int| i <= j < s.len() && is_terminator(#[trigger] s[j], osc);
    assert((s + t)[i] == s[i]);
    if !is_terminator(s[i], osc) {
        assert(i + 1 <= j < s.len() && is_terminator(s[j], osc));
        lemma_scan_past_append(s, t, i + 1, osc);
    }
}

proof fn lemma_esc_complete_append(s: Seq<char>, t: Seq<char>)
    requires
        esc_complete(s),
    ensures
        esc_len(s + t) == esc_len(s),
        1 <= esc_len(s) <= s.len(),
{
    lemma_esc_len_bounds(s);
    let u = s + t;
    assert(u[0] == s[0] && u[1] == s[1]);
    if s[1] == ']' {
        lemma_scan_past_append(s, t, 2, true);
    } else if s[1] == '[' {
        lemma_scan_past_append(s, t, 2, false);
    }
}

/// `s` parses into whole pieces on its own: every escape sequence in it is
/// terminated inside `s`, so appending more text changes neither how `s` is
/// scanned nor what it contributes.  The empty string is self-contained.
pub open spec fn closed(s: Seq<char>) -> bool
    decreases s.len(),
    via closed_decreases
{
    if s.len() == 0 {
        true
    } else if s[0] == esc() {
        if esc_complete(s) {
            closed(s.skip(esc_len(s)))
        } else {
            false
        }
    } else {
        closed(s.skip(1))
    }
}

#[via_fn]
proof fn closed_decreases(s: Seq<char>) {
    if s.len() > 0 && s[0] == esc() {
        lemma_esc_len_bounds(s);
    }
}

/// Visible width is additive across a concatenation whose left part is
/// self-contained: no escape sequence spans the concatenation point.
pub proof fn lemma_vis_width_additive(a: Seq<char>, b: Seq<char>)
    requires
        closed(a),
    ensures
        vis_width(a + b) == vis_width(a) + vis_width(b),
    decreases a.len(),
{
    if a.len() == 0 {
        assert(a + b =~= b);
    } else if a[0] == esc() {
        lemma_esc_complete_append(a, b);
        let k = esc_len(a);
        assert((a + b).skip(k) =~= a.skip(k) + b);
        lemma_vis_width_additive(a.skip(k), b);
    } else {
        assert((a + b)[0] == a[0]);
        assert((a + b).skip(1) =~= a.skip(1) + b);
        lemma_vis_width_additive(a.skip(1), b);
    }
}

/// Self-containment is preserved by concatenation.
pub proof fn lemma_closed_concat(a: Seq<char>, b: Seq<char>)
    requires
        closed(a),
        closed(b),
    ensures
        closed(a + b),
    decreases a.len(),
{
    if a.len() == 0 {
        assert(a + b =~= b);
    } else if a[0] == esc() {
        lemma_esc_complete_append(a, b);
        let k = esc_len(a);
        let u = a + b;
        assert(esc_complete(u)) by {
            assert(u[0] == a[0] && u[1] == a[1]);
            if a[1] == ']' {
                let j = choose|j: int| 2 <= j < a.len() && is_st_terminator(a[j]);
                assert(u[j] == a[j]);
            } else if a[1] == '[' {
                let j = choose|j: int| 2 <= j < a.len() && is_csi_terminator(a[j]);
                assert(u[j] == a[j]);
            }
        }
        assert(u.skip(k) =~= a.skip(k) + b);
        lemma_closed_concat(a.skip(k), b);
    } else {
        assert((a + b)[0] == a[0]);
        assert((a + b).skip(1) =~= a.skip(1) + b);
        lemma_closed_concat(a.skip(1), b);
    }
}

/// No escape character anywhere in `s`.
pub open spec fn esc_free(s: Seq<char>) -> bool {
    forall|i: int| 0 <= i < s.len() ==> #[trigger] s[i] != esc()
}

/// A string with no escape character at all is self-contained.
pub proof fn lemma_esc_free_closed(s: Seq<char>)
    requires
        esc_free(s),
    ensures
        closed(s),
    decreases s.len(),
{
    if s.len() > 0 {
        assert(forall|i: int| 0 <= i < s.skip(1).len() ==> #[trigger] s.skip(1)[i] == s[i + 1]);
        lemma_esc_free_closed(s.skip(1));
    }
}

proof fn lemma_scan_past_found(s: Seq<char>, i: int, osc: bool)
    requires
        0 <= i <= s.len(),
    ensures
        (exists|j: int| i <= j < s.len() && is_terminator(#[trigger] s[j], osc)) <==> (i
            <= scan_past(s, i, osc) - 1 < s.len() && is_terminator(
            s[scan_past(s, i, osc) - 1],
            osc,
        )),
    decreases s.len() - i,
{
    lemma_scan_past_bounds(s, i, osc);
    if i < s.len() {
        if is_terminator(s[i], osc) {
        } else {
            lemma_scan_past_found(s, i + 1, osc);
            lemma_scan_past_bounds(s, i + 1, osc);
            if exists|j: int| i <= j < s.len() && is_terminator(#[trigger] s[j], osc) {
                let j = choose|j: int| i <= j < s.len() && is_terminator(#[trigger] s[j], osc);
                assert(i + 1 <= j);
            }
        }
    }
}

/// Whether `v` is self-contained: every escape sequence in it is terminated
/// before the end.
pub fn is_closed_chars(v: &Vec<char>) -> (r: bool)
    ensures
        r == closed(v@),
{
    let len: usize = v.len();
    let mut i: usize = 0;
    proof {
        assert(v@.skip(0) =~= v@);
    }
    while i < len
        invariant
            i <= len,
            len == v@.len(),
            closed(v@) == closed(v@.skip(i as int)),
        decreases len - i,
    {
        let ghost rest = v@.skip(i as int);
        proof {
            assert(rest[0] == v@[i as int]);
        }
        if v[i] == '\u{1b}' {
            if len - i < 2 {
                proof {
                    assert(!esc_complete(rest));
                }
                return false;
            }
            let c = v[i + 1];
            proof {
                assert(rest[1] == v@[i + 1]);
            }
            if c == ']' || c == '[' {
                let osc = c == ']';
                let n = escape_len_from(v.as_slice(), i);
                proof {
                    lemma_scan_past_found(rest, 2, osc);
                    lemma_scan_past_bounds(rest, 2, osc);
                    assert(n as int == esc_len(rest));
                    assert(n as int == scan_past(rest, 2, osc));
                }
                let tpos: usize = i + n - 1;
                let tc = v[tpos];
                proof {
                    assert(rest[n - 1] == v@[tpos as int]);
                }
                let hit = if osc {
                    tc == '\\' || tc == '\u{7}'
                } else {
                    tc == '~' || ('a' <= tc && tc <= 'z') || ('A' <= tc && tc <= 'Z')
                };
                if !hit {
                    proof {
                        assert(!(2 <= n - 1 < rest.len() && is_terminator(rest[n - 1], osc)))
                            by {
                            if 2 <= n - 1 < rest.len() {
                                assert(is_terminator(rest[n - 1], osc) == hit);
                            }
                        }
                        assert(!esc_complete(rest));
                    }
                    return false;
                }
                proof {
                    assert(n >= 3);
                    assert(is_terminator(rest[n - 1], osc));
                    assert(esc_complete(rest));
                    assert(closed(rest) == closed(rest.skip(n as int)));
                    assert(rest.skip(n as int) =~= v@.skip(i + n));
                }
                i = i + n;
            } else {
                proof {
                    assert(esc_complete(rest));
                    assert(esc_len(rest) == 2);
                    assert(closed(rest) == closed(rest.skip(2)));
                    assert(rest.skip(2) =~= v@.skip(i + 2));
                }
                i = i + 2;
            }
        } else {
            proof {
                assert(closed(rest) == closed(rest.skip(1)));
                assert(rest.skip(1) =~= v@.skip(i + 1));
            }
            i = i + 1;
        }
    }
    proof {
        assert(v@.skip(len as int) =~= Seq::<char>::empty());
    }
    true
}

/// Length in code points of the escape sequence found at position `from` of
/// `chars`, by the same two grammars `esc_len` describes; 0 when no escape
/// sequence starts there.
pub fn escape_len_from(chars: &[char], from: usize) -> (n: usize)
    requires
        from <= chars@.len(),
    ensures
        n as int == esc_len(chars@.skip(from as int)),
        from + n <= chars@.len(),
{
    let ghost s = chars@.skip(from as int);
    let len: usize = chars.len();
    if from == len || chars[from] != '\u{1b}' {
        return 0;
    }
    if from + 1 == len {
        return 1;
    }
    let c = chars[from + 1];
    if c == ']' || c == '[' {
        let osc = c == ']';
        let mut i: usize = from + 2;
        while i < len
            invariant
                from + 2 <= i <= len,
                len == chars@.len(),
                s == chars@.skip(from as int),
                s.len() == len - from,
                s[0] == esc(),
                osc ==> s[1] == ']',
                !osc ==> s[1] == '[',
                osc == (s[1] == ']'),
                scan_past(s, 2, osc) == scan_past(s, i - from, osc),
            decreases len - i,
        {
            let ch = chars[i];
            assert(s[i - from] == ch);
            let hit = if osc {
                ch == '\\' || ch == '\u{7}'
            } else {
                ch == '~' || ('a' <= ch && ch <= 'z') || ('A' <= ch && ch <= 'Z')
            };
            i = i + 1;
            if hit {
                assert(scan_past(s, i - 1 - from, osc) == i - from);
                return i - from;
            }
        }
        assert(scan_past(s, i - from, osc) == s.len());
        i - from
    } else {
        2
    }
}

/// Length in code points of the escape sequence at the head of `chars`,
/// or 0 when `chars` does not start one.
pub fn consume_escape(chars: &[char]) -> (n: usize)
    ensures
        n as int == esc_len(chars@),
        n <= chars@.len(),
{
    let n = escape_len_from(chars, 0);
    proof {
        assert(chars@.skip(0) =~= chars@);
    }
    n
}

/// Visible width of `chars`: the column count of every code point outside an
/// escape sequence.  Bounded by three columns per code point.
pub fn visible_width_chars(chars: &Vec<char>) -> (w: usize)
    requires
        chars@.len() <= MAX_TEXT,
    ensures
        w as nat == vis_width(chars@),
        w <= 3 * chars@.len(),
{
    let len: usize = chars.len();
    let mut i: usize = 0;
    let mut width: usize = 0;
    proof {
        assert(chars@.skip(0) =~= chars@);
    }
    while i < len
        invariant
            i <= len,
            len == chars@.len(),
            len <= MAX_TEXT,
            width <= 3 * i,
            vis_width(chars@) == width + vis_width(chars@.skip(i as int)),
        decreases len - i,
    {
        let ghost rest = chars@.skip(i as int);
        let c = chars[i];
        assert(rest[0] == c);
        if c == '\u{1b}' {
            let n = escape_len_from(chars.as_slice(), i);
            proof {
                lemma_esc_len_bounds(rest);
                assert(rest.skip(esc_len(rest)) =~= chars@.skip(i + esc_len(rest)));
            }
            let ghost old_i = i as int;
            i = i + n;
            proof {
                // an escape chunk costs no columns but advances the scan
                assert(width <= 3 * old_i <= 3 * i);
            }
        } else {
            let w = char_width(c);
            proof {
                assert(rest.skip(1) =~= chars@.skip(i + 1));
            }
            width = width + w;
            i = i + 1;
        }
    }
    proof {
        assert(chars@.skip(len as int) =~= Seq::<char>::empty());
    }
    width
}

/// Visible width of a string: the column count of every code point outside an
/// escape sequence.  Never a substitute for `len`: byte and code-point counts
/// say nothing about how text lines up in a terminal.
pub fn visible_width(input: &str) -> (w: usize)
    requires
        input@.len() <= MAX_TEXT,
    ensures
        w as nat == vis_width(input@),
        w <= 3 * input@.len(),
{
    let chars = crate::text::str_chars(input);
    visible_width_chars(&chars)
}

} // verus!
