//! The border composer: wraps a message and draws the balloon border around
//! the wrapped lines.
//!
//! The balloon width is the widest content line plus the style's minimum
//! width.  Top and bottom border rows combine outer corner glyphs, inner
//! corner glyphs and a repeated fill glyph; when the corner glyphs alone
//! would overflow the width, the inner pair is omitted — the documented
//! degrade rule for narrow balloons, not an error.

use vstd::prelude::*;
use vstd::string::StrSliceExecFns;
use vstd::string::StringExecFns;

use crate::style::{widest_row, BalloonStyle};
use crate::wrap::wrap_message;
use crate::text::{chars_to_string, lemma_deep_push_str, push_all, str_chars};
use crate::width::{
    char_width, char_width_of, closed, lemma_esc_free_closed, lemma_vis_width_additive, nmax,
    rows_fit, vis_width, visible_width, visible_width_chars, widest, MAX_TEXT,
};

verus! {

/// The `j`-th row of a glyph list, or the empty glyph when the list has no
/// such row.  Missing rows default to empty rather than to a sentinel.
pub open spec fn row_or_empty(rs: Seq<Seq<char>>, j: int) -> Seq<char> {
    if 0 <= j < rs.len() {
        rs[j]
    } else {
        Seq::empty()
    }
}

/// `g` repeated `k` times.
pub open spec fn repeat_chars(g: Seq<char>, k: nat) -> Seq<char>
    decreases k,
{
    if k == 0 {
        Seq::empty()
    } else {
        repeat_chars(g, (k - 1) as nat) + g
    }
}

/// `n` spaces.
pub open spec fn spaces(n: nat) -> Seq<char> {
    Seq::new(n, |i: int| ' ')
}

/// Saturating difference of counts.
pub open spec fn ssub(a: nat, b: nat) -> nat {
    if a >= b {
        (a - b) as nat
    } else {
        0
    }
}

/// The width every row of the balloon is drawn to: the style's minimum
/// width plus the widest content line, or the caller's floor `minw` if that
/// is larger.
pub open spec fn balloon_width(style: &BalloonStyle, minw: nat, lines: Seq<Seq<char>>) -> nat {
    nmax(minw, style.min_width as nat + widest(lines))
}

/// Top border row `j`, drawn to width `w`: outer corners, inner corners and
/// fill when they fit, outer corners and fill alone when the inner pair
/// would overflow (the degrade rule), and bare corners when even the fill
/// cannot fit.
pub open spec fn top_row(style: &BalloonStyle, w: nat, j: int) -> Seq<char> {
    let nwj = row_or_empty(style.nw.deep_view(), j);
    let nej = row_or_empty(style.ne.deep_view(), j);
    let nnwj = row_or_empty(style.nnw.deep_view(), j);
    let nnej = row_or_empty(style.nne.deep_view(), j);
    let nj = row_or_empty(style.n.deep_view(), j);
    let outer = vis_width(nwj) + vis_width(nej);
    let inner = vis_width(nnwj) + vis_width(nnej);
    if outer + inner <= w {
        nwj + nnwj + repeat_chars(nj, ssub(w, (outer + inner) as nat)) + nnej + nej
    } else if outer <= w {
        nwj + repeat_chars(nj, ssub(w, outer as nat)) + nej
    } else {
        nwj + nej
    }
}

/// Bottom border row `j`, symmetric to the top.
pub open spec fn bottom_row(style: &BalloonStyle, w: nat, j: int) -> Seq<char> {
    let swj = row_or_empty(style.sw.deep_view(), j);
    let sej = row_or_empty(style.se.deep_view(), j);
    let sswj = row_or_empty(style.ssw.deep_view(), j);
    let ssej = row_or_empty(style.sse.deep_view(), j);
    let sj = row_or_empty(style.s.deep_view(), j);
    let outer = vis_width(swj) + vis_width(sej);
    let inner = vis_width(sswj) + vis_width(ssej);
    if outer + inner <= w {
        swj + sswj + repeat_chars(sj, ssub(w, (outer + inner) as nat)) + ssej + sej
    } else if outer <= w {
        swj + repeat_chars(sj, ssub(w, outer as nat)) + sej
    } else {
        swj + sej
    }
}

/// The left edge glyph of content row `idx` out of `count`: the single-line
/// edge for a one-line balloon, otherwise the top, bottom or middle edge.
pub open spec fn left_glyph(style: &BalloonStyle, count: int, idx: int) -> Seq<char> {
    if count == 1 {
        style.ww@
    } else if idx == 0 {
        style.nww@
    } else if idx == count - 1 {
        style.sww@
    } else {
        style.w@
    }
}

/// The right edge glyph of content row `idx` out of `count`.
pub open spec fn right_glyph(style: &BalloonStyle, count: int, idx: int) -> Seq<char> {
    if count == 1 {
        style.ee@
    } else if idx == 0 {
        style.nee@
    } else if idx == count - 1 {
        style.see@
    } else {
        style.e@
    }
}

/// Content row `idx`: left edge, the line itself, right-padding spaces, and
/// the right edge.  Padding fills the columns the row's own edge glyphs and
/// the line leave free, measured by visible width, so embedded escape
/// sequences never push the right edge out of column.
pub open spec fn content_row(style: &BalloonStyle, w: nat, lines: Seq<Seq<char>>, idx: int) -> Seq<
    char,
> {
    let line = lines[idx];
    let left = left_glyph(style, lines.len() as int, idx);
    let right = right_glyph(style, lines.len() as int, idx);
    let pad = ssub(ssub(ssub(w, vis_width(line)), vis_width(left)), vis_width(right));
    left + line + spaces(pad) + right
}

/// The fully bordered balloon: all top rows, one row per content line, all
/// bottom rows, in that order and nothing else.
pub open spec fn render_spec(style: &BalloonStyle, minw: nat, lines: Seq<Seq<char>>) -> Seq<
    Seq<char>,
> {
    let w = balloon_width(style, minw, lines);
    Seq::new(style.n.deep_view().len(), |j: int| top_row(style, w, j)) + Seq::new(
        lines.len(),
        |idx: int| content_row(style, w, lines, idx),
    ) + Seq::new(style.s.deep_view().len(), |j: int| bottom_row(style, w, j))
}

/// Every row self-contained: no escape sequence in any row runs past the
/// row's end.
pub open spec fn rows_closed(rs: Seq<Seq<char>>) -> bool {
    forall|i: int| 0 <= i < rs.len() ==> closed(#[trigger] rs[i])
}

/// Every fill glyph exactly one column wide.
pub open spec fn unit_fill(rs: Seq<Seq<char>>) -> bool {
    forall|i: int| 0 <= i < rs.len() ==> vis_width(#[trigger] rs[i]) == 1
}

/// No pair of outer corner glyphs wider than `bound`.
pub open spec fn corners_fit(lefts: Seq<Seq<char>>, rights: Seq<Seq<char>>, bound: nat) -> bool {
    forall|j: int|
        vis_width(row_or_empty(lefts, j)) + vis_width(#[trigger] row_or_empty(rights, j)) <= bound
}

/// A style whose borders line up: all left and right edge glyphs share one
/// visible width, fill glyphs are one column wide, corner pairs fit inside
/// the minimum width, and every glyph is self-contained.  Both compiled-in
/// defaults satisfy this; a style file may not, and then only the exact row
/// contents are promised, not their equal width.
pub open spec fn uniform_style(style: &BalloonStyle) -> bool {
    let l = vis_width(style.w@);
    &&& vis_width(style.ww@) == l
    &&& vis_width(style.nww@) == l
    &&& vis_width(style.sww@) == l
    &&& vis_width(style.e@) == l
    &&& vis_width(style.ee@) == l
    &&& vis_width(style.nee@) == l
    &&& vis_width(style.see@) == l
    &&& closed(style.ww@)
    &&& closed(style.w@)
    &&& closed(style.nww@)
    &&& closed(style.sww@)
    &&& closed(style.ee@)
    &&& closed(style.e@)
    &&& closed(style.nee@)
    &&& closed(style.see@)
    &&& rows_closed(style.nw.deep_view())
    &&& rows_closed(style.nnw.deep_view())
    &&& rows_closed(style.n.deep_view())
    &&& rows_closed(style.nne.deep_view())
    &&& rows_closed(style.ne.deep_view())
    &&& rows_closed(style.sw.deep_view())
    &&& rows_closed(style.ssw.deep_view())
    &&& rows_closed(style.s.deep_view())
    &&& rows_closed(style.sse.deep_view())
    &&& rows_closed(style.se.deep_view())
    &&& unit_fill(style.n.deep_view())
    &&& unit_fill(style.s.deep_view())
    &&& corners_fit(style.nw.deep_view(), style.ne.deep_view(), style.spec_min_width())
    &&& corners_fit(style.sw.deep_view(), style.se.deep_view(), style.spec_min_width())
}

proof fn lemma_row_or_empty_closed(rs: Seq<Seq<char>>, j: int)
    requires
        rows_closed(rs),
    ensures
        closed(row_or_empty(rs, j)),
{
    if !(0 <= j < rs.len()) {
        assert(closed(Seq::<char>::empty()));
    }
}

proof fn lemma_repeat_props(g: Seq<char>, k: nat)
    requires
        closed(g),
    ensures
        closed(repeat_chars(g, k)),
        vis_width(repeat_chars(g, k)) == k * vis_width(g),
    decreases k,
{
    if k == 0 {
        assert(closed(Seq::<char>::empty()));
        assert(vis_width(Seq::<char>::empty()) == 0);
    } else {
        lemma_repeat_props(g, (k - 1) as nat);
        crate::width::lemma_closed_concat(repeat_chars(g, (k - 1) as nat), g);
        lemma_vis_width_additive(repeat_chars(g, (k - 1) as nat), g);
        assert((k - 1) * vis_width(g) + vis_width(g) == k * vis_width(g)) by (nonlinear_arith);
    }
}

proof fn lemma_spaces_props(n: nat)
    requires
        char_width_of(' ') == 1,
    ensures
        closed(spaces(n)),
        vis_width(spaces(n)) == n,
    decreases n,
{
    lemma_esc_free_closed(spaces(n));
    if n > 0 {
        lemma_spaces_props((n - 1) as nat);
        assert(spaces(n)[0] == ' ');
        assert(spaces(n).skip(1) =~= spaces((n - 1) as nat));
        assert(vis_width(spaces(n)) == char_width_of(' ') + vis_width(spaces(n).skip(1)));
    }
}

proof fn lemma_vis_concat3(a: Seq<char>, b: Seq<char>, c: Seq<char>)
    requires
        closed(a),
        closed(b),
    ensures
        vis_width(a + b + c) == vis_width(a) + vis_width(b) + vis_width(c),
{
    lemma_vis_width_additive(a, b);
    crate::width::lemma_closed_concat(a, b);
    lemma_vis_width_additive(a + b, c);
}

proof fn lemma_vis_concat4(a: Seq<char>, b: Seq<char>, c: Seq<char>, d: Seq<char>)
    requires
        closed(a),
        closed(b),
        closed(c),
    ensures
        vis_width(a + b + c + d) == vis_width(a) + vis_width(b) + vis_width(c) + vis_width(d),
{
    lemma_vis_concat3(a, b, c);
    crate::width::lemma_closed_concat(a, b);
    crate::width::lemma_closed_concat(a + b, c);
    lemma_vis_width_additive(a + b + c, d);
}

proof fn lemma_vis_concat5(a: Seq<char>, b: Seq<char>, c: Seq<char>, d: Seq<char>, e: Seq<char>)
    requires
        closed(a),
        closed(b),
        closed(c),
        closed(d),
    ensures
        vis_width(a + b + c + d + e) == vis_width(a) + vis_width(b) + vis_width(c) + vis_width(d)
            + vis_width(e),
{
    lemma_vis_concat4(a, b, c, d);
    crate::width::lemma_closed_concat(a, b);
    crate::width::lemma_closed_concat(a + b, c);
    crate::width::lemma_closed_concat(a + b + c, d);
    lemma_vis_width_additive(a + b + c + d, e);
}

proof fn lemma_top_row_width(style: &BalloonStyle, w: nat, j: int)
    requires
        style.bounds_ok(),
        uniform_style(style),
        w >= style.min_width as nat,
        0 <= j < style.n.deep_view().len(),
    ensures
        vis_width(top_row(style, w, j)) == w,
{
    let nwj = row_or_empty(style.nw.deep_view(), j);
    let nej = row_or_empty(style.ne.deep_view(), j);
    let nnwj = row_or_empty(style.nnw.deep_view(), j);
    let nnej = row_or_empty(style.nne.deep_view(), j);
    let nj = row_or_empty(style.n.deep_view(), j);
    let outer = vis_width(nwj) + vis_width(nej);
    let inner = vis_width(nnwj) + vis_width(nnej);
    lemma_row_or_empty_closed(style.nw.deep_view(), j);
    lemma_row_or_empty_closed(style.nnw.deep_view(), j);
    lemma_row_or_empty_closed(style.nne.deep_view(), j);
    assert(closed(nj));
    assert(vis_width(nj) == 1);
    assert(outer <= style.spec_min_width());
    if outer + inner <= w {
        let k = ssub(w, (outer + inner) as nat);
        lemma_repeat_props(nj, k);
        lemma_vis_concat5(nwj, nnwj, repeat_chars(nj, k), nnej, nej);
    } else {
        let k = ssub(w, outer as nat);
        lemma_repeat_props(nj, k);
        lemma_vis_concat3(nwj, repeat_chars(nj, k), nej);
    }
}

proof fn lemma_bottom_row_width(style: &BalloonStyle, w: nat, j: int)
    requires
        style.bounds_ok(),
        uniform_style(style),
        w >= style.min_width as nat,
        0 <= j < style.s.deep_view().len(),
    ensures
        vis_width(bottom_row(style, w, j)) == w,
{
    let swj = row_or_empty(style.sw.deep_view(), j);
    let sej = row_or_empty(style.se.deep_view(), j);
    let sswj = row_or_empty(style.ssw.deep_view(), j);
    let ssej = row_or_empty(style.sse.deep_view(), j);
    let sj = row_or_empty(style.s.deep_view(), j);
    let outer = vis_width(swj) + vis_width(sej);
    let inner = vis_width(sswj) + vis_width(ssej);
    lemma_row_or_empty_closed(style.sw.deep_view(), j);
    lemma_row_or_empty_closed(style.ssw.deep_view(), j);
    lemma_row_or_empty_closed(style.sse.deep_view(), j);
    assert(closed(sj));
    assert(vis_width(sj) == 1);
    assert(outer <= style.spec_min_width());
    if outer + inner <= w {
        let k = ssub(w, (outer + inner) as nat);
        lemma_repeat_props(sj, k);
        lemma_vis_concat5(swj, sswj, repeat_chars(sj, k), ssej, sej);
    } else {
        let k = ssub(w, outer as nat);
        lemma_repeat_props(sj, k);
        lemma_vis_concat3(swj, repeat_chars(sj, k), sej);
    }
}

/// The widest row is at least as wide as any row.
pub proof fn lemma_widest_ge(rs: Seq<Seq<char>>, i: int)
    requires
        0 <= i < rs.len(),
    ensures
        vis_width(rs[i]) <= widest(rs),
    decreases rs.len(),
{
    if i == rs.len() - 1 {
        assert(rs.last() == rs[i]);
    } else {
        lemma_widest_ge(rs.drop_last(), i);
        assert(rs.drop_last()[i] == rs[i]);
    }
}

proof fn lemma_content_row_width(style: &BalloonStyle, w: nat, lines: Seq<Seq<char>>, idx: int)
    requires
        style.bounds_ok(),
        uniform_style(style),
        0 <= idx < lines.len(),
        closed(lines[idx]),
        w >= style.min_width as nat + widest(lines),
        char_width_of(' ') == 1,
    ensures
        vis_width(content_row(style, w, lines, idx)) == w,
{
    let line = lines[idx];
    let l = vis_width(style.w@);
    let left = left_glyph(style, lines.len() as int, idx);
    let right = right_glyph(style, lines.len() as int, idx);
    assert(vis_width(left) == l && closed(left));
    assert(vis_width(right) == l);
    assert(style.spec_min_edge() >= vis_width(style.e@));
    assert(style.min_width as nat >= l + l);
    lemma_widest_ge(lines, idx);
    let pad = ssub(ssub(ssub(w, vis_width(line)), vis_width(left)), vis_width(right));
    assert(pad == w - vis_width(line) - l - l);
    lemma_spaces_props(pad);
    lemma_vis_concat4(left, line, spaces(pad), right);
}

proof fn lemma_render_width(style: &BalloonStyle, minw: nat, lines: Seq<Seq<char>>)
    requires
        style.bounds_ok(),
        uniform_style(style),
        rows_closed(lines),
        char_width_of(' ') == 1,
    ensures
        forall|p: int|
            0 <= p < render_spec(style, minw, lines).len() ==> vis_width(
                #[trigger] render_spec(style, minw, lines)[p],
            ) == balloon_width(style, minw, lines),
{
    let w = balloon_width(style, minw, lines);
    let res = render_spec(style, minw, lines);
    let tn = style.n.deep_view().len() as int;
    let cn = lines.len() as int;
    assert(w >= style.min_width as nat + widest(lines));
    assert forall|p: int| 0 <= p < res.len() implies vis_width(#[trigger] res[p]) == w by {
        if p < tn {
            assert(res[p] == top_row(style, w, p));
            lemma_top_row_width(style, w, p);
        } else if p < tn + cn {
            assert(res[p] == content_row(style, w, lines, p - tn));
            lemma_content_row_width(style, w, lines, p - tn);
        } else {
            assert(res[p] == bottom_row(style, w, p - tn - cn));
            lemma_bottom_row_width(style, w, p - tn - cn);
        }
    }
}

/// Whether every row of `v` is self-contained.
fn rows_all_closed(v: &Vec<String>) -> (r: bool)
    ensures
        r ==> rows_closed(v.deep_view()),
{
    let len: usize = v.len();
    let mut i: usize = 0;
    while i < len
        invariant
            i <= len,
            len == v@.len(),
            forall|u: int| 0 <= u < i ==> closed(#[trigger] v.deep_view()[u]),
        decreases len - i,
    {
        let row = str_chars(v[i].as_str());
        proof {
            assert(v.deep_view()[i as int] == v@[i as int]@);
        }
        if !crate::width::is_closed_chars(&row) {
            return false;
        }
        i = i + 1;
    }
    true
}

/// Whether every row of `v` is exactly one column wide.
fn rows_all_unit(v: &Vec<String>) -> (r: bool)
    requires
        rows_fit(v.deep_view()),
    ensures
        r ==> unit_fill(v.deep_view()),
{
    let len: usize = v.len();
    let mut i: usize = 0;
    while i < len
        invariant
            i <= len,
            len == v@.len(),
            rows_fit(v.deep_view()),
            forall|u: int| 0 <= u < i ==> vis_width(#[trigger] v.deep_view()[u]) == 1,
        decreases len - i,
    {
        proof {
            assert(v.deep_view()[i as int] == v@[i as int]@);
        }
        if visible_width(v[i].as_str()) != 1 {
            return false;
        }
        i = i + 1;
    }
    true
}

/// Whether every outer corner pair fits within `bound` columns.
fn corners_ok(lefts: &Vec<String>, rights: &Vec<String>, bound: usize) -> (r: bool)
    requires
        rows_fit(lefts.deep_view()),
        rows_fit(rights.deep_view()),
    ensures
        r ==> corners_fit(lefts.deep_view(), rights.deep_view(), bound as nat),
{
    let ll: usize = lefts.len();
    let rl: usize = rights.len();
    let m: usize = if ll >= rl {
        ll
    } else {
        rl
    };
    let mut j: usize = 0;
    while j < m
        invariant
            j <= m,
            m == if ll >= rl {
                ll
            } else {
                rl
            },
            ll == lefts@.len(),
            rl == rights@.len(),
            rows_fit(lefts.deep_view()),
            rows_fit(rights.deep_view()),
            forall|u: int|
                0 <= u < j ==> vis_width(row_or_empty(lefts.deep_view(), u)) + vis_width(
                    #[trigger] row_or_empty(rights.deep_view(), u),
                ) <= bound,
        decreases m - j,
    {
        let lg = row_glyph(lefts, j);
        let rg = row_glyph(rights, j);
        let lw = visible_width_chars(&lg);
        let rw = visible_width_chars(&rg);
        if lw + rw > bound {
            return false;
        }
        j = j + 1;
    }
    proof {
        assert forall|u: int|
            vis_width(row_or_empty(lefts.deep_view(), u)) + vis_width(
                #[trigger] row_or_empty(rights.deep_view(), u),
            ) <= bound by {
            if !(0 <= u < m) {
                assert(row_or_empty(lefts.deep_view(), u) =~= Seq::<char>::empty());
                assert(row_or_empty(rights.deep_view(), u) =~= Seq::<char>::empty());
                assert(vis_width(Seq::<char>::empty()) == 0);
            }
        }
    }
    true
}

fn glyph_closed(g: &String) -> (r: bool)
    ensures
        r ==> closed(g@),
{
    let v = str_chars(g.as_str());
    crate::width::is_closed_chars(&v)
}

/// Check at run time whether a style meets the alignment conditions of the
/// equal-width guarantee: uniform edge widths, one-column fill glyphs,
/// corner pairs inside the minimum width, and self-contained glyphs.  A
/// positive answer establishes `uniform_style`; the compiled-in defaults
/// pass, a style file may not.
pub fn check_uniform_style(style: &BalloonStyle) -> (r: bool)
    requires
        style.bounds_ok(),
    ensures
        r ==> uniform_style(style),
{
    let l = visible_width(style.w.as_str());
    if visible_width(style.ww.as_str()) != l {
        return false;
    }
    if visible_width(style.nww.as_str()) != l {
        return false;
    }
    if visible_width(style.sww.as_str()) != l {
        return false;
    }
    if visible_width(style.e.as_str()) != l {
        return false;
    }
    if visible_width(style.ee.as_str()) != l {
        return false;
    }
    if visible_width(style.nee.as_str()) != l {
        return false;
    }
    if visible_width(style.see.as_str()) != l {
        return false;
    }
    if !glyph_closed(&style.ww) {
        return false;
    }
    if !glyph_closed(&style.w) {
        return false;
    }
    if !glyph_closed(&style.nww) {
        return false;
    }
    if !glyph_closed(&style.sww) {
        return false;
    }
    if !glyph_closed(&style.ee) {
        return false;
    }
    if !glyph_closed(&style.e) {
        return false;
    }
    if !glyph_closed(&style.nee) {
        return false;
    }
    if !glyph_closed(&style.see) {
        return false;
    }
    if !rows_all_closed(&style.nw) {
        return false;
    }
    if !rows_all_closed(&style.nnw) {
        return false;
    }
    if !rows_all_closed(&style.n) {
        return false;
    }
    if !rows_all_closed(&style.nne) {
        return false;
    }
    if !rows_all_closed(&style.ne) {
        return false;
    }
    if !rows_all_closed(&style.sw) {
        return false;
    }
    if !rows_all_closed(&style.ssw) {
        return false;
    }
    if !rows_all_closed(&style.s) {
        return false;
    }
    if !rows_all_closed(&style.sse) {
        return false;
    }
    if !rows_all_closed(&style.se) {
        return false;
    }
    if !rows_all_unit(&style.n) {
        return false;
    }
    if !rows_all_unit(&style.s) {
        return false;
    }
    if !corners_ok(&style.nw, &style.ne, style.min_width) {
        return false;
    }
    if !corners_ok(&style.sw, &style.se, style.min_width) {
        return false;
    }
    proof {
        assert(uniform_style(style));
    }
    true
}

/// Row `j` of a glyph list as code points, the empty glyph when the list is
/// shorter.
fn row_glyph(v: &Vec<String>, j: usize) -> (r: Vec<char>)
    ensures
        r@ == row_or_empty(v.deep_view(), j as int),
{
    if j < v.len() {
        let r = str_chars(v[j].as_str());
        proof {
            assert(v.deep_view()[j as int] == v@[j as int]@);
        }
        r
    } else {
        let r: Vec<char> = Vec::new();
        proof {
            assert(r@ =~= Seq::<char>::empty());
        }
        r
    }
}

/// Append `g` repeated `k` times to `dst`.
fn append_repeat(dst: &mut Vec<char>, g: &Vec<char>, k: usize)
    ensures
        final(dst)@ == old(dst)@ + repeat_chars(g@, k as nat),
{
    let mut t: usize = 0;
    proof {
        assert(dst@ =~= old(dst)@ + repeat_chars(g@, 0));
    }
    while t < k
        invariant
            t <= k,
            dst@ == old(dst)@ + repeat_chars(g@, t as nat),
        decreases k - t,
    {
        push_all(dst, g);
        proof {
            assert(repeat_chars(g@, (t + 1) as nat) == repeat_chars(g@, t as nat) + g@);
            assert(old(dst)@ + repeat_chars(g@, t as nat) + g@ =~= old(dst)@ + repeat_chars(
                g@,
                (t + 1) as nat,
            ));
        }
        t = t + 1;
    }
}

/// Append `k` spaces to `dst`.
pub(crate) fn push_spaces(dst: &mut Vec<char>, k: usize)
    ensures
        final(dst)@ == old(dst)@ + spaces(k as nat),
{
    let mut t: usize = 0;
    proof {
        assert(dst@ =~= old(dst)@ + spaces(0));
    }
    while t < k
        invariant
            t <= k,
            dst@ == old(dst)@ + spaces(t as nat),
        decreases k - t,
    {
        dst.push(' ');
        proof {
            assert(old(dst)@ + spaces(t as nat) + seq![' '] =~= old(dst)@ + spaces((t + 1) as nat));
        }
        t = t + 1;
    }
}

/// Saturating difference.
fn sat_sub(a: usize, b: usize) -> (r: usize)
    ensures
        r as nat == ssub(a as nat, b as nat),
{
    if a >= b {
        a - b
    } else {
        0
    }
}

impl BalloonStyle {
    /// Draw the balloon border around `lines`, producing every output row at
    /// the balloon width: top rows, one bordered row per content line
    /// (right-padded by visible width), then bottom rows.  `minw` is a floor
    /// the caller may impose on the balloon width.
    pub fn render(&self, minw: usize, lines: &Vec<String>) -> (r: Vec<String>)
        requires
            self.bounds_ok(),
            rows_fit(lines.deep_view()),
            minw <= 3 * MAX_TEXT,
        ensures
            r.deep_view() == render_spec(self, minw as nat, lines.deep_view()),
            uniform_style(self) && rows_closed(lines.deep_view()) ==> forall|p: int|
                0 <= p < r@.len() ==> vis_width(#[trigger] r.deep_view()[p]) == balloon_width(
                    self,
                    minw as nat,
                    lines.deep_view(),
                ),
    {
        let ghost lv = lines.deep_view();
        let space_w = char_width(' ');
        proof {
            assert(space_w == 1);
            assert(char_width_of(' ') == 1);
        }
        let maxline = widest_row(lines);
        let mut wid: usize = self.min_width + maxline;
        if wid < minw {
            wid = minw;
        }
        let ghost wv = wid as nat;
        proof {
            assert(wv == balloon_width(self, minw as nat, lv));
        }
        let ghost tops = Seq::new(self.n.deep_view().len(), |j: int| top_row(self, wv, j));
        let ghost mids = Seq::new(lv.len(), |idx: int| content_row(self, wv, lv, idx));
        let ghost bots = Seq::new(self.s.deep_view().len(), |j: int| bottom_row(self, wv, j));

        let mut out: Vec<String> = Vec::new();

        // top border rows
        let tn: usize = self.n.len();
        let mut j: usize = 0;
        proof {
            assert(out.deep_view() =~= tops.take(0));
        }
        while j < tn
            invariant
                j <= tn,
                tn == self.n@.len(),
                self.bounds_ok(),
                wid <= 9 * MAX_TEXT,
                wv == wid as nat,
                tops == Seq::new(self.n.deep_view().len(), |j: int| top_row(self, wv, j)),
                out.deep_view() == tops.take(j as int),
            decreases tn - j,
        {
            let nwj = row_glyph(&self.nw, j);
            let nej = row_glyph(&self.ne, j);
            let nnwj = row_glyph(&self.nnw, j);
            let nnej = row_glyph(&self.nne, j);
            let nj = row_glyph(&self.n, j);
            let vnw = visible_width_chars(&nwj);
            let vne = visible_width_chars(&nej);
            let vnnw = visible_width_chars(&nnwj);
            let vnne = visible_width_chars(&nnej);
            let outer = vnw + vne;
            let inner = vnnw + vnne;
            let mut row: Vec<char> = Vec::new();
            if outer + inner <= wid {
                push_all(&mut row, &nwj);
                push_all(&mut row, &nnwj);
                let k = wid - outer - inner;
                append_repeat(&mut row, &nj, k);
                push_all(&mut row, &nnej);
                push_all(&mut row, &nej);
            } else if outer <= wid {
                push_all(&mut row, &nwj);
                let k = wid - outer;
                append_repeat(&mut row, &nj, k);
                push_all(&mut row, &nej);
            } else {
                push_all(&mut row, &nwj);
                push_all(&mut row, &nej);
            }
            proof {
                assert(row@ =~= top_row(self, wv, j as int));
            }
            let ghost prev = out;
            let rs = chars_to_string(&row);
            let ghost rs_snap = rs;
            out.push(rs);
            proof {
                lemma_deep_push_str(prev, out, rs_snap);
                assert(prev.deep_view() + seq![row@] =~= tops.take(j + 1));
            }
            j = j + 1;
        }
        proof {
            assert(tops.take(tn as int) =~= tops);
        }

        // content rows
        let cn: usize = lines.len();
        let mut idx: usize = 0;
        proof {
            assert(out.deep_view() + mids.take(0) =~= out.deep_view());
            assert(mids.take(0) =~= Seq::<Seq<char>>::empty());
            assert(out.deep_view() =~= tops + mids.take(0));
        }
        while idx < cn
            invariant
                idx <= cn,
                cn == lines@.len(),
                lv == lines.deep_view(),
                self.bounds_ok(),
                rows_fit(lv),
                wid <= 9 * MAX_TEXT,
                wv == wid as nat,
                tops == Seq::new(self.n.deep_view().len(), |j: int| top_row(self, wv, j)),
                mids == Seq::new(lv.len(), |t: int| content_row(self, wv, lv, t)),
                out.deep_view() == tops + mids.take(idx as int),
            decreases cn - idx,
        {
            let left = if cn == 1 {
                str_chars(self.ww.as_str())
            } else if idx == 0 {
                str_chars(self.nww.as_str())
            } else if idx == cn - 1 {
                str_chars(self.sww.as_str())
            } else {
                str_chars(self.w.as_str())
            };
            let right = if cn == 1 {
                str_chars(self.ee.as_str())
            } else if idx == 0 {
                str_chars(self.nee.as_str())
            } else if idx == cn - 1 {
                str_chars(self.see.as_str())
            } else {
                str_chars(self.e.as_str())
            };
            proof {
                assert(left@ == left_glyph(self, cn as int, idx as int));
                assert(right@ == right_glyph(self, cn as int, idx as int));
                assert(lines.deep_view()[idx as int] == lines@[idx as int]@);
            }
            let linev = str_chars(lines[idx].as_str());
            let vline = visible_width_chars(&linev);
            let vleft = visible_width_chars(&left);
            let vright = visible_width_chars(&right);
            let pad1 = sat_sub(wid, vline);
            let pad2 = sat_sub(pad1, vleft);
            let pad = sat_sub(pad2, vright);
            let mut row: Vec<char> = Vec::new();
            push_all(&mut row, &left);
            push_all(&mut row, &linev);
            push_spaces(&mut row, pad);
            push_all(&mut row, &right);
            proof {
                assert(row@ =~= content_row(self, wv, lv, idx as int));
            }
            let ghost prev = out;
            let rs = chars_to_string(&row);
            let ghost rs_snap = rs;
            out.push(rs);
            proof {
                lemma_deep_push_str(prev, out, rs_snap);
                assert(prev.deep_view() + seq![row@] =~= tops + mids.take(idx + 1));
            }
            idx = idx + 1;
        }
        proof {
            assert(mids.take(cn as int) =~= mids);
        }

        // bottom border rows
        let bn: usize = self.s.len();
        let mut j2: usize = 0;
        proof {
            assert(bots.take(0) =~= Seq::<Seq<char>>::empty());
            assert(out.deep_view() =~= tops + mids + bots.take(0));
        }
        while j2 < bn
            invariant
                j2 <= bn,
                bn == self.s@.len(),
                self.bounds_ok(),
                wid <= 9 * MAX_TEXT,
                wv == wid as nat,
                tops == Seq::new(self.n.deep_view().len(), |j: int| top_row(self, wv, j)),
                mids == Seq::new(lv.len(), |t: int| content_row(self, wv, lv, t)),
                bots == Seq::new(self.s.deep_view().len(), |j: int| bottom_row(self, wv, j)),
                out.deep_view() == tops + mids + bots.take(j2 as int),
            decreases bn - j2,
        {
            let swj = row_glyph(&self.sw, j2);
            let sej = row_glyph(&self.se, j2);
            let sswj = row_glyph(&self.ssw, j2);
            let ssej = row_glyph(&self.sse, j2);
            let sj = row_glyph(&self.s, j2);
            let vsw = visible_width_chars(&swj);
            let vse = visible_width_chars(&sej);
            let vssw = visible_width_chars(&sswj);
            let vsse = visible_width_chars(&ssej);
            let outer = vsw + vse;
            let inner = vssw + vsse;
            let mut row: Vec<char> = Vec::new();
            if outer + inner <= wid {
                push_all(&mut row, &swj);
                push_all(&mut row, &sswj);
                let k = wid - outer - inner;
                append_repeat(&mut row, &sj, k);
                push_all(&mut row, &ssej);
                push_all(&mut row, &sej);
            } else if outer <= wid {
                push_all(&mut row, &swj);
                let k = wid - outer;
                append_repeat(&mut row, &sj, k);
                push_all(&mut row, &sej);
            } else {
                push_all(&mut row, &swj);
                push_all(&mut row, &sej);
            }
            proof {
                assert(row@ =~= bottom_row(self, wv, j2 as int));
            }
            let ghost prev = out;
            let rs = chars_to_string(&row);
            let ghost rs_snap = rs;
            out.push(rs);
            proof {
                lemma_deep_push_str(prev, out, rs_snap);
                assert(prev.deep_view() + seq![row@] =~= tops + mids + bots.take(j2 + 1));
            }
            j2 = j2 + 1;
        }
        proof {
            assert(bots.take(bn as int) =~= bots);
            assert(out.deep_view() =~= render_spec(self, minw as nat, lv));
            if uniform_style(self) && rows_closed(lv) {
                lemma_render_width(self, minw as nat, lv);
                assert forall|p: int| 0 <= p < out@.len() implies vis_width(
                    #[trigger] out.deep_view()[p],
                ) == balloon_width(self, minw as nat, lv) by {
                    assert(out.deep_view()[p] == render_spec(self, minw as nat, lv)[p]);
                }
            }
        }
        out
    }
}

/// The SGR reset escape sequence that brackets rendered content so the
/// balloon draws independent of surrounding colour state.
pub open spec fn sgr_reset() -> Seq<char> {
    "\u{1b}[0m"@
}

/// The reset sequence is one complete escape sequence: self-contained,
/// four code points, and zero columns wide.
pub proof fn lemma_reset_closed()
    ensures
        closed(sgr_reset()),
        vis_width(sgr_reset()) == 0,
        sgr_reset().len() == 4,
{
    reveal_strlit("\u{1b}[0m");
    let s = sgr_reset();
    assert(s.len() == 4);
    assert(s[0] == '\u{1b}' && s[1] == '[' && s[2] == '0' && s[3] == 'm');
    assert(crate::width::is_csi_terminator(s[3]));
    assert(crate::width::scan_past(s, 3, false) == 4);
    assert(crate::width::scan_past(s, 2, false) == 4);
    assert(crate::width::esc_len(s) == 4);
    assert(crate::width::esc_complete(s));
    assert(s.skip(4) =~= Seq::<char>::empty());
    assert(closed(Seq::<char>::empty()));
    assert(vis_width(Seq::<char>::empty()) == 0);
}

/// Every row the composer draws from self-contained glyphs and lines is
/// itself self-contained.
proof fn lemma_render_rows_closed(style: &BalloonStyle, minw: nat, lines: Seq<Seq<char>>)
    requires
        uniform_style(style),
        rows_closed(lines),
    ensures
        forall|p: int|
            0 <= p < render_spec(style, minw, lines).len() ==> closed(
                #[trigger] render_spec(style, minw, lines)[p],
            ),
{
    let w = balloon_width(style, minw, lines);
    let res = render_spec(style, minw, lines);
    let tn = style.n.deep_view().len() as int;
    let cn = lines.len() as int;
    assert forall|p: int| 0 <= p < res.len() implies closed(#[trigger] res[p]) by {
        if p < tn {
            assert(res[p] == top_row(style, w, p));
            lemma_top_row_closed(style, w, p);
        } else if p < tn + cn {
            assert(res[p] == content_row(style, w, lines, p - tn));
            lemma_content_row_closed(style, w, lines, p - tn);
        } else {
            assert(res[p] == bottom_row(style, w, p - tn - cn));
            lemma_bottom_row_closed(style, w, p - tn - cn);
        }
    }
}

proof fn lemma_top_row_closed(style: &BalloonStyle, w: nat, j: int)
    requires
        uniform_style(style),
        0 <= j < style.n.deep_view().len(),
    ensures
        closed(top_row(style, w, j)),
{
    let nwj = row_or_empty(style.nw.deep_view(), j);
    let nej = row_or_empty(style.ne.deep_view(), j);
    let nnwj = row_or_empty(style.nnw.deep_view(), j);
    let nnej = row_or_empty(style.nne.deep_view(), j);
    let nj = row_or_empty(style.n.deep_view(), j);
    lemma_row_or_empty_closed(style.nw.deep_view(), j);
    lemma_row_or_empty_closed(style.ne.deep_view(), j);
    lemma_row_or_empty_closed(style.nnw.deep_view(), j);
    lemma_row_or_empty_closed(style.nne.deep_view(), j);
    assert(closed(nj));
    let outer = vis_width(nwj) + vis_width(nej);
    let inner = vis_width(nnwj) + vis_width(nnej);
    if outer + inner <= w {
        let k = ssub(w, (outer + inner) as nat);
        lemma_repeat_props(nj, k);
        crate::width::lemma_closed_concat(nwj, nnwj);
        crate::width::lemma_closed_concat(nwj + nnwj, repeat_chars(nj, k));
        crate::width::lemma_closed_concat(nwj + nnwj + repeat_chars(nj, k), nnej);
        crate::width::lemma_closed_concat(nwj + nnwj + repeat_chars(nj, k) + nnej, nej);
    } else if outer <= w {
        let k = ssub(w, outer as nat);
        lemma_repeat_props(nj, k);
        crate::width::lemma_closed_concat(nwj, repeat_chars(nj, k));
        crate::width::lemma_closed_concat(nwj + repeat_chars(nj, k), nej);
    } else {
        crate::width::lemma_closed_concat(nwj, nej);
    }
}

proof fn lemma_bottom_row_closed(style: &BalloonStyle, w: nat, j: int)
    requires
        uniform_style(style),
        0 <= j < style.s.deep_view().len(),
    ensures
        closed(bottom_row(style, w, j)),
{
    let swj = row_or_empty(style.sw.deep_view(), j);
    let sej = row_or_empty(style.se.deep_view(), j);
    let sswj = row_or_empty(style.ssw.deep_view(), j);
    let ssej = row_or_empty(style.sse.deep_view(), j);
    let sj = row_or_empty(style.s.deep_view(), j);
    lemma_row_or_empty_closed(style.sw.deep_view(), j);
    lemma_row_or_empty_closed(style.se.deep_view(), j);
    lemma_row_or_empty_closed(style.ssw.deep_view(), j);
    lemma_row_or_empty_closed(style.sse.deep_view(), j);
    assert(closed(sj));
    let outer = vis_width(swj) + vis_width(sej);
    let inner = vis_width(sswj) + vis_width(ssej);
    if outer + inner <= w {
        let k = ssub(w, (outer + inner) as nat);
        lemma_repeat_props(sj, k);
        crate::width::lemma_closed_concat(swj, sswj);
        crate::width::lemma_closed_concat(swj + sswj, repeat_chars(sj, k));
        crate::width::lemma_closed_concat(swj + sswj + repeat_chars(sj, k), ssej);
        crate::width::lemma_closed_concat(swj + sswj + repeat_chars(sj, k) + ssej, sej);
    } else if outer <= w {
        let k = ssub(w, outer as nat);
        lemma_repeat_props(sj, k);
        crate::width::lemma_closed_concat(swj, repeat_chars(sj, k));
        crate::width::lemma_closed_concat(swj + repeat_chars(sj, k), sej);
    } else {
        crate::width::lemma_closed_concat(swj, sej);
    }
}

proof fn lemma_content_row_closed(style: &BalloonStyle, w: nat, lines: Seq<Seq<char>>, idx: int)
    requires
        uniform_style(style),
        rows_closed(lines),
        0 <= idx < lines.len(),
    ensures
        closed(content_row(style, w, lines, idx)),
{
    let line = lines[idx];
    let left = left_glyph(style, lines.len() as int, idx);
    let right = right_glyph(style, lines.len() as int, idx);
    let pad = ssub(ssub(ssub(w, vis_width(line)), vis_width(left)), vis_width(right));
    assert(closed(left));
    assert(closed(right));
    assert(crate::width::esc_free(spaces(pad))) by {
        assert(forall|i: int| 0 <= i < pad ==> #[trigger] spaces(pad)[i] == ' ');
    }
    lemma_esc_free_closed(spaces(pad));
    crate::width::lemma_closed_concat(left, line);
    crate::width::lemma_closed_concat(left + line, spaces(pad));
    crate::width::lemma_closed_concat(left + line + spaces(pad), right);
}

/// The fully rendered balloon for `message`: the message wrapped to the
/// width left inside the border (at least one column), each wrapped line
/// sealed with an SGR reset, bordered by the style, and every border row
/// bracketed in SGR resets.
pub open spec fn render_balloon_spec(style: &BalloonStyle, m: Seq<char>, width: nat) -> Seq<
    Seq<char>,
> {
    let target = nmax(1, ssub(width, style.min_width as nat));
    let wrapped = crate::wrap::wrap_spec(m, target).map_values(|l: Seq<char>| l + sgr_reset());
    render_spec(style, 0, wrapped).map_values(|row: Seq<char>| sgr_reset() + row + sgr_reset())
}

/// Wrap `message` to fit inside the balloon at `width` total columns and
/// draw the border around it.
pub fn render_balloon(message: &str, width: usize, style: &BalloonStyle) -> (r: Vec<String>)
    requires
        message@.len() <= crate::width::MAX_MSG,
        style.bounds_ok(),
    ensures
        r.deep_view() == render_balloon_spec(style, message@, width as nat),
        uniform_style(style) && crate::width::esc_free(message@) ==> forall|p: int, q: int|
            0 <= p < r@.len() && 0 <= q < r@.len() ==> vis_width(#[trigger] r.deep_view()[p])
                == vis_width(#[trigger] r.deep_view()[q]),
{
    proof {
        reveal_strlit("\u{1b}[0m");
    }
    let target0 = sat_sub(width, style.min_width);
    let target = if target0 < 1 {
        1
    } else {
        target0
    };
    proof {
        assert(target as nat == nmax(1, ssub(width as nat, style.min_width as nat)));
    }
    let wrapped0 = wrap_message(message, target);
    let ghost ws = crate::wrap::wrap_spec(message@, target as nat);
    let n0: usize = wrapped0.len();
    let mut wrapped: Vec<String> = Vec::new();
    let mut i: usize = 0;
    while i < n0
        invariant
            i <= n0,
            n0 == wrapped0@.len(),
            wrapped0.deep_view() == ws,
            forall|t: int| 0 <= t < ws.len() ==> (#[trigger] ws[t]).len() <= message@.len(),
            message@.len() <= crate::width::MAX_MSG,
            sgr_reset().len() == 4,
            wrapped@.len() == i,
            forall|t: int|
                0 <= t < i ==> #[trigger] wrapped.deep_view()[t] == ws[t] + sgr_reset(),
        decreases n0 - i,
    {
        let ghost prev = wrapped;
        let mut l = String::from_str(wrapped0[i].as_str());
        l.append("\u{1b}[0m");
        let ghost l_snap = l;
        wrapped.push(l);
        proof {
            lemma_deep_push_str(prev, wrapped, l_snap);
            assert(wrapped0@[i as int]@ == ws[i as int]);
            assert(wrapped.deep_view()[i as int] == ws[i as int] + sgr_reset());
        }
        i = i + 1;
    }
    let ghost wl = ws.map_values(|l: Seq<char>| l + sgr_reset());
    proof {
        assert(wrapped.deep_view() =~= wl);
        assert forall|t: int| 0 <= t < wl.len() implies (#[trigger] wl[t]).len()
            <= MAX_TEXT by {
            assert(wl[t] == ws[t] + sgr_reset());
        }
    }
    let rows = style.render(0, &wrapped);
    let rn: usize = rows.len();
    let mut out: Vec<String> = Vec::new();
    let mut q: usize = 0;
    let ghost rv = render_spec(style, 0, wl);
    while q < rn
        invariant
            q <= rn,
            rn == rows@.len(),
            rows.deep_view() == rv,
            out@.len() == q,
            forall|t: int|
                0 <= t < q ==> #[trigger] out.deep_view()[t] == sgr_reset() + rv[t] + sgr_reset(),
        decreases rn - q,
    {
        let ghost prev = out;
        let mut l = String::from_str("\u{1b}[0m");
        l.append(rows[q].as_str());
        l.append("\u{1b}[0m");
        let ghost l_snap = l;
        out.push(l);
        proof {
            lemma_deep_push_str(prev, out, l_snap);
            assert(rows@[q as int]@ == rv[q as int]);
            assert(out.deep_view()[q as int] == sgr_reset() + rv[q as int] + sgr_reset());
        }
        q = q + 1;
    }
    proof {
        assert(out.deep_view() =~= rv.map_values(|row: Seq<char>| sgr_reset() + row + sgr_reset()));
        if uniform_style(style) && crate::width::esc_free(message@) {
            lemma_reset_closed();
            crate::wrap::lemma_wrap_spec_esc_free(message@, target as nat);
            assert(rows_closed(wl)) by {
                assert forall|t: int| 0 <= t < wl.len() implies closed(#[trigger] wl[t]) by {
                    assert(wl[t] == ws[t] + sgr_reset());
                    lemma_esc_free_closed(ws[t]);
                    crate::width::lemma_closed_concat(ws[t], sgr_reset());
                }
            }
            lemma_render_rows_closed(style, 0, wl);
            let bw = balloon_width(style, 0, wl);
            assert forall|p: int| 0 <= p < out@.len() implies vis_width(
                #[trigger] out.deep_view()[p],
            ) == bw by {
                assert(rows.deep_view()[p] == rv[p]);
                assert(vis_width(rv[p]) == bw);
                assert(closed(rv[p]));
                assert(out.deep_view()[p] == sgr_reset() + rv[p] + sgr_reset());
                lemma_vis_width_additive(sgr_reset(), rv[p]);
                crate::width::lemma_closed_concat(sgr_reset(), rv[p]);
                lemma_vis_width_additive(sgr_reset() + rv[p], sgr_reset());
                assert(sgr_reset() + rv[p] + sgr_reset() == (sgr_reset() + rv[p]) + sgr_reset());
            }
        }
    }
    out
}

} // verus!
