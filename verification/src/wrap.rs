//! Width-aware word wrapping.
//!
//! A message is wrapped line by line: blank source lines survive as single
//! empty output lines; within a line, whitespace-separated words are packed
//! greedily onto output lines so that each line's visible width stays within
//! the target, and a single word too wide for the target is split at
//! code-point boundaries.

use vstd::prelude::*;

use crate::text::{
    all_space, copy_chars, chars_to_string, is_blank, is_space, is_space_char, lemma_split_lines_len,
    split_lines,
    split_lines_chars, str_chars, sub_chars, push_all, lemma_deep_push, lemma_deep_push_str,
    lemma_char_vec_deep,
};
use crate::width::{char_sum, char_width, char_width_of, esc_free, lemma_vis_width_le_char_sum,
    vis_width, visible_width_chars, MAX_TEXT};

verus! {

/// Position of the first non-whitespace code point at or after `i`, or the
/// end of the line.
pub open spec fn skip_spaces(s: Seq<char>, i: int) -> int
    decreases s.len() - i,
{
    if i < 0 || i >= s.len() {
        s.len() as int
    } else if is_space_char(s[i]) {
        skip_spaces(s, i + 1)
    } else {
        i
    }
}

/// Position of the first whitespace code point at or after `i`, or the end
/// of the line: the exclusive end of a word that starts at `i`.
pub open spec fn word_end(s: Seq<char>, i: int) -> int
    decreases s.len() - i,
{
    if i < 0 || i >= s.len() {
        s.len() as int
    } else if is_space_char(s[i]) {
        i
    } else {
        word_end(s, i + 1)
    }
}

pub proof fn lemma_word_end_bounds(s: Seq<char>, i: int)
    requires
        0 <= i <= s.len(),
    ensures
        i <= word_end(s, i) <= s.len(),
        word_end(s, i) < s.len() ==> is_space_char(s[word_end(s, i)]),
        forall|j: int| i <= j < word_end(s, i) ==> !is_space_char(#[trigger] s[j]),
    decreases s.len() - i,
{
    if i < s.len() && !is_space_char(s[i]) {
        lemma_word_end_bounds(s, i + 1);
    }
}

/// The whitespace-separated words of `s` from position `i` on: maximal runs
/// of non-whitespace code points, in order.
pub open spec fn words_from(s: Seq<char>, i: int) -> Seq<Seq<char>>
    decreases s.len() - i,
    via words_from_decreases
{
    if i < 0 || i >= s.len() {
        Seq::empty()
    } else if is_space_char(s[i]) {
        words_from(s, i + 1)
    } else {
        seq![s.subrange(i, word_end(s, i))] + words_from(s, word_end(s, i))
    }
}

#[via_fn]
proof fn words_from_decreases(s: Seq<char>, i: int) {
    if 0 <= i < s.len() && !is_space_char(s[i]) {
        lemma_word_end_bounds(s, i);
        assert(word_end(s, i) > i);
    }
}

/// The whitespace-separated words of `s`.
pub open spec fn words_of(s: Seq<char>) -> Seq<Seq<char>> {
    words_from(s, 0)
}

/// The lines produced by splitting an over-wide word, read from position `i`
/// with the line under construction `cur` of accumulated column count
/// `curw`: code points accumulate while their summed column count stays
/// within `width`; a code point that would overflow a non-empty line flushes
/// it and opens the next.
pub open spec fn hard_wrap_from(
    w: Seq<char>,
    width: nat,
    i: int,
    cur: Seq<char>,
    curw: nat,
) -> Seq<Seq<char>>
    decreases w.len() - i,
{
    if i < 0 || i >= w.len() {
        if cur.len() > 0 {
            seq![cur]
        } else {
            Seq::empty()
        }
    } else {
        let cw = char_width_of(w[i]);
        if curw + cw > width && cur.len() > 0 {
            seq![cur] + hard_wrap_from(w, width, i + 1, seq![w[i]], cw)
        } else {
            hard_wrap_from(w, width, i + 1, cur.push(w[i]), (curw + cw) as nat)
        }
    }
}

/// The lines produced by splitting the over-wide word `w` at code-point
/// boundaries by accumulated column count.
pub open spec fn hard_wrap_spec(w: Seq<char>, width: nat) -> Seq<Seq<char>> {
    hard_wrap_from(w, width, 0, Seq::empty(), 0)
}

/// Split the word `w` into lines at code-point boundaries: each line takes
/// code points while its accumulated column count stays within `width`.
pub fn hard_wrap(w: &Vec<char>, width: usize) -> (r: Vec<Vec<char>>)
    requires
        w@.len() <= MAX_TEXT,
    ensures
        r.deep_view() == hard_wrap_spec(w@, width as nat),
        forall|p: int|
            0 <= p < r@.len() ==> (#[trigger] r.deep_view()[p]).len() <= w@.len(),
{
    let len: usize = w.len();
    let mut r: Vec<Vec<char>> = Vec::new();
    let mut cur: Vec<char> = Vec::new();
    let mut curw: usize = 0;
    let mut i: usize = 0;
    proof {
        assert(r.deep_view() =~= Seq::<Seq<char>>::empty());
    }
    while i < len
        invariant
            i <= len,
            len == w@.len() <= MAX_TEXT,
            cur@.len() <= i,
            curw <= 3 * i,
            forall|p: int|
                0 <= p < r@.len() ==> (#[trigger] r.deep_view()[p]).len() <= w@.len(),
            curw as nat == char_sum(cur@),
            hard_wrap_spec(w@, width as nat) == r.deep_view() + hard_wrap_from(
                w@,
                width as nat,
                i as int,
                cur@,
                curw as nat,
            ),
        decreases len - i,
    {
        let c = w[i];
        let cw = char_width(c);
        let ghost prev = r;
        let ghost prev_cur = cur@;
        if curw + cw > width && cur.len() > 0 {
            let ghost cur_snap = cur;
            r.push(cur);
            proof {
                lemma_deep_push(prev, r, cur_snap);
            }
            cur = Vec::new();
            cur.push(c);
            curw = cw;
            proof {
                assert(cur@ =~= seq![w@[i as int]]);
                assert(char_sum(cur@) == char_width_of(w@[i as int]) + char_sum(
                    cur@.skip(1),
                ));
                assert(cur@.skip(1) =~= Seq::<char>::empty());
            }
        } else {
            let ghost old_cur = cur@;
            cur.push(c);
            curw = curw + cw;
            proof {
                lemma_char_sum_push(old_cur, w@[i as int]);
            }
        }
        i = i + 1;
    }
    if cur.len() > 0 {
        let ghost prev = r;
        let ghost cur_snap = cur;
        r.push(cur);
        proof {
            lemma_deep_push(prev, r, cur_snap);
        }
    }
    r
}

/// One step of the greedy packer: the effect of the next word `w` on the
/// finished lines `out` and the line under construction `cur`.  A word joins
/// the current line only if the joined line's visible width stays within
/// `width`; otherwise the current line is flushed and the word starts the
/// next one, hard-split when it cannot fit a line of its own.
pub open spec fn wrap_step(
    out: Seq<Seq<char>>,
    cur: Seq<char>,
    w: Seq<char>,
    width: nat,
) -> (Seq<Seq<char>>, Seq<char>) {
    if cur.len() == 0 {
        if vis_width(w) <= width {
            (out, w)
        } else {
            (out + hard_wrap_spec(w, width), Seq::<char>::empty())
        }
    } else {
        let cand = cur + seq![' '] + w;
        if vis_width(cand) <= width {
            (out, cand)
        } else if vis_width(w) <= width {
            (out.push(cur), w)
        } else {
            (out.push(cur) + hard_wrap_spec(w, width), Seq::<char>::empty())
        }
    }
}

/// The packer state after the first `k` words of `ws`.
pub open spec fn wrap_fold(ws: Seq<Seq<char>>, width: nat, k: int) -> (Seq<Seq<char>>, Seq<char>)
    decreases k,
{
    if k <= 0 {
        (Seq::<Seq<char>>::empty(), Seq::<char>::empty())
    } else {
        let st = wrap_fold(ws, width, k - 1);
        wrap_step(st.0, st.1, ws[k - 1], width)
    }
}

/// The wrapped form of one source line: a blank line survives as exactly one
/// empty line; any other line is its words packed greedily.
pub open spec fn wrap_line_spec(line: Seq<char>, width: nat) -> Seq<Seq<char>> {
    if all_space(line) {
        seq![Seq::<char>::empty()]
    } else {
        let ws = words_of(line);
        let st = wrap_fold(ws, width, ws.len() as int);
        if st.1.len() > 0 {
            st.0.push(st.1)
        } else {
            st.0
        }
    }
}

/// The wrapped lines of a sequence of source lines, in source order.
pub open spec fn wrap_lines_spec(lines: Seq<Seq<char>>, width: nat) -> Seq<Seq<char>>
    decreases lines.len(),
{
    if lines.len() == 0 {
        Seq::empty()
    } else {
        wrap_line_spec(lines.first(), width) + wrap_lines_spec(lines.drop_first(), width)
    }
}

/// The wrapped form of a whole message: every source line wrapped in order,
/// and never an empty result — a message with no lines yields one empty
/// line.
pub open spec fn wrap_spec(m: Seq<char>, width: nat) -> Seq<Seq<char>> {
    let all = wrap_lines_spec(split_lines(m), width);
    if all.len() == 0 {
        seq![Seq::<char>::empty()]
    } else {
        all
    }
}

/// A wrapped line fits: it is within the target width, or it is a single
/// code point that no split could narrow.
pub open spec fn line_fits(l: Seq<char>, width: nat) -> bool {
    vis_width(l) <= width || l.len() == 1
}

proof fn lemma_char_sum_push(s: Seq<char>, c: char)
    ensures
        char_sum(s.push(c)) == char_sum(s) + char_width_of(c),
    decreases s.len(),
{
    let t = s.push(c);
    assert(t.len() == s.len() + 1);
    assert(char_sum(t) == char_width_of(t[0]) + char_sum(t.skip(1)));
    if s.len() == 0 {
        assert(t.skip(1) =~= Seq::<char>::empty());
        assert(t[0] == c);
        assert(char_sum(Seq::<char>::empty()) == 0);
        assert(char_sum(s) == 0);
    } else {
        assert(t[0] == s[0]);
        assert(t.skip(1) =~= s.skip(1).push(c));
        lemma_char_sum_push(s.skip(1), c);
        assert(char_sum(s) == char_width_of(s[0]) + char_sum(s.skip(1)));
    }
}

proof fn lemma_hard_wrap_from_fits(w: Seq<char>, width: nat, i: int, cur: Seq<char>, curw: nat)
    requires
        char_sum(cur) == curw,
        curw <= width || cur.len() == 1,
    ensures
        forall|p: int|
            0 <= p < hard_wrap_from(w, width, i, cur, curw).len() ==> line_fits(
                #[trigger] hard_wrap_from(w, width, i, cur, curw)[p],
                width,
            ),
    decreases w.len() - i,
{
    let res = hard_wrap_from(w, width, i, cur, curw);
    if i < 0 || i >= w.len() {
        if cur.len() > 0 {
            lemma_vis_width_le_char_sum(cur);
        }
        assert forall|p: int| 0 <= p < res.len() implies line_fits(#[trigger] res[p], width) by {
            assert(res[p] == cur);
        }
    } else {
        let cw = char_width_of(w[i]);
        if curw + cw > width && cur.len() > 0 {
            lemma_vis_width_le_char_sum(cur);
            lemma_char_sum_push(Seq::<char>::empty(), w[i]);
            assert(Seq::<char>::empty().push(w[i]) =~= seq![w[i]]);
            lemma_hard_wrap_from_fits(w, width, i + 1, seq![w[i]], cw);
            let rec = hard_wrap_from(w, width, i + 1, seq![w[i]], cw);
            assert forall|p: int| 0 <= p < res.len() implies line_fits(
                #[trigger] res[p],
                width,
            ) by {
                if p == 0 {
                    assert(res[p] == cur);
                } else {
                    assert(res[p] == rec[p - 1]);
                }
            }
        } else {
            lemma_char_sum_push(cur, w[i]);
            lemma_hard_wrap_from_fits(w, width, i + 1, cur.push(w[i]), (curw + cw) as nat);
            let rec = hard_wrap_from(w, width, i + 1, cur.push(w[i]), (curw + cw) as nat);
            assert forall|p: int| 0 <= p < res.len() implies line_fits(
                #[trigger] res[p],
                width,
            ) by {
                assert(res[p] == rec[p]);
            }
        }
    }
}

proof fn lemma_wrap_fold_fits(ws: Seq<Seq<char>>, width: nat, k: int)
    ensures
        vis_width(wrap_fold(ws, width, k).1) <= width,
        forall|p: int|
            0 <= p < wrap_fold(ws, width, k).0.len() ==> line_fits(
                #[trigger] wrap_fold(ws, width, k).0[p],
                width,
            ),
    decreases k,
{
    if k <= 0 {
    } else {
        lemma_wrap_fold_fits(ws, width, k - 1);
        let st = wrap_fold(ws, width, k - 1);
        let w = ws[k - 1];
        if st.1.len() == 0 {
            if !(vis_width(w) <= width) {
                lemma_hard_wrap_from_fits(w, width, 0, Seq::<char>::empty(), 0);
            }
        } else {
            let cand = st.1 + seq![' '] + w;
            if vis_width(cand) <= width {
            } else if vis_width(w) <= width {
            } else {
                lemma_hard_wrap_from_fits(w, width, 0, Seq::<char>::empty(), 0);
            }
        }
    }
}

/// Every line the wrapper produces fits the target width, except a line
/// reduced to a single code point that is itself wider than the target.
pub proof fn lemma_wrap_line_fits(line: Seq<char>, width: nat)
    ensures
        forall|p: int|
            0 <= p < wrap_line_spec(line, width).len() ==> line_fits(
                #[trigger] wrap_line_spec(line, width)[p],
                width,
            ),
{
    if all_space(line) {
    } else {
        let ws = words_of(line);
        lemma_wrap_fold_fits(ws, width, ws.len() as int);
    }
}

proof fn lemma_wrap_lines_fits(lines: Seq<Seq<char>>, width: nat)
    ensures
        forall|p: int|
            0 <= p < wrap_lines_spec(lines, width).len() ==> line_fits(
                #[trigger] wrap_lines_spec(lines, width)[p],
                width,
            ),
    decreases lines.len(),
{
    if lines.len() > 0 {
        lemma_wrap_line_fits(lines.first(), width);
        lemma_wrap_lines_fits(lines.drop_first(), width);
        let head = wrap_line_spec(lines.first(), width);
        let tail = wrap_lines_spec(lines.drop_first(), width);
        let res = wrap_lines_spec(lines, width);
        assert forall|p: int| 0 <= p < res.len() implies line_fits(res[p], width) by {
            if p < head.len() {
                assert(res[p] == head[p]);
            } else {
                assert(res[p] == tail[p - head.len()]);
            }
        }
    }
}

/// Every line of the wrapped message fits the target width, unless it is a
/// single code point.
pub proof fn lemma_wrap_spec_fits(m: Seq<char>, width: nat)
    ensures
        forall|p: int|
            0 <= p < wrap_spec(m, width).len() ==> line_fits(
                #[trigger] wrap_spec(m, width)[p],
                width,
            ),
{
    lemma_wrap_lines_fits(split_lines(m), width);
}

/// A blank source line wraps to exactly one empty output line.
pub proof fn lemma_blank_line_one_empty(line: Seq<char>, width: nat)
    requires
        all_space(line),
    ensures
        wrap_line_spec(line, width) == seq![Seq::<char>::empty()],
{
}

/// Every source line of a message contributes at least one output line.
pub proof fn lemma_wrap_line_nonempty(line: Seq<char>, width: nat)
    ensures
        wrap_line_spec(line, width).len() >= 1,
{
    if !all_space(line) {
        lemma_words_of_nonblank(line);
        lemma_words_from_nonempty(line, 0);
        let ws = words_of(line);
        lemma_wrap_fold_some(ws, width, ws.len() as int);
    }
}

proof fn lemma_wrap_fold_some(ws: Seq<Seq<char>>, width: nat, k: int)
    requires
        1 <= k <= ws.len(),
        forall|p: int| 0 <= p < ws.len() ==> (#[trigger] ws[p]).len() >= 1,
    ensures
        wrap_fold(ws, width, k).0.len() + wrap_fold(ws, width, k).1.len() >= 1,
    decreases k,
{
    let st = wrap_fold(ws, width, k - 1);
    let w = ws[k - 1];
    if k > 1 {
        lemma_wrap_fold_some(ws, width, k - 1);
    }
    if st.1.len() == 0 {
        if !(vis_width(w) <= width) {
            lemma_hard_wrap_from_some(w, width, 0, Seq::<char>::empty(), 0);
        }
    }
}

proof fn lemma_hard_wrap_from_some(w: Seq<char>, width: nat, i: int, cur: Seq<char>, curw: nat)
    requires
        0 <= i,
        i < w.len() || cur.len() > 0,
    ensures
        hard_wrap_from(w, width, i, cur, curw).len() >= 1,
    decreases w.len() - i,
{
    if i < w.len() {
        let cw = char_width_of(w[i]);
        if curw + cw > width && cur.len() > 0 {
        } else {
            lemma_hard_wrap_from_some(w, width, i + 1, cur.push(w[i]), (curw + cw) as nat);
        }
    }
}

/// The words of a line that is not all whitespace: at least one, and none
/// empty.
pub proof fn lemma_words_of_nonblank(line: Seq<char>)
    requires
        !all_space(line),
    ensures
        words_of(line).len() >= 1,
{
    lemma_words_from_found(line, 0);
}

proof fn lemma_words_from_found(s: Seq<char>, i: int)
    requires
        0 <= i <= s.len(),
        exists|j: int| i <= j < s.len() && !is_space_char(#[trigger] s[j]),
    ensures
        words_from(s, i).len() >= 1,
    decreases s.len() - i,
{
    let j = choose|j: int| i <= j < s.len() && !is_space_char(#[trigger] s[j]);
    if is_space_char(s[i]) {
        assert(i + 1 <= j);
        lemma_words_from_found(s, i + 1);
    }
}

/// No word is empty: each is a maximal run of at least one non-whitespace
/// code point.
pub proof fn lemma_words_from_nonempty(s: Seq<char>, i: int)
    requires
        0 <= i <= s.len(),
    ensures
        forall|p: int|
            0 <= p < words_from(s, i).len() ==> (#[trigger] words_from(s, i)[p]).len() >= 1,
    decreases s.len() - i,
{
    let res = words_from(s, i);
    if i >= s.len() {
    } else if is_space_char(s[i]) {
        lemma_words_from_nonempty(s, i + 1);
        assert forall|p: int| 0 <= p < res.len() implies (#[trigger] res[p]).len() >= 1 by {
            assert(res[p] == words_from(s, i + 1)[p]);
        }
    } else {
        lemma_word_end_bounds(s, i);
        lemma_words_from_nonempty(s, word_end(s, i));
        assert(word_end(s, i) > i);
        let rec = words_from(s, word_end(s, i));
        assert forall|p: int| 0 <= p < res.len() implies (#[trigger] res[p]).len() >= 1 by {
            if p == 0 {
                assert(res[p] == s.subrange(i, word_end(s, i)));
            } else {
                assert(res[p] == rec[p - 1]);
            }
        }
    }
}

proof fn lemma_lines_bound_concat(a: Seq<Seq<char>>, b: Seq<Seq<char>>, bound: int)
    requires
        forall|p: int| 0 <= p < a.len() ==> (#[trigger] a[p]).len() <= bound,
        forall|p: int| 0 <= p < b.len() ==> (#[trigger] b[p]).len() <= bound,
    ensures
        forall|p: int| 0 <= p < (a + b).len() ==> (#[trigger] (a + b)[p]).len() <= bound,
{
    assert forall|p: int| 0 <= p < (a + b).len() implies (#[trigger] (a + b)[p]).len()
        <= bound by {
        if p < a.len() {
            assert((a + b)[p] == a[p]);
        } else {
            assert((a + b)[p] == b[p - a.len()]);
        }
    }
}

/// A word proper: non-empty, with no whitespace inside.
pub open spec fn wordish(w: Seq<char>) -> bool {
    w.len() > 0 && forall|q: int| 0 <= q < w.len() ==> !is_space_char(#[trigger] w[q])
}

/// The words of the given lines, concatenated in line order.
pub open spec fn flat_words(lines: Seq<Seq<char>>) -> Seq<Seq<char>>
    decreases lines.len(),
{
    if lines.len() == 0 {
        Seq::empty()
    } else {
        words_of(lines.first()) + flat_words(lines.drop_first())
    }
}

/// Words joined by single spaces: the shape of every line the greedy
/// packer accumulates.
pub open spec fn join_spaced(ws: Seq<Seq<char>>) -> Seq<char>
    decreases ws.len(),
{
    if ws.len() == 0 {
        Seq::empty()
    } else if ws.len() == 1 {
        ws[0]
    } else {
        ws[0] + seq![' '] + join_spaced(ws.drop_first())
    }
}

/// Every word the tokenizer yields is a word proper.
pub proof fn lemma_words_from_wordish(s: Seq<char>, i: int)
    requires
        0 <= i <= s.len(),
    ensures
        forall|p: int|
            0 <= p < words_from(s, i).len() ==> wordish(#[trigger] words_from(s, i)[p]),
    decreases s.len() - i,
{
    let res = words_from(s, i);
    if i >= s.len() {
    } else if is_space_char(s[i]) {
        lemma_words_from_wordish(s, i + 1);
        assert forall|p: int| 0 <= p < res.len() implies wordish(#[trigger] res[p]) by {
            assert(res[p] == words_from(s, i + 1)[p]);
        }
    } else {
        lemma_word_end_bounds(s, i);
        let we = word_end(s, i);
        lemma_words_from_wordish(s, we);
        let rec = words_from(s, we);
        assert forall|p: int| 0 <= p < res.len() implies wordish(#[trigger] res[p]) by {
            if p == 0 {
                assert(res[p] == s.subrange(i, we));
                assert(forall|q: int|
                    0 <= q < we - i ==> #[trigger] s.subrange(i, we)[q] == s[i + q]);
            } else {
                assert(res[p] == rec[p - 1]);
            }
        }
    }
}

/// An all-whitespace line has no words.
proof fn lemma_all_space_no_words(s: Seq<char>, i: int)
    requires
        0 <= i <= s.len(),
        all_space(s),
    ensures
        words_from(s, i) == Seq::<Seq<char>>::empty(),
    decreases s.len() - i,
{
    if i < s.len() {
        lemma_all_space_no_words(s, i + 1);
    }
}

proof fn lemma_word_end_value(u: Seq<char>, i: int, m: int)
    requires
        0 <= i <= m <= u.len(),
        forall|q: int| i <= q < m ==> !is_space_char(#[trigger] u[q]),
        m == u.len() || is_space_char(u[m]),
    ensures
        word_end(u, i) == m,
    decreases m - i,
{
    if i < m {
        lemma_word_end_value(u, i + 1, m);
    }
}

proof fn lemma_word_end_shift(s: Seq<char>, p: int, i: int)
    requires
        0 <= p,
        0 <= i,
        p + i <= s.len(),
    ensures
        word_end(s, p + i) == p + word_end(s.skip(p), i),
    decreases s.len() - p - i,
{
    let t = s.skip(p);
    if p + i < s.len() {
        assert(t[i] == s[p + i]);
        if !is_space_char(s[p + i]) {
            lemma_word_end_shift(s, p, i + 1);
        }
    }
}

proof fn lemma_words_from_shift(s: Seq<char>, p: int, i: int)
    requires
        0 <= p,
        0 <= i,
        p + i <= s.len(),
    ensures
        words_from(s, p + i) == words_from(s.skip(p), i),
    decreases s.len() - p - i,
{
    let t = s.skip(p);
    if p + i >= s.len() {
    } else if is_space_char(s[p + i]) {
        assert(t[i] == s[p + i]);
        lemma_words_from_shift(s, p, i + 1);
    } else {
        assert(t[i] == s[p + i]);
        lemma_word_end_shift(s, p, i);
        lemma_word_end_bounds(s, p + i);
        let we = word_end(s, p + i);
        assert(we > p + i) by {
            assert(word_end(s, p + i) == word_end(s, p + i + 1));
            lemma_word_end_bounds(s, p + i + 1);
        }
        assert(s.subrange(p + i, we) =~= t.subrange(i, we - p));
        lemma_words_from_shift(s, p, we - p);
        assert(words_from(s, p + i) == seq![s.subrange(p + i, we)] + words_from(s, we));
        assert(words_from(t, i) == seq![t.subrange(i, we - p)] + words_from(t, we - p));
    }
}

proof fn lemma_join_spaced_push(ws: Seq<Seq<char>>, w: Seq<char>)
    ensures
        join_spaced(ws.push(w)) == if ws.len() == 0 {
            w
        } else {
            join_spaced(ws) + seq![' '] + w
        },
    decreases ws.len(),
{
    let p = ws.push(w);
    if ws.len() == 0 {
        assert(p.len() == 1);
        assert(p[0] == w);
    } else {
        assert(p[0] == ws[0]);
        assert(p.drop_first() =~= ws.drop_first().push(w));
        lemma_join_spaced_push(ws.drop_first(), w);
        if ws.len() == 1 {
            assert(join_spaced(ws) == ws[0]);
            assert(join_spaced(p) == p[0] + seq![' '] + join_spaced(p.drop_first()));
        } else {
            assert(join_spaced(p) == p[0] + seq![' '] + join_spaced(p.drop_first()));
            assert(ws[0] + seq![' '] + (join_spaced(ws.drop_first()) + seq![' '] + w) =~= (ws[0]
                + seq![' '] + join_spaced(ws.drop_first())) + seq![' '] + w);
        }
    }
}

proof fn lemma_join_spaced_nonempty(ws: Seq<Seq<char>>)
    requires
        ws.len() > 0,
        forall|p: int| 0 <= p < ws.len() ==> wordish(#[trigger] ws[p]),
    ensures
        join_spaced(ws).len() > 0,
{
    if ws.len() == 1 {
        assert(wordish(ws[0]));
    } else {
        assert(wordish(ws[0]));
    }
}

/// Tokenizing a space-joined list of words gives back exactly those words.
proof fn lemma_words_of_join(ws: Seq<Seq<char>>)
    requires
        forall|p: int| 0 <= p < ws.len() ==> wordish(#[trigger] ws[p]),
    ensures
        words_of(join_spaced(ws)) == ws,
    decreases ws.len(),
{
    if ws.len() == 0 {
        assert(words_of(Seq::<char>::empty()) =~= Seq::<Seq<char>>::empty());
        assert(ws =~= Seq::<Seq<char>>::empty());
    } else if ws.len() == 1 {
        let w = ws[0];
        assert(wordish(w));
        lemma_word_end_value(w, 0, w.len() as int);
        assert(w.subrange(0, w.len() as int) =~= w);
        assert(words_of(w) == seq![w] + words_from(w, w.len() as int));
        assert(words_from(w, w.len() as int) == Seq::<Seq<char>>::empty());
        assert(seq![w] + Seq::<Seq<char>>::empty() =~= seq![w]);
        assert(ws =~= seq![w]);
    } else {
        let w = ws[0];
        let rest = ws.drop_first();
        assert(forall|p: int| 0 <= p < rest.len() ==> rest[p] == ws[p + 1]);
        assert(forall|p: int| 0 <= p < rest.len() ==> wordish(#[trigger] rest[p]));
        lemma_words_of_join(rest);
        let t = join_spaced(rest);
        let u = w + seq![' '] + t;
        assert(forall|q: int| 0 <= q < w.len() ==> u[q] == w[q]);
        assert(forall|q: int| 0 <= q < w.len() ==> !is_space_char(#[trigger] u[q]));
        assert(u[w.len() as int] == ' ');
        lemma_word_end_value(u, 0, w.len() as int);
        assert(u.subrange(0, w.len() as int) =~= w);
        assert(words_of(u) == seq![u.subrange(0, w.len() as int)] + words_from(
            u,
            w.len() as int,
        ));
        assert(words_from(u, w.len() as int) == words_from(u, w.len() as int + 1));
        assert(u.skip(w.len() as int + 1) =~= t);
        lemma_words_from_shift(u, w.len() as int + 1, 0);
        assert(words_from(u, w.len() as int + 1) == words_of(t));
        assert(words_of(u) =~= seq![w] + rest);
        assert(seq![w] + rest =~= ws);
        assert(join_spaced(ws) == u);
    }
}

proof fn lemma_flat_words_push(lines: Seq<Seq<char>>, l: Seq<char>)
    ensures
        flat_words(lines.push(l)) == flat_words(lines) + words_of(l),
    decreases lines.len(),
{
    let p = lines.push(l);
    if lines.len() == 0 {
        assert(p.len() == 1);
        assert(p.first() == l);
        assert(p.drop_first() =~= Seq::<Seq<char>>::empty());
        assert(flat_words(p) == words_of(l) + flat_words(p.drop_first()));
        assert(words_of(l) + Seq::<Seq<char>>::empty() =~= words_of(l));
        assert(Seq::<Seq<char>>::empty() + words_of(l) =~= words_of(l));
        assert(flat_words(lines) == Seq::<Seq<char>>::empty());
    } else {
        assert(p.len() == lines.len() + 1);
        assert(p.first() == lines.first());
        assert(p.drop_first() =~= lines.drop_first().push(l));
        lemma_flat_words_push(lines.drop_first(), l);
        assert(flat_words(p) == words_of(lines.first()) + flat_words(p.drop_first()));
        assert(flat_words(p.drop_first()) == flat_words(lines.drop_first()) + words_of(l));
        assert(words_of(lines.first()) + (flat_words(lines.drop_first()) + words_of(l))
            =~= (words_of(lines.first()) + flat_words(lines.drop_first())) + words_of(l));
        assert(flat_words(lines) == words_of(lines.first()) + flat_words(lines.drop_first()));
    }
}

proof fn lemma_wrap_fold_word_segments(ws: Seq<Seq<char>>, width: nat, k: int)
    requires
        0 <= k <= ws.len(),
        forall|p: int| 0 <= p < ws.len() ==> wordish(#[trigger] ws[p]),
        forall|p: int| 0 <= p < ws.len() ==> vis_width(#[trigger] ws[p]) <= width,
    ensures
        exists|k0: int|
            {
                &&& 0 <= k0 <= k
                &&& flat_words(#[trigger] wrap_fold(ws, width, k).0) == ws.take(k0)
                &&& wrap_fold(ws, width, k).1 == join_spaced(ws.subrange(k0, k))
            },
    decreases k,
{
    if k == 0 {
        let k0: int = 0;
        assert(flat_words(wrap_fold(ws, width, 0).0) =~= ws.take(0));
        assert(ws.subrange(0, 0) =~= Seq::<Seq<char>>::empty());
    } else {
        lemma_wrap_fold_word_segments(ws, width, k - 1);
        let st = wrap_fold(ws, width, k - 1);
        let k0 = choose|k0: int|
            {
                &&& 0 <= k0 <= k - 1
                &&& flat_words(#[trigger] wrap_fold(ws, width, k - 1).0) == ws.take(k0)
                &&& wrap_fold(ws, width, k - 1).1 == join_spaced(ws.subrange(k0, k - 1))
            };
        let seg = ws.subrange(k0, k - 1);
        assert(forall|p: int| 0 <= p < seg.len() ==> seg[p] == ws[k0 + p]);
        assert(forall|p: int| 0 <= p < seg.len() ==> wordish(#[trigger] seg[p]));
        let w = ws[k - 1];
        assert(wordish(w) && vis_width(w) <= width);
        let res = wrap_fold(ws, width, k);
        if st.1.len() == 0 {
            // the current line is empty, so the open segment is too
            if seg.len() > 0 {
                lemma_join_spaced_nonempty(seg);
            }
            assert(k0 == k - 1);
            // the word starts the next line
            assert(res.0 == st.0 && res.1 == w);
            assert(ws.subrange(k - 1, k) =~= seq![w]);
            assert(join_spaced(seq![w]) == w);
            let w0: int = k - 1;
            assert(0 <= w0 <= k && flat_words(res.0) == ws.take(w0) && res.1 == join_spaced(
                ws.subrange(w0, k),
            ));
        } else {
            assert(seg.len() > 0) by {
                if seg.len() == 0 {
                    assert(join_spaced(seg) == Seq::<char>::empty());
                }
            }
            let cand = st.1 + seq![' '] + w;
            if vis_width(cand) <= width {
                lemma_join_spaced_push(seg, w);
                assert(seg.push(w) =~= ws.subrange(k0, k));
                assert(res.0 == st.0 && res.1 == cand);
                let w0: int = k0;
                assert(0 <= w0 <= k && flat_words(res.0) == ws.take(w0) && res.1 == join_spaced(
                    ws.subrange(w0, k),
                ));
            } else {
                // the current line is flushed and the word starts the next
                assert(res.0 == st.0.push(st.1) && res.1 == w);
                lemma_flat_words_push(st.0, st.1);
                lemma_words_of_join(seg);
                assert(ws.take(k0) + seg =~= ws.take(k - 1));
                assert(ws.subrange(k - 1, k) =~= seq![w]);
                assert(join_spaced(seq![w]) == w);
                let w0: int = k - 1;
                assert(0 <= w0 <= k && flat_words(res.0) == ws.take(w0) && res.1 == join_spaced(
                    ws.subrange(w0, k),
                ));
            }
        }
    }
}

/// Wrapping reorders nothing: when every word of the line fits the target
/// width on its own, the words of the wrapped lines, read in order, are
/// exactly the words of the source line.
pub proof fn lemma_wrap_line_preserves_words(line: Seq<char>, width: nat)
    ensures
        (forall|p: int|
            0 <= p < words_of(line).len() ==> vis_width(#[trigger] words_of(line)[p]) <= width)
            ==> flat_words(wrap_line_spec(line, width)) == words_of(line),
{
    if forall|p: int|
        0 <= p < words_of(line).len() ==> vis_width(#[trigger] words_of(line)[p]) <= width {
        if all_space(line) {
            lemma_all_space_no_words(line, 0);
            let out = seq![Seq::<char>::empty()];
            assert(out.len() == 1);
            assert(out.first() == Seq::<char>::empty());
            assert(out.drop_first() =~= Seq::<Seq<char>>::empty());
            assert(words_of(Seq::<char>::empty()) =~= Seq::<Seq<char>>::empty());
            assert(flat_words(out) == words_of(out.first()) + flat_words(out.drop_first()));
            assert(flat_words(out) =~= Seq::<Seq<char>>::empty());
        } else {
            let ws = words_of(line);
            lemma_words_from_wordish(line, 0);
            lemma_wrap_fold_word_segments(ws, width, ws.len() as int);
            let st = wrap_fold(ws, width, ws.len() as int);
            let k0 = choose|k0: int|
                {
                    &&& 0 <= k0 <= ws.len()
                    &&& flat_words(#[trigger] wrap_fold(ws, width, ws.len() as int).0)
                        == ws.take(k0)
                    &&& wrap_fold(ws, width, ws.len() as int).1 == join_spaced(
                        ws.subrange(k0, ws.len() as int),
                    )
                };
            let seg = ws.subrange(k0, ws.len() as int);
            assert(forall|p: int| 0 <= p < seg.len() ==> seg[p] == ws[k0 + p]);
            assert(forall|p: int| 0 <= p < seg.len() ==> wordish(#[trigger] seg[p]));
            if st.1.len() > 0 {
                lemma_flat_words_push(st.0, st.1);
                lemma_words_of_join(seg);
                assert(ws.take(k0) + seg =~= ws);
            } else {
                if seg.len() > 0 {
                    lemma_join_spaced_nonempty(seg);
                }
                assert(k0 == ws.len());
                assert(ws.take(ws.len() as int) =~= ws);
            }
        }
    }
}

proof fn lemma_esc_free_concat(a: Seq<char>, b: Seq<char>)
    requires
        esc_free(a),
        esc_free(b),
    ensures
        esc_free(a + b),
{
    assert forall|i: int| 0 <= i < (a + b).len() implies #[trigger] (a + b)[i]
        != crate::width::esc() by {
        if i < a.len() {
            assert((a + b)[i] == a[i]);
        } else {
            assert((a + b)[i] == b[i - a.len()]);
        }
    }
}

proof fn lemma_esc_free_sub(s: Seq<char>, a: int, b: int)
    requires
        esc_free(s),
        0 <= a <= b <= s.len(),
    ensures
        esc_free(s.subrange(a, b)),
{
    assert forall|i: int| 0 <= i < b - a implies #[trigger] s.subrange(a, b)[i]
        != crate::width::esc() by {
        assert(s.subrange(a, b)[i] == s[a + i]);
    }
}

proof fn lemma_hard_wrap_esc_free(w: Seq<char>, width: nat, i: int, cur: Seq<char>, curw: nat)
    requires
        esc_free(w),
        esc_free(cur),
    ensures
        forall|p: int|
            0 <= p < hard_wrap_from(w, width, i, cur, curw).len() ==> esc_free(
                #[trigger] hard_wrap_from(w, width, i, cur, curw)[p],
            ),
    decreases w.len() - i,
{
    let res = hard_wrap_from(w, width, i, cur, curw);
    if i < 0 || i >= w.len() {
        assert forall|p: int| 0 <= p < res.len() implies esc_free(#[trigger] res[p]) by {
            assert(res[p] == cur);
        }
    } else {
        let cw = char_width_of(w[i]);
        assert(esc_free(seq![w[i]])) by {
            assert(seq![w[i]][0] == w[i]);
        }
        assert(esc_free(cur.push(w[i]))) by {
            assert(forall|u: int|
                0 <= u < cur.len() ==> #[trigger] cur.push(w[i])[u] == cur[u]);
            assert(cur.push(w[i])[cur.len() as int] == w[i]);
        }
        if curw + cw > width && cur.len() > 0 {
            lemma_hard_wrap_esc_free(w, width, i + 1, seq![w[i]], cw);
            let rec = hard_wrap_from(w, width, i + 1, seq![w[i]], cw);
            assert forall|p: int| 0 <= p < res.len() implies esc_free(#[trigger] res[p]) by {
                if p == 0 {
                    assert(res[p] == cur);
                } else {
                    assert(res[p] == rec[p - 1]);
                }
            }
        } else {
            lemma_hard_wrap_esc_free(w, width, i + 1, cur.push(w[i]), (curw + cw) as nat);
            let rec = hard_wrap_from(w, width, i + 1, cur.push(w[i]), (curw + cw) as nat);
            assert forall|p: int| 0 <= p < res.len() implies esc_free(#[trigger] res[p]) by {
                assert(res[p] == rec[p]);
            }
        }
    }
}

proof fn lemma_words_from_esc_free(s: Seq<char>, i: int)
    requires
        esc_free(s),
        0 <= i <= s.len(),
    ensures
        forall|p: int|
            0 <= p < words_from(s, i).len() ==> esc_free(#[trigger] words_from(s, i)[p]),
    decreases s.len() - i,
{
    let res = words_from(s, i);
    if i >= s.len() {
    } else if is_space_char(s[i]) {
        lemma_words_from_esc_free(s, i + 1);
        assert forall|p: int| 0 <= p < res.len() implies esc_free(#[trigger] res[p]) by {
            assert(res[p] == words_from(s, i + 1)[p]);
        }
    } else {
        lemma_word_end_bounds(s, i);
        let we = word_end(s, i);
        lemma_words_from_esc_free(s, we);
        lemma_esc_free_sub(s, i, we);
        let rec = words_from(s, we);
        assert forall|p: int| 0 <= p < res.len() implies esc_free(#[trigger] res[p]) by {
            if p == 0 {
                assert(res[p] == s.subrange(i, we));
            } else {
                assert(res[p] == rec[p - 1]);
            }
        }
    }
}

proof fn lemma_wrap_fold_esc_free(ws: Seq<Seq<char>>, width: nat, k: int)
    requires
        k <= ws.len(),
        forall|p: int| 0 <= p < ws.len() ==> esc_free(#[trigger] ws[p]),
    ensures
        esc_free(wrap_fold(ws, width, k).1),
        forall|p: int|
            0 <= p < wrap_fold(ws, width, k).0.len() ==> esc_free(
                #[trigger] wrap_fold(ws, width, k).0[p],
            ),
    decreases k,
{
    if k <= 0 {
    } else {
        lemma_wrap_fold_esc_free(ws, width, k - 1);
        lemma_fold_out_concat_free(ws, width, k);
    }
}

proof fn lemma_push_out_free(out: Seq<Seq<char>>, cur: Seq<char>, width: nat)
    requires
        forall|p: int| 0 <= p < out.len() ==> esc_free(#[trigger] out[p]),
        esc_free(cur),
    ensures
        forall|p: int| 0 <= p < out.push(cur).len() ==> esc_free(#[trigger] out.push(cur)[p]),
{
    assert forall|p: int| 0 <= p < out.push(cur).len() implies esc_free(
        #[trigger] out.push(cur)[p],
    ) by {
        if p < out.len() {
            assert(out.push(cur)[p] == out[p]);
        } else {
            assert(out.push(cur)[p] == cur);
        }
    }
}

proof fn lemma_fold_out_concat_free(ws: Seq<Seq<char>>, width: nat, k: int)
    requires
        1 <= k <= ws.len(),
        forall|p: int| 0 <= p < ws.len() ==> esc_free(#[trigger] ws[p]),
        esc_free(wrap_fold(ws, width, k - 1).1),
        forall|p: int|
            0 <= p < wrap_fold(ws, width, k - 1).0.len() ==> esc_free(
                #[trigger] wrap_fold(ws, width, k - 1).0[p],
            ),
    ensures
        forall|p: int|
            0 <= p < wrap_fold(ws, width, k).0.len() ==> esc_free(
                #[trigger] wrap_fold(ws, width, k).0[p],
            ),
        esc_free(wrap_fold(ws, width, k).1),
{
    let st = wrap_fold(ws, width, k - 1);
    let res = wrap_fold(ws, width, k);
    assert(esc_free(Seq::<char>::empty()));
    lemma_hard_wrap_esc_free(ws[k - 1], width, 0, Seq::<char>::empty(), 0);
    let hw = hard_wrap_spec(ws[k - 1], width);
    assert(esc_free(seq![' '])) by {
        assert(seq![' '][0] == ' ');
    }
    assert forall|p: int| 0 <= p < res.0.len() implies esc_free(#[trigger] res.0[p]) by {
        if st.1.len() == 0 {
            if vis_width(ws[k - 1]) <= width {
                assert(res.0[p] == st.0[p]);
            } else {
                if p < st.0.len() {
                    assert(res.0[p] == st.0[p]);
                } else {
                    assert(res.0[p] == hw[p - st.0.len()]);
                }
            }
        } else {
            let cand = st.1 + seq![' '] + ws[k - 1];
            if vis_width(cand) <= width {
                assert(res.0[p] == st.0[p]);
            } else if vis_width(ws[k - 1]) <= width {
                if p < st.0.len() {
                    assert(res.0[p] == st.0[p]);
                } else {
                    assert(res.0[p] == st.1);
                }
            } else {
                if p < st.0.len() {
                    assert(res.0[p] == st.0.push(st.1)[p]);
                    assert(res.0[p] == st.0[p]);
                } else if p == st.0.len() {
                    assert(res.0[p] == st.0.push(st.1)[p]);
                    assert(res.0[p] == st.1);
                } else {
                    assert(res.0[p] == hw[p - st.0.len() - 1]);
                }
            }
        }
    }
    if st.1.len() > 0 {
        let cand = st.1 + seq![' '] + ws[k - 1];
        if vis_width(cand) <= width {
            lemma_esc_free_concat(st.1, seq![' ']);
            lemma_esc_free_concat(st.1 + seq![' '], ws[k - 1]);
        }
    }
}

/// Every line of the wrap of an escape-free message is itself escape-free.
pub proof fn lemma_wrap_spec_esc_free(m: Seq<char>, width: nat)
    requires
        esc_free(m),
    ensures
        forall|p: int|
            0 <= p < wrap_spec(m, width).len() ==> esc_free(#[trigger] wrap_spec(m, width)[p]),
{
    lemma_split_lines_esc_free(m);
    lemma_wrap_lines_esc_free(split_lines(m), width);
    assert(esc_free(Seq::<char>::empty()));
}

proof fn lemma_split_lines_esc_free(s: Seq<char>)
    requires
        esc_free(s),
    ensures
        forall|q: int|
            0 <= q < split_lines(s).len() ==> esc_free(#[trigger] split_lines(s)[q]),
    decreases s.len(),
{
    let res = split_lines(s);
    if s.len() == 0 {
    } else {
        let j = crate::text::find_from(s, 0, '\n');
        crate::text::lemma_find_from_bounds(s, 0, '\n');
        if j == s.len() {
        } else {
            lemma_esc_free_sub(s, j + 1, s.len() as int);
            assert(s.skip(j + 1) =~= s.subrange(j + 1, s.len() as int));
            lemma_split_lines_esc_free(s.skip(j + 1));
            let rec = split_lines(s.skip(j + 1));
            lemma_esc_free_sub(s, 0, j);
            assert(s.take(j) =~= s.subrange(0, j));
            let head = crate::text::chomp_cr(s.take(j));
            assert(esc_free(head)) by {
                if s.take(j).len() > 0 && s.take(j)[s.take(j).len() - 1] == '\r' {
                    assert(forall|u: int|
                        0 <= u < head.len() ==> #[trigger] head[u] == s.take(j)[u]);
                }
            }
            assert forall|q: int| 0 <= q < res.len() implies esc_free(#[trigger] res[q]) by {
                if q == 0 {
                    assert(res[q] == head);
                } else {
                    assert(res[q] == rec[q - 1]);
                }
            }
        }
    }
}

proof fn lemma_wrap_lines_esc_free(lines: Seq<Seq<char>>, width: nat)
    requires
        forall|q: int| 0 <= q < lines.len() ==> esc_free(#[trigger] lines[q]),
    ensures
        forall|p: int|
            0 <= p < wrap_lines_spec(lines, width).len() ==> esc_free(
                #[trigger] wrap_lines_spec(lines, width)[p],
            ),
    decreases lines.len(),
{
    if lines.len() > 0 {
        lemma_wrap_line_esc_free(lines.first(), width);
        assert(forall|q: int|
            0 <= q < lines.drop_first().len() ==> #[trigger] lines.drop_first()[q] == lines[q
                + 1]);
        lemma_wrap_lines_esc_free(lines.drop_first(), width);
        let head = wrap_line_spec(lines.first(), width);
        let tail = wrap_lines_spec(lines.drop_first(), width);
        let res = wrap_lines_spec(lines, width);
        assert forall|p: int| 0 <= p < res.len() implies esc_free(#[trigger] res[p]) by {
            if p < head.len() {
                assert(res[p] == head[p]);
            } else {
                assert(res[p] == tail[p - head.len()]);
            }
        }
    }
}

/// Every line of the wrap of an escape-free source line is escape-free.
pub proof fn lemma_wrap_line_esc_free(line: Seq<char>, width: nat)
    requires
        esc_free(line),
    ensures
        forall|p: int|
            0 <= p < wrap_line_spec(line, width).len() ==> esc_free(
                #[trigger] wrap_line_spec(line, width)[p],
            ),
{
    if all_space(line) {
        assert(esc_free(Seq::<char>::empty()));
    } else {
        let ws = words_of(line);
        lemma_words_from_esc_free(line, 0);
        lemma_wrap_fold_esc_free(ws, width, ws.len() as int);
        let st = wrap_fold(ws, width, ws.len() as int);
        if st.1.len() > 0 {
            lemma_push_out_free(st.0, st.1, width);
        }
    }
}

/// First non-whitespace position at or after `from`.
fn skip_spaces_exec(v: &Vec<char>, from: usize) -> (r: usize)
    requires
        from <= v@.len(),
    ensures
        r as int == skip_spaces(v@, from as int),
        from <= r <= v@.len(),
        r < v@.len() ==> !is_space_char(v@[r as int]),
{
    let len: usize = v.len();
    let mut i: usize = from;
    while i < len
        invariant
            from <= i <= len,
            len == v@.len(),
            skip_spaces(v@, from as int) == skip_spaces(v@, i as int),
        decreases len - i,
    {
        if !is_space(v[i]) {
            return i;
        }
        i = i + 1;
    }
    i
}

/// First whitespace position at or after `from`.
fn word_end_exec(v: &Vec<char>, from: usize) -> (r: usize)
    requires
        from <= v@.len(),
    ensures
        r as int == word_end(v@, from as int),
        from <= r <= v@.len(),
{
    let len: usize = v.len();
    let mut i: usize = from;
    while i < len
        invariant
            from <= i <= len,
            len == v@.len(),
            word_end(v@, from as int) == word_end(v@, i as int),
        decreases len - i,
    {
        if is_space(v[i]) {
            return i;
        }
        i = i + 1;
    }
    i
}

/// Skipping leading whitespace does not change the words that remain.
proof fn lemma_words_from_skip(s: Seq<char>, i: int)
    requires
        0 <= i <= s.len(),
    ensures
        words_from(s, i) == words_from(s, skip_spaces(s, i)),
    decreases s.len() - i,
{
    if i < s.len() && is_space_char(s[i]) {
        lemma_words_from_skip(s, i + 1);
    }
}

/// Append the lines of `src` to `dst`.
fn extend_lines(dst: &mut Vec<Vec<char>>, src: Vec<Vec<char>>)
    ensures
        final(dst).deep_view() == old(dst).deep_view() + src.deep_view(),
{
    let len: usize = src.len();
    let mut i: usize = 0;
    proof {
        assert(dst.deep_view() =~= old(dst).deep_view() + src.deep_view().take(0));
    }
    while i < len
        invariant
            i <= len,
            len == src@.len(),
            dst.deep_view() == old(dst).deep_view() + src.deep_view().take(i as int),
        decreases len - i,
    {
        let ghost prev = *dst;
        let piece = copy_chars(&src[i]);
        let ghost piece_snap = piece;
        dst.push(piece);
        proof {
            lemma_deep_push(prev, *dst, piece_snap);
            lemma_char_vec_deep(src@[i as int]);
            assert(src.deep_view()[i as int] == src@[i as int]@);
            assert(old(dst).deep_view() + src.deep_view().take(i as int) + seq![src@[i as int]@]
                =~= old(dst).deep_view() + src.deep_view().take(i + 1));
        }
        i = i + 1;
    }
    proof {
        assert(src.deep_view().take(len as int) =~= src.deep_view());
    }
}

/// Wrap one source line: a blank line yields one empty line, any other line
/// has its words packed greedily within `width`.
fn wrap_line_chars(line: &Vec<char>, width: usize) -> (r: Vec<Vec<char>>)
    requires
        line@.len() <= MAX_TEXT,
    ensures
        r.deep_view() == wrap_line_spec(line@, width as nat),
        forall|p: int|
            0 <= p < r@.len() ==> (#[trigger] r.deep_view()[p]).len() <= line@.len(),
{
    let ghost s = line@;
    if is_blank(line) {
        let mut r: Vec<Vec<char>> = Vec::new();
        r.push(Vec::new());
        proof {
            assert(r.deep_view() =~~= seq![Seq::<char>::empty()]);
        }
        return r;
    }
    let ghost ws = words_of(s);
    let len: usize = line.len();
    let mut out: Vec<Vec<char>> = Vec::new();
    let mut cur: Vec<char> = Vec::new();
    let ghost mut k: int = 0;
    let mut i = skip_spaces_exec(line, 0);
    proof {
        lemma_words_from_skip(s, 0);
        assert(ws.skip(0) =~= ws);
        assert(out.deep_view() =~= Seq::<Seq<char>>::empty());
    }
    while i < len
        invariant
            i <= len,
            len == s.len() <= MAX_TEXT,
            s == line@,
            ws == words_of(s),
            0 <= k <= ws.len(),
            words_from(s, i as int) == ws.skip(k),
            out.deep_view() == wrap_fold(ws, width as nat, k).0,
            cur@ == wrap_fold(ws, width as nat, k).1,
            cur@.len() > 0 && i < len ==> cur@.len() < i,
            cur@.len() <= len,
            i < len ==> !is_space_char(s[i as int]),
            forall|p: int|
                0 <= p < out@.len() ==> (#[trigger] out.deep_view()[p]).len() <= s.len(),
        decreases len - i,
    {
        let j = word_end_exec(line, i);
        proof {
            lemma_word_end_bounds(s, i as int);
            assert(j > i);
        }
        let word = sub_chars(line, i, j);
        proof {
            let tail = words_from(s, j as int);
            assert(words_from(s, i as int) == seq![word@] + tail);
            assert(ws.skip(k).len() == 1 + tail.len());
            assert(ws.skip(k).len() == ws.len() - k);
            assert(k < ws.len());
            assert(ws.skip(k)[0] == ws[k]);
            assert((seq![word@] + tail)[0] == word@);
            assert(ws[k] == word@);
            assert forall|t: int| 0 <= t < tail.len() implies ws.skip(k + 1)[t] == tail[t] by {
                assert(ws.skip(k + 1)[t] == ws[k + 1 + t]);
                assert(ws.skip(k)[t + 1] == ws[k + 1 + t]);
                assert((seq![word@] + tail)[t + 1] == tail[t]);
            }
            assert(tail =~= ws.skip(k + 1));
        }
        let ghost st = wrap_fold(ws, width as nat, k);
        if cur.len() == 0 {
            let vw = visible_width_chars(&word);
            if vw <= width {
                cur = word;
            } else {
                let pieces = hard_wrap(&word, width);
                let ghost before = out.deep_view();
                let ghost pv = pieces.deep_view();
                extend_lines(&mut out, pieces);
                proof {
                    lemma_lines_bound_concat(before, pv, s.len() as int);
                }
            }
        } else {
            let mut cand = copy_chars(&cur);
            cand.push(' ');
            push_all(&mut cand, &word);
            proof {
                assert(cand@ =~= cur@ + seq![' '] + word@);
                assert(cand@.len() <= MAX_TEXT);
            }
            let vw = visible_width_chars(&cand);
            if vw <= width {
                cur = cand;
            } else {
                let ghost prev = out;
                let ghost cur_snap = cur;
                out.push(cur);
                proof {
                    lemma_deep_push(prev, out, cur_snap);
                    lemma_lines_bound_concat(prev.deep_view(), seq![cur_snap@], s.len() as int);
                }
                let vww = visible_width_chars(&word);
                if vww <= width {
                    cur = word;
                } else {
                    let pieces = hard_wrap(&word, width);
                    let ghost before = out.deep_view();
                    let ghost pv = pieces.deep_view();
                    extend_lines(&mut out, pieces);
                    proof {
                        lemma_lines_bound_concat(before, pv, s.len() as int);
                    }
                    cur = Vec::new();
                }
            }
        }
        proof {
            k = k + 1;
            assert(wrap_fold(ws, width as nat, k) == wrap_step(st.0, st.1, ws[k - 1], width
                as nat));
        }
        i = skip_spaces_exec(line, j);
        proof {
            lemma_words_from_skip(s, j as int);
        }
    }
    proof {
        assert(words_from(s, len as int) =~= Seq::<Seq<char>>::empty());
        assert(ws.skip(k).len() == 0);
        assert(k == ws.len());
    }
    if cur.len() > 0 {
        let ghost prev = out;
        let ghost cur_snap = cur;
        out.push(cur);
        proof {
            lemma_deep_push(prev, out, cur_snap);
        }
    }
    out
}

/// Break `message` into lines that fit `width` visible columns: source lines
/// are wrapped independently, blank source lines survive as single empty
/// lines, and over-wide words are split at code-point boundaries.  The
/// result is never empty: an empty message yields one empty line.  Every
/// returned line fits the target width, except a line reduced to a single
/// code point wider than the target.
pub fn wrap_message(message: &str, width: usize) -> (r: Vec<String>)
    requires
        message@.len() <= MAX_TEXT,
    ensures
        r.deep_view() == wrap_spec(message@, width as nat),
        r@.len() >= 1,
        message@.len() == 0 ==> r.deep_view() == seq![Seq::<char>::empty()],
        forall|p: int|
            0 <= p < r@.len() ==> line_fits(#[trigger] r.deep_view()[p], width as nat),
        forall|p: int|
            0 <= p < r@.len() ==> (#[trigger] r.deep_view()[p]).len() <= message@.len(),
{
    let chars = str_chars(message);
    let lines = split_lines_chars(&chars);
    let ghost ls = split_lines(message@);
    let mut out: Vec<Vec<char>> = Vec::new();
    let mut li: usize = 0;
    let n: usize = lines.len();
    proof {
        lemma_split_lines_len(message@);
        assert(ls.skip(0) =~= ls);
        assert(out.deep_view() =~= Seq::<Seq<char>>::empty());
        assert(lines.deep_view().len() == ls.len());
    }
    while li < n
        invariant
            li <= n,
            n == ls.len(),
            n == lines@.len(),
            lines.deep_view() == ls,
            ls == split_lines(message@),
            message@.len() <= MAX_TEXT,
            wrap_lines_spec(ls, width as nat) == out.deep_view() + wrap_lines_spec(
                ls.skip(li as int),
                width as nat,
            ),
            forall|p: int|
                0 <= p < out@.len() ==> (#[trigger] out.deep_view()[p]).len() <= message@.len(),
        decreases n - li,
    {
        proof {
            lemma_char_vec_deep(lines@[li as int]);
            assert(lines@[li as int]@ == ls[li as int]);
            lemma_split_lines_len(message@);
            assert(ls[li as int].len() <= message@.len());
        }
        let wl = wrap_line_chars(&lines[li], width);
        extend_lines(&mut out, wl);
        proof {
            let restl = ls.skip(li as int);
            assert(restl.first() == ls[li as int]);
            assert(restl.drop_first() =~= ls.skip(li + 1));
            assert(wrap_lines_spec(restl, width as nat) == wrap_line_spec(ls[li as int], width
                as nat) + wrap_lines_spec(ls.skip(li + 1), width as nat));
        }
        li = li + 1;
    }
    proof {
        assert(ls.skip(n as int) =~= Seq::<Seq<char>>::empty());
        assert(out.deep_view() + Seq::<Seq<char>>::empty() =~= out.deep_view());
    }
    if out.len() == 0 {
        out.push(Vec::new());
        proof {
            assert(out.deep_view() =~~= seq![Seq::<char>::empty()]);
        }
    }
    let mut r: Vec<String> = Vec::new();
    let on: usize = out.len();
    let mut q: usize = 0;
    proof {
        assert(r.deep_view() =~= out.deep_view().take(0));
    }
    while q < on
        invariant
            q <= on,
            on == out@.len(),
            r.deep_view() == out.deep_view().take(q as int),
            r@.len() == q,
        decreases on - q,
    {
        let ghost prev = r;
        let line = chars_to_string(&out[q]);
        let ghost line_snap = line;
        r.push(line);
        proof {
            lemma_char_vec_deep(out@[q as int]);
            lemma_deep_push_str(prev, r, line_snap);
            assert(prev.deep_view() + seq![out.deep_view()[q as int]] =~= out.deep_view().take(
                q + 1,
            ));
        }
        q = q + 1;
    }
    proof {
        assert(out.deep_view().take(on as int) =~= out.deep_view());
        lemma_wrap_spec_fits(message@, width as nat);
        if message@.len() == 0 {
            assert(split_lines(message@) =~= Seq::<Seq<char>>::empty());
        }
        assert forall|p: int| 0 <= p < r@.len() implies line_fits(
            #[trigger] r.deep_view()[p],
            width as nat,
        ) by {
            assert(r.deep_view()[p] == wrap_spec(message@, width as nat)[p]);
        }
    }
    r
}

} // verus!
