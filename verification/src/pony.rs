//! The template compositor: splice a finished balloon into a figure
//! template at its anchor token, and expand the style's inline link-glyph
//! tokens.

use vstd::prelude::*;
use vstd::string::StrSliceExecFns;
use vstd::string::StringExecFns;

use crate::balloon::{sgr_reset, spaces};
use crate::style::BalloonStyle;
use crate::text::{
    chars_eq, chars_to_string, copy_chars, find_char, find_from, lemma_deep_push,
    lemma_find_from_bounds,
    lemma_split_lines_len, push_all, split_lines, split_lines_chars, str_chars, sub_chars,
    chomp_cr, trim_end_ws, trim_ws,
};
use crate::width::{vis_width, visible_width_chars, MAX_TEXT};

verus! {

/// A link glyph as it is substituted: bracketed in SGR resets so it renders
/// independent of surrounding colour state.
pub open spec fn link_sub(g: Seq<char>) -> Seq<char> {
    sgr_reset() + g + sgr_reset()
}

/// The text from position `i` on with every inline variable token
/// substituted once, left to right: the three link-glyph tokens become the
/// style's link glyphs bracketed in resets, and the doubled-dollar token a
/// literal dollar.  A substituted value is never re-scanned.
pub open spec fn expand_from(
    s: Seq<char>,
    i: int,
    link: Seq<char>,
    mirror: Seq<char>,
    cross: Seq<char>,
) -> Seq<char>
    decreases s.len() - i,
{
    if i < 0 || i >= s.len() {
        Seq::empty()
    } else if i + 3 <= s.len() && s[i] == '$' && s[i + 1] == '\\' && s[i + 2] == '$' {
        link_sub(link) + expand_from(s, i + 3, link, mirror, cross)
    } else if i + 3 <= s.len() && s[i] == '$' && s[i + 1] == '/' && s[i + 2] == '$' {
        link_sub(mirror) + expand_from(s, i + 3, link, mirror, cross)
    } else if i + 3 <= s.len() && s[i] == '$' && s[i + 1] == 'X' && s[i + 2] == '$' {
        link_sub(cross) + expand_from(s, i + 3, link, mirror, cross)
    } else if i + 2 <= s.len() && s[i] == '$' && s[i + 1] == '$' {
        seq!['$'] + expand_from(s, i + 2, link, mirror, cross)
    } else {
        seq![s[i]] + expand_from(s, i + 1, link, mirror, cross)
    }
}

/// `s` with the style's inline variable tokens substituted once.
pub open spec fn expand_spec(s: Seq<char>, style: &BalloonStyle) -> Seq<char> {
    expand_from(s, 0, style.link@, style.link_mirror@, style.link_cross@)
}

fn expand_chars(v: &Vec<char>, link: &Vec<char>, mirror: &Vec<char>, cross: &Vec<char>) -> (r: Vec<
    char,
>)
    ensures
        r@ == expand_from(v@, 0, link@, mirror@, cross@),
{
    let ghost s = v@;
    let reset = str_chars("\u{1b}[0m");
    proof {
        assert(reset@ == sgr_reset());
    }
    let len: usize = v.len();
    let mut out: Vec<char> = Vec::new();
    let mut i: usize = 0;
    proof {
        assert(out@ + expand_from(s, 0, link@, mirror@, cross@) =~= expand_from(
            s,
            0,
            link@,
            mirror@,
            cross@,
        ));
    }
    while i < len
        invariant
            i <= len,
            len == s.len(),
            s == v@,
            expand_from(s, 0, link@, mirror@, cross@) == out@ + expand_from(
                s,
                i as int,
                link@,
                mirror@,
                cross@,
            ),
            reset@ == sgr_reset(),
        decreases len - i,
    {
        let ghost before = out@;
        let ghost rest = expand_from(s, i as int, link@, mirror@, cross@);
        if len - i >= 3 && v[i] == '$' && v[i + 1] == '\\' && v[i + 2] == '$' {
            push_all(&mut out, &reset);
            push_all(&mut out, link);
            push_all(&mut out, &reset);
            proof {
                assert(rest == link_sub(link@) + expand_from(s, i + 3, link@, mirror@, cross@));
                assert(out@ =~= before + link_sub(link@));
                assert(before + rest =~= out@ + expand_from(s, i + 3, link@, mirror@, cross@));
            }
            i = i + 3;
        } else if len - i >= 3 && v[i] == '$' && v[i + 1] == '/' && v[i + 2] == '$' {
            push_all(&mut out, &reset);
            push_all(&mut out, mirror);
            push_all(&mut out, &reset);
            proof {
                assert(rest == link_sub(mirror@) + expand_from(s, i + 3, link@, mirror@, cross@));
                assert(out@ =~= before + link_sub(mirror@));
                assert(before + rest =~= out@ + expand_from(s, i + 3, link@, mirror@, cross@));
            }
            i = i + 3;
        } else if len - i >= 3 && v[i] == '$' && v[i + 1] == 'X' && v[i + 2] == '$' {
            push_all(&mut out, &reset);
            push_all(&mut out, cross);
            push_all(&mut out, &reset);
            proof {
                assert(rest == link_sub(cross@) + expand_from(s, i + 3, link@, mirror@, cross@));
                assert(out@ =~= before + link_sub(cross@));
                assert(before + rest =~= out@ + expand_from(s, i + 3, link@, mirror@, cross@));
            }
            i = i + 3;
        } else if len - i >= 2 && v[i] == '$' && v[i + 1] == '$' {
            out.push('$');
            proof {
                assert(rest == seq!['$'] + expand_from(s, i + 2, link@, mirror@, cross@));
                assert(out@ =~= before + seq!['$']);
                assert(before + rest =~= out@ + expand_from(s, i + 2, link@, mirror@, cross@));
            }
            i = i + 2;
        } else {
            out.push(v[i]);
            proof {
                assert(rest == seq![s[i as int]] + expand_from(s, i + 1, link@, mirror@, cross@));
                assert(out@ =~= before + seq![s[i as int]]);
                assert(before + rest =~= out@ + expand_from(s, i + 1, link@, mirror@, cross@));
            }
            i = i + 1;
        }
    }
    proof {
        assert(expand_from(s, len as int, link@, mirror@, cross@) =~= Seq::<char>::empty());
        assert(out@ + Seq::<char>::empty() =~= out@);
    }
    out
}

/// `input` with the style's inline variable tokens (`$\$`, `$/$`, `$X$`,
/// `$$`) substituted once, left to right, never re-scanning a substituted
/// value.
pub fn expand_predefined_vars(input: &str, style: &BalloonStyle) -> (r: String)
    ensures
        r@ == expand_spec(input@, style),
{
    let v = str_chars(input);
    let link = str_chars(style.link.as_str());
    let mirror = str_chars(style.link_mirror.as_str());
    let cross = str_chars(style.link_cross.as_str());
    let e = expand_chars(&v, &link, &mirror, &cross);
    chars_to_string(&e)
}

/// The anchor token `$balloon$` starts at position `i` of `l`.
pub open spec fn anchor_at(l: Seq<char>, i: int) -> bool {
    &&& 0 <= i
    &&& i + 9 <= l.len()
    &&& l[i] == '$'
    &&& l[i + 1] == 'b'
    &&& l[i + 2] == 'a'
    &&& l[i + 3] == 'l'
    &&& l[i + 4] == 'l'
    &&& l[i + 5] == 'o'
    &&& l[i + 6] == 'o'
    &&& l[i + 7] == 'n'
    &&& l[i + 8] == '$'
}

/// Position of the first anchor token at or after `i`, or the length of `l`
/// when none occurs.
pub open spec fn find_anchor(l: Seq<char>, i: int) -> int
    decreases l.len() - i,
{
    if i < 0 || i + 9 > l.len() {
        l.len() as int
    } else if anchor_at(l, i) {
        i
    } else {
        find_anchor(l, i + 1)
    }
}

/// Whether `l` contains the anchor token.
pub open spec fn has_anchor(l: Seq<char>) -> bool {
    find_anchor(l, 0) + 9 <= l.len()
}

pub proof fn lemma_find_anchor_bounds(l: Seq<char>, i: int)
    requires
        0 <= i,
    ensures
        i <= find_anchor(l, i) || find_anchor(l, i) == l.len(),
        find_anchor(l, i) <= l.len(),
        find_anchor(l, i) + 9 <= l.len() ==> anchor_at(l, find_anchor(l, i)),
    decreases l.len() - i,
{
    if !(i + 9 > l.len()) && !anchor_at(l, i) {
        lemma_find_anchor_bounds(l, i + 1);
    }
}

/// Index of the first template line that carries the anchor token, or the
/// number of lines when none does.
pub open spec fn first_anchor_line(lines: Seq<Seq<char>>, t: int) -> int
    decreases lines.len() - t,
{
    if t < 0 || t >= lines.len() {
        lines.len() as int
    } else if has_anchor(lines[t]) {
        t
    } else {
        first_anchor_line(lines, t + 1)
    }
}

pub proof fn lemma_first_anchor_line_bounds(lines: Seq<Seq<char>>, t: int)
    requires
        0 <= t <= lines.len(),
    ensures
        t <= first_anchor_line(lines, t) <= lines.len(),
        first_anchor_line(lines, t) < lines.len() ==> has_anchor(
            lines[first_anchor_line(lines, t)],
        ),
        forall|u: int| t <= u < first_anchor_line(lines, t) ==> !has_anchor(#[trigger] lines[u]),
    decreases lines.len() - t,
{
    if t < lines.len() && !has_anchor(lines[t]) {
        lemma_first_anchor_line_bounds(lines, t + 1);
    }
}

/// The output lines of the splice, before token expansion: with no anchor
/// anywhere, the balloon lines precede the template lines unchanged; with an
/// anchor, the anchor line splits into prefix and suffix, the first balloon
/// line continues the prefix, later balloon lines are indented to the
/// prefix's visible width, and the suffix continues the last balloon line.
pub open spec fn insert_lines_spec(lines: Seq<Seq<char>>, bl: Seq<Seq<char>>) -> Seq<Seq<char>> {
    let k = first_anchor_line(lines, 0);
    if k == lines.len() {
        bl + lines
    } else {
        let l = lines[k];
        let p = find_anchor(l, 0);
        let prefix = l.take(p);
        let suffix = l.skip(p + 9);
        let block = Seq::new(
            bl.len(),
            |t: int|
                {
                    let base = if t == 0 {
                        prefix + bl[t]
                    } else {
                        spaces(vis_width(prefix)) + bl[t]
                    };
                    if t == bl.len() - 1 {
                        base + suffix
                    } else {
                        base
                    }
                },
        );
        lines.take(k) + block + lines.skip(k + 1)
    }
}

/// Lines joined by single newlines.
pub open spec fn join_nl(ls: Seq<Seq<char>>) -> Seq<char>
    decreases ls.len(),
{
    if ls.len() == 0 {
        Seq::empty()
    } else if ls.len() == 1 {
        ls[0]
    } else {
        ls[0] + seq!['\n'] + join_nl(ls.drop_first())
    }
}

proof fn lemma_join_nl_push(ls: Seq<Seq<char>>, x: Seq<char>)
    ensures
        join_nl(ls.push(x)) == if ls.len() == 0 {
            x
        } else {
            join_nl(ls) + seq!['\n'] + x
        },
    decreases ls.len(),
{
    let p = ls.push(x);
    if ls.len() == 0 {
        assert(p.len() == 1);
        assert(p[0] == x);
    } else {
        assert(p[0] == ls[0]);
        assert(p.drop_first() =~= ls.drop_first().push(x));
        lemma_join_nl_push(ls.drop_first(), x);
        if ls.len() == 1 {
            assert(join_nl(ls) == ls[0]);
            assert(join_nl(p) == p[0] + seq!['\n'] + join_nl(p.drop_first()));
        } else {
            assert(join_nl(p) == p[0] + seq!['\n'] + join_nl(p.drop_first()));
            assert(ls[0] + seq!['\n'] + (join_nl(ls.drop_first()) + seq!['\n'] + x) =~= (ls[0]
                + seq!['\n'] + join_nl(ls.drop_first())) + seq!['\n'] + x);
        }
    }
}

/// The spliced and expanded template: balloon lines inserted at the first
/// anchor (or prepended when there is none), every line's inline tokens
/// substituted once, and the lines joined by newlines.  With no balloon
/// lines at all the template text is only token-expanded.
pub open spec fn insert_spec(t: Seq<char>, bl: Seq<Seq<char>>, style: &BalloonStyle) -> Seq<char> {
    if bl.len() == 0 {
        expand_spec(t, style)
    } else {
        join_nl(
            insert_lines_spec(split_lines(t), bl).map_values(|l: Seq<char>| expand_spec(l, style)),
        )
    }
}

/// Find the first anchor token in `l`, or `l.len()` when there is none.
fn find_anchor_exec(l: &Vec<char>) -> (p: usize)
    ensures
        p as int == find_anchor(l@, 0),
        p <= l@.len(),
        p + 9 <= l@.len() ==> anchor_at(l@, p as int),
{
    let len: usize = l.len();
    let mut i: usize = 0;
    while len - i >= 9
        invariant
            i <= len,
            len == l@.len(),
            find_anchor(l@, 0) == find_anchor(l@, i as int),
        decreases len - i,
    {
        if l[i] == '$' && l[i + 1] == 'b' && l[i + 2] == 'a' && l[i + 3] == 'l' && l[i + 4] == 'l'
            && l[i + 5] == 'o' && l[i + 6] == 'o' && l[i + 7] == 'n' && l[i + 8] == '$' {
            proof {
                assert(anchor_at(l@, i as int));
            }
            return i;
        }
        proof {
            assert(!anchor_at(l@, i as int));
        }
        i = i + 1;
    }
    proof {
        assert(find_anchor(l@, i as int) == len);
        lemma_find_anchor_bounds(l@, 0);
    }
    len
}

/// Splice `balloon_lines` into `template` at its first anchor token, or
/// before the template when there is no anchor, and substitute the style's
/// inline variable tokens in every line.  With no balloon lines the
/// template is only token-expanded.
pub fn insert_balloon(template: &str, balloon_lines: &Vec<String>, style: &BalloonStyle) -> (r:
    String)
    requires
        template@.len() <= MAX_TEXT,
    ensures
        r@ == insert_spec(template@, balloon_lines.deep_view(), style),
{
    let ghost bl = balloon_lines.deep_view();
    let bn: usize = balloon_lines.len();
    if bn == 0 {
        return expand_predefined_vars(template, style);
    }
    let tv = str_chars(template);
    let lines = split_lines_chars(&tv);
    let ghost lv = split_lines(template@);
    let n: usize = lines.len();
    proof {
        lemma_split_lines_len(template@);
    }

    // find the first line carrying the anchor
    let mut k: usize = 0;
    let mut pos: usize = 0;
    let mut found = false;
    while k < n && !found
        invariant
            k <= n,
            n == lines@.len(),
            lines.deep_view() == lv,
            first_anchor_line(lv, 0) == if found {
                k as int
            } else {
                first_anchor_line(lv, k as int)
            },
            found ==> k < n && pos as int == find_anchor(lv[k as int], 0) && has_anchor(
                lv[k as int],
            ),
        decreases n - k + (if found { 0int } else { 1int }),
    {
        proof {
            assert(lines.deep_view()[k as int] == lines@[k as int]@);
        }
        let p = find_anchor_exec(&lines[k]);
        let llen: usize = lines[k].len();
        if llen - p >= 9 {
            pos = p;
            found = true;
        } else {
            proof {
                assert(!has_anchor(lv[k as int]));
            }
            k = k + 1;
        }
    }

    let mut outl: Vec<Vec<char>> = Vec::new();
    if !found {
        proof {
            assert(first_anchor_line(lv, 0) == lv.len());
            assert(outl.deep_view() =~= bl.take(0));
        }
        let mut t: usize = 0;
        while t < bn
            invariant
                t <= bn,
                bn == balloon_lines@.len(),
                bl == balloon_lines.deep_view(),
                outl.deep_view() == bl.take(t as int),
            decreases bn - t,
        {
            let ghost prev = outl;
            let row = str_chars(balloon_lines[t].as_str());
            let ghost row_snap = row;
            outl.push(row);
            proof {
                lemma_deep_push(prev, outl, row_snap);
                assert(balloon_lines@[t as int]@ == bl[t as int]);
                assert(prev.deep_view() + seq![bl[t as int]] =~= bl.take(t + 1));
            }
            t = t + 1;
        }
        proof {
            assert(bl.take(bn as int) =~= bl);
        }
        let mut u: usize = 0;
        while u < n
            invariant
                u <= n,
                n == lines@.len(),
                lines.deep_view() == lv,
                bl == balloon_lines.deep_view(),
                outl.deep_view() == bl + lv.take(u as int),
            decreases n - u,
        {
            let ghost prev = outl;
            let row = copy_chars(&lines[u]);
            let ghost row_snap = row;
            outl.push(row);
            proof {
                lemma_deep_push(prev, outl, row_snap);
                assert(lines@[u as int]@ == lv[u as int]);
                assert(prev.deep_view() + seq![lv[u as int]] =~= bl + lv.take(u + 1));
            }
            u = u + 1;
        }
        proof {
            assert(lv.take(n as int) =~= lv);
            assert(outl.deep_view() =~= insert_lines_spec(lv, bl));
        }
    } else {
        proof {
            assert(first_anchor_line(lv, 0) == k as int);
            lemma_find_anchor_bounds(lv[k as int], 0);
            assert(anchor_at(lv[k as int], pos as int));
        }
        let lk = copy_chars(&lines[k]);
        proof {
            assert(lk@ == lv[k as int]);
        }
        let prefix = sub_chars(&lk, 0, pos);
        let lklen: usize = lk.len();
        let suffix = sub_chars(&lk, pos + 9, lklen);
        let ghost pfx = lv[k as int].take(pos as int);
        let ghost sfx = lv[k as int].skip(pos + 9);
        proof {
            assert(prefix@ =~= pfx);
            assert(suffix@ =~= sfx);
            assert(pfx.len() <= template@.len());
        }
        let pvis = visible_width_chars(&prefix);
        let ghost block = Seq::new(
            bl.len(),
            |t: int|
                {
                    let base = if t == 0 {
                        pfx + bl[t]
                    } else {
                        spaces(vis_width(pfx)) + bl[t]
                    };
                    if t == bl.len() - 1 {
                        base + sfx
                    } else {
                        base
                    }
                },
        );

        proof {
            assert(outl.deep_view() =~= lv.take(0));
        }
        let mut u: usize = 0;
        while u < k
            invariant
                u <= k <= n,
                n == lines@.len(),
                lines.deep_view() == lv,
                outl.deep_view() == lv.take(u as int),
            decreases k - u,
        {
            let ghost prev = outl;
            let row = copy_chars(&lines[u]);
            let ghost row_snap = row;
            outl.push(row);
            proof {
                lemma_deep_push(prev, outl, row_snap);
                assert(lines@[u as int]@ == lv[u as int]);
                assert(prev.deep_view() + seq![lv[u as int]] =~= lv.take(u + 1));
            }
            u = u + 1;
        }
        let mut t: usize = 0;
        while t < bn
            invariant
                t <= bn,
                bn == balloon_lines@.len(),
                bn >= 1,
                bl == balloon_lines.deep_view(),
                k < n,
                n == lines@.len(),
                lines.deep_view() == lv,
                prefix@ == pfx,
                suffix@ == sfx,
                pvis as nat == vis_width(pfx),
                block == Seq::new(
                    bl.len(),
                    |t: int|
                        {
                            let base = if t == 0 {
                                pfx + bl[t]
                            } else {
                                spaces(vis_width(pfx)) + bl[t]
                            };
                            if t == bl.len() - 1 {
                                base + sfx
                            } else {
                                base
                            }
                        },
                ),
                outl.deep_view() == lv.take(k as int) + block.take(t as int),
            decreases bn - t,
        {
            let mut row: Vec<char>;
            if t == 0 {
                row = copy_chars(&prefix);
            } else {
                row = Vec::new();
                crate::balloon::push_spaces(&mut row, pvis);
                proof {
                    assert(row@ =~= spaces(pvis as nat));
                }
            }
            let blt = str_chars(balloon_lines[t].as_str());
            proof {
                assert(balloon_lines@[t as int]@ == bl[t as int]);
            }
            push_all(&mut row, &blt);
            if t == bn - 1 {
                push_all(&mut row, &suffix);
            }
            proof {
                assert(row@ =~= block[t as int]);
            }
            let ghost prev = outl;
            let ghost row_snap = row;
            outl.push(row);
            proof {
                lemma_deep_push(prev, outl, row_snap);
                assert(prev.deep_view() + seq![block[t as int]] =~= lv.take(k as int) + block.take(
                    t + 1,
                ));
            }
            t = t + 1;
        }
        proof {
            assert(block.take(bn as int) =~= block);
        }
        let mut u2: usize = k + 1;
        while u2 < n
            invariant
                k + 1 <= u2 <= n,
                n == lines@.len(),
                lines.deep_view() == lv,
                outl.deep_view() == lv.take(k as int) + block + lv.subrange(k + 1, u2 as int),
            decreases n - u2,
        {
            let ghost prev = outl;
            let row = copy_chars(&lines[u2]);
            let ghost row_snap = row;
            outl.push(row);
            proof {
                lemma_deep_push(prev, outl, row_snap);
                assert(lines@[u2 as int]@ == lv[u2 as int]);
                assert(prev.deep_view() + seq![lv[u2 as int]] =~= lv.take(k as int) + block
                    + lv.subrange(k + 1, u2 + 1));
            }
            u2 = u2 + 1;
        }
        proof {
            assert(outl.deep_view() =~= lv.take(k as int) + block + lv.subrange(k + 1, n as int));
            assert(lv.subrange(k + 1, n as int) =~= lv.skip(k + 1));
            assert(outl.deep_view() =~= insert_lines_spec(lv, bl));
        }
    }

    // expand each line and join with newlines
    let link = str_chars(style.link.as_str());
    let mirror = str_chars(style.link_mirror.as_str());
    let cross = str_chars(style.link_cross.as_str());
    let ghost el = insert_lines_spec(lv, bl).map_values(|l: Seq<char>| expand_spec(l, style));
    let mut res: Vec<char> = Vec::new();
    let on: usize = outl.len();
    let mut q: usize = 0;
    proof {
        assert(el.len() == outl.deep_view().len());
        assert(res@ =~= join_nl(el.take(0)));
    }
    while q < on
        invariant
            q <= on,
            on == outl@.len(),
            outl.deep_view() == insert_lines_spec(lv, bl),
            el == insert_lines_spec(lv, bl).map_values(|l: Seq<char>| expand_spec(l, style)),
            link@ == style.link@,
            mirror@ == style.link_mirror@,
            cross@ == style.link_cross@,
            res@ == join_nl(el.take(q as int)),
        decreases on - q,
    {
        let e = expand_chars(&outl[q], &link, &mirror, &cross);
        proof {
            assert(outl@[q as int]@ == insert_lines_spec(lv, bl)[q as int]);
            assert(e@ == el[q as int]);
        }
        let ghost before = res@;
        if q > 0 {
            res.push('\n');
        }
        push_all(&mut res, &e);
        proof {
            lemma_join_nl_push(el.take(q as int), el[q as int]);
            assert(el.take(q as int).push(el[q as int]) =~= el.take(q + 1));
            if q == 0 {
                assert(res@ =~= el[0]);
            } else {
                assert(res@ =~= before + seq!['\n'] + e@);
            }
        }
        q = q + 1;
    }
    proof {
        assert(el.take(on as int) =~= el);
    }
    chars_to_string(&res)
}

/// With no anchor anywhere in the template, the balloon lines simply
/// precede the template lines, each line token-expanded, in that exact
/// order.
pub proof fn lemma_no_anchor_prepends(t: Seq<char>, bl: Seq<Seq<char>>, style: &BalloonStyle)
    requires
        bl.len() >= 1,
        forall|i: int| 0 <= i < split_lines(t).len() ==> !has_anchor(#[trigger] split_lines(t)[i]),
    ensures
        insert_spec(t, bl, style) == join_nl(
            (bl + split_lines(t)).map_values(|l: Seq<char>| expand_spec(l, style)),
        ),
{
    let lines = split_lines(t);
    let k = first_anchor_line(lines, 0);
    lemma_first_anchor_line_bounds(lines, 0);
    if k < lines.len() {
        assert(has_anchor(lines[k]));
        assert(false);
    }
    assert(insert_lines_spec(lines, bl) == bl + lines);
}

/// With an anchor on line `k`, every other template line appears in the
/// output unchanged (up to token expansion): lines before the anchor keep
/// their position, lines after it shift down by the balloon's extra rows.
pub proof fn lemma_anchor_keeps_other_lines(t: Seq<char>, bl: Seq<Seq<char>>)
    requires
        bl.len() >= 1,
        first_anchor_line(split_lines(t), 0) < split_lines(t).len(),
    ensures
        insert_lines_spec(split_lines(t), bl).len() == split_lines(t).len() + bl.len() - 1,
        forall|i: int|
            0 <= i < first_anchor_line(split_lines(t), 0) ==> #[trigger] insert_lines_spec(
                split_lines(t),
                bl,
            )[i] == split_lines(t)[i],
        forall|i: int|
            first_anchor_line(split_lines(t), 0) < i < split_lines(t).len()
                ==> #[trigger] insert_lines_spec(split_lines(t), bl)[i + bl.len() - 1]
                == split_lines(t)[i],
{
    let lines = split_lines(t);
    let k = first_anchor_line(lines, 0);
    lemma_first_anchor_line_bounds(lines, 0);
    let out = insert_lines_spec(lines, bl);
    assert forall|i: int| 0 <= i < k implies #[trigger] out[i] == lines[i] by {
        assert(out[i] == lines.take(k)[i]);
    }
    assert forall|i: int| k < i < lines.len() implies #[trigger] out[i + bl.len() - 1]
        == lines[i] by {
        assert(out[i + bl.len() - 1] == lines.skip(k + 1)[i - k - 1]);
    }
}

/// One metadata tag: an upper-case name and the values given for it, in
/// file order.
#[derive(Debug, Clone)]
pub struct TagEntry {
    pub name: String,
    pub values: Vec<String>,
}

/// Metadata parsed from a figure template's `$$$`-delimited header: named
/// tags and free-form comment lines.
#[derive(Debug, Clone)]
pub struct PonyMetadata {
    pub tags: Vec<TagEntry>,
    pub comments: Vec<String>,
}

/// A loaded figure template: where it came from, its parsed header, and the
/// figure body.
#[derive(Debug, Clone)]
pub struct PonyAsset {
    pub path: String,
    pub metadata: PonyMetadata,
    pub body: String,
}

/// The tag list as a sequence of (name, values) pairs.
pub open spec fn tags_view(tags: Seq<TagEntry>) -> Seq<(Seq<char>, Seq<Seq<char>>)> {
    Seq::new(tags.len(), |i: int| (tags[i].name@, tags[i].values.deep_view()))
}

impl PonyMetadata {
    /// The tags as (name, values) pairs, in first-seen order.
    pub open spec fn tags_model(&self) -> Seq<(Seq<char>, Seq<Seq<char>>)> {
        tags_view(self.tags@)
    }

    /// The comment lines, in file order.
    pub open spec fn comments_model(&self) -> Seq<Seq<char>> {
        self.comments.deep_view()
    }

    /// The values recorded for `name`, or `None` when the header never set
    /// that tag.
    pub fn tag_values(&self, name: &str) -> (r: Option<&Vec<String>>)
        ensures
            match r {
                Some(vs) => exists|i: int|
                    0 <= i < self.tags_model().len() && #[trigger] self.tags_model()[i] == (
                        name@,
                        vs.deep_view(),
                    ),
                None => forall|i: int|
                    0 <= i < self.tags_model().len() ==> (#[trigger] self.tags_model()[i]).0
                        != name@,
            },
    {
        let nv = str_chars(name);
        let len: usize = self.tags.len();
        let mut i: usize = 0;
        while i < len
            invariant
                i <= len,
                len == self.tags@.len(),
                nv@ == name@,
                forall|u: int| 0 <= u < i ==> (#[trigger] tags_view(self.tags@)[u]).0 != name@,
            decreases len - i,
        {
            let en = str_chars(self.tags[i].name.as_str());
            if chars_eq(&en, &nv) {
                let vs = &self.tags[i].values;
                proof {
                    assert(self.tags@[i as int].name@ == name@);
                    assert(vs.deep_view() == self.tags@[i as int].values.deep_view());
                    assert(self.tags_model()[i as int] == (name@, vs.deep_view()));
                }
                return Some(vs);
            }
            proof {
                assert(tags_view(self.tags@)[i as int].0 == self.tags@[i as int].name@);
            }
            i = i + 1;
        }
        None
    }
}

impl Default for PonyMetadata {
    /// The empty metadata: no tags, no comments.
    fn default() -> (r: Self)
        ensures
            r.tags_model() == Seq::<(Seq<char>, Seq<Seq<char>>)>::empty(),
            r.comments_model() == Seq::<Seq<char>>::empty(),
    {
        let r = PonyMetadata { tags: Vec::new(), comments: Vec::new() };
        proof {
            assert(r.tags_model() =~= Seq::<(Seq<char>, Seq<Seq<char>>)>::empty());
            assert(r.comments_model() =~= Seq::<Seq<char>>::empty());
        }
        r
    }
}

/// A leading byte-order mark removed.
pub open spec fn strip_bom(s: Seq<char>) -> Seq<char> {
    if s.len() > 0 && s[0] == '\u{feff}' {
        s.drop_first()
    } else {
        s
    }
}

/// A header delimiter line: `$$$` with nothing after it but whitespace.
pub open spec fn is_marker(seg: Seq<char>) -> bool {
    trim_end_ws(seg) == seq!['$', '$', '$']
}

/// A tag-name code point: an upper-case ASCII letter or an underscore.
pub open spec fn is_tag_char(c: char) -> bool {
    ('A' <= c && c <= 'Z') || c == '_'
}

/// A valid tag name: non-empty, all tag-name code points.
pub open spec fn is_tag_name(s: Seq<char>) -> bool {
    s.len() > 0 && forall|i: int| 0 <= i < s.len() ==> is_tag_char(#[trigger] s[i])
}

/// `value` recorded under `name`: appended to the existing entry for
/// `name`, or opening a new entry at the end.
pub open spec fn add_tag(
    tags: Seq<(Seq<char>, Seq<Seq<char>>)>,
    name: Seq<char>,
    value: Seq<char>,
) -> Seq<(Seq<char>, Seq<Seq<char>>)>
    decreases tags.len(),
{
    if tags.len() == 0 {
        seq![(name, seq![value])]
    } else if tags[0].0 == name {
        seq![(tags[0].0, tags[0].1.push(value))] + tags.drop_first()
    } else {
        seq![tags[0]] + add_tag(tags.drop_first(), name, value)
    }
}

/// The header scan from position `pos`: a delimiter line ends the header
/// and the rest of the text is the body; a `name: value` line with a valid
/// tag name records a tag; any other line is a comment, recorded without a
/// trailing carriage return.  A header that never closes leaves the whole
/// text as the body.
pub open spec fn meta_scan(
    t: Seq<char>,
    pos: int,
    tags: Seq<(Seq<char>, Seq<Seq<char>>)>,
    comments: Seq<Seq<char>>,
) -> (Seq<(Seq<char>, Seq<Seq<char>>)>, Seq<Seq<char>>, Seq<char>)
    decreases t.len() - pos,
    via meta_scan_decreases
{
    if pos < 0 || pos >= t.len() {
        (tags, comments, t)
    } else {
        let j = find_from(t, pos, '\n');
        let seg = t.subrange(pos, j);
        if is_marker(seg) {
            if j < t.len() {
                (tags, comments, t.skip(j + 1))
            } else {
                (tags, comments, t)
            }
        } else {
            let c = find_from(seg, 0, ':');
            let tagged = c < seg.len() && is_tag_name(trim_ws(seg.take(c)));
            let tags2 = if tagged {
                add_tag(tags, trim_ws(seg.take(c)), trim_ws(seg.skip(c + 1)))
            } else {
                tags
            };
            let comments2 = if tagged {
                comments
            } else {
                comments.push(chomp_cr(seg))
            };
            if j >= t.len() {
                (tags2, comments2, t)
            } else {
                meta_scan(t, j + 1, tags2, comments2)
            }
        }
    }
}

#[via_fn]
proof fn meta_scan_decreases(
    t: Seq<char>,
    pos: int,
    tags: Seq<(Seq<char>, Seq<Seq<char>>)>,
    comments: Seq<Seq<char>>,
) {
    if 0 <= pos < t.len() {
        lemma_find_from_bounds(t, pos, '\n');
    }
}

/// The parsed header of a figure template: its tags, its comments, and the
/// body that follows the closing delimiter.  A text that does not open with
/// a delimiter line has no header: the whole text is the body.
pub open spec fn parse_meta_spec(raw: Seq<char>) -> (
    Seq<(Seq<char>, Seq<Seq<char>>)>,
    Seq<Seq<char>>,
    Seq<char>,
) {
    let t = strip_bom(raw);
    if t.len() == 0 {
        (Seq::empty(), Seq::empty(), t)
    } else {
        let j0 = find_from(t, 0, '\n');
        let first = t.subrange(0, j0);
        if !is_marker(first) {
            (Seq::empty(), Seq::empty(), t)
        } else if j0 >= t.len() {
            (Seq::empty(), Seq::empty(), t)
        } else {
            meta_scan(t, j0 + 1, Seq::empty(), Seq::empty())
        }
    }
}

fn is_marker_exec(seg: &Vec<char>) -> (r: bool)
    ensures
        r == is_marker(seg@),
{
    let e = crate::text::trim_end_pos(seg);
    let ghost tw = trim_end_ws(seg@);
    if e == 3 && seg[0] == '$' && seg[1] == '$' && seg[2] == '$' {
        proof {
            assert(tw =~= seq!['$', '$', '$']);
        }
        true
    } else {
        proof {
            if tw == seq!['$', '$', '$'] {
                assert(tw.len() == 3);
                assert(e == 3);
                assert(tw[0] == seg@[0] && tw[1] == seg@[1] && tw[2] == seg@[2]);
            }
        }
        false
    }
}

fn is_tag_name_exec(v: &Vec<char>) -> (r: bool)
    ensures
        r == is_tag_name(v@),
{
    let len: usize = v.len();
    if len == 0 {
        return false;
    }
    let mut i: usize = 0;
    while i < len
        invariant
            i <= len,
            len == v@.len(),
            forall|u: int| 0 <= u < i ==> is_tag_char(#[trigger] v@[u]),
        decreases len - i,
    {
        let c = v[i];
        if !(('A' <= c && c <= 'Z') || c == '_') {
            return false;
        }
        i = i + 1;
    }
    true
}

proof fn lemma_add_tag_found(
    tv: Seq<(Seq<char>, Seq<Seq<char>>)>,
    name: Seq<char>,
    value: Seq<char>,
    idx: int,
)
    requires
        0 <= idx < tv.len(),
        tv[idx].0 == name,
        forall|u: int| 0 <= u < idx ==> (#[trigger] tv[u]).0 != name,
    ensures
        add_tag(tv, name, value) == tv.update(idx, (tv[idx].0, tv[idx].1.push(value))),
    decreases idx,
{
    if idx == 0 {
        assert(add_tag(tv, name, value) == seq![(tv[0].0, tv[0].1.push(value))] + tv.drop_first());
        assert(seq![(tv[0].0, tv[0].1.push(value))] + tv.drop_first() =~= tv.update(
            0,
            (tv[0].0, tv[0].1.push(value)),
        ));
    } else {
        assert(tv[0].0 != name);
        let rest = tv.drop_first();
        assert(rest[idx - 1] == tv[idx]);
        assert(forall|u: int| 0 <= u < idx - 1 ==> (#[trigger] rest[u]).0 != name);
        lemma_add_tag_found(rest, name, value, idx - 1);
        assert(seq![tv[0]] + rest.update(idx - 1, (rest[idx - 1].0, rest[idx - 1].1.push(value)))
            =~= tv.update(idx, (tv[idx].0, tv[idx].1.push(value))));
    }
}

proof fn lemma_add_tag_missing(
    tv: Seq<(Seq<char>, Seq<Seq<char>>)>,
    name: Seq<char>,
    value: Seq<char>,
)
    requires
        forall|u: int| 0 <= u < tv.len() ==> (#[trigger] tv[u]).0 != name,
    ensures
        add_tag(tv, name, value) == tv + seq![(name, seq![value])],
    decreases tv.len(),
{
    if tv.len() == 0 {
        assert(add_tag(tv, name, value) =~= tv + seq![(name, seq![value])]);
    } else {
        assert(tv[0].0 != name);
        let rest = tv.drop_first();
        assert(forall|u: int| 0 <= u < rest.len() ==> (#[trigger] rest[u]).0 != name) by {
            assert(forall|u: int| 0 <= u < rest.len() ==> rest[u] == tv[u + 1]);
        }
        lemma_add_tag_missing(rest, name, value);
        assert(seq![tv[0]] + (rest + seq![(name, seq![value])]) =~= tv + seq![(name, seq![value])]);
    }
}

/// Record `value` under `name` in the tag list: appended to the existing
/// entry when `name` is already present, or as a new entry at the end.
fn add_tag_exec(tags: &mut Vec<TagEntry>, name: &Vec<char>, value: &Vec<char>)
    ensures
        tags_view(final(tags)@) == add_tag(tags_view(old(tags)@), name@, value@),
{
    let len: usize = tags.len();
    let mut i: usize = 0;
    while i < len
        invariant
            i <= len,
            len == tags@.len(),
            *tags == *old(tags),
            forall|u: int| 0 <= u < i ==> (#[trigger] tags_view(tags@)[u]).0 != name@,
        decreases len - i,
    {
        let en = str_chars(tags[i].name.as_str());
        if chars_eq(&en, name) {
            let ghost before = tags@;
            let mut entry = tags.remove(i);
            entry.values.push(chars_to_string(value));
            let ghost entry_snap = entry;
            tags.insert(i, entry);
            proof {
                assert(tags@ =~= before.update(
                    i as int,
                    entry_snap,
                ));
                lemma_add_tag_found(tags_view(before), name@, value@, i as int);
                assert(entry_snap.values.deep_view() =~= before[i as int].values.deep_view().push(
                    value@,
                ));
                assert(tags_view(tags@) =~= tags_view(before).update(
                    i as int,
                    (tags_view(before)[i as int].0, tags_view(before)[i as int].1.push(value@)),
                ));
            }
            return ;
        }
        proof {
            assert(tags_view(tags@)[i as int].0 == tags@[i as int].name@);
        }
        i = i + 1;
    }
    let ghost before = tags@;
    let mut values: Vec<String> = Vec::new();
    values.push(chars_to_string(value));
    let entry = TagEntry { name: chars_to_string(name), values };
    let ghost entry_snap = entry;
    tags.push(entry);
    proof {
        lemma_add_tag_missing(tags_view(before), name@, value@);
        assert(entry_snap.values.deep_view() =~= seq![value@]);
        assert(tags_view(tags@) =~= tags_view(before) + seq![(name@, seq![value@])]);
    }
}

/// Parse the `$$$`-delimited metadata header of a figure template, handing
/// back the metadata and the body that follows the header.  A template with
/// no opening delimiter has no header; one whose header never closes is
/// kept whole as the body.
pub fn parse_metadata_header(raw: &str) -> (r: (PonyMetadata, String))
    ensures
        r.0.tags_model() == parse_meta_spec(raw@).0,
        r.0.comments_model() == parse_meta_spec(raw@).1,
        r.1@ == parse_meta_spec(raw@).2,
{
    let rv = str_chars(raw);
    let rlen: usize = rv.len();
    let t = if rlen > 0 && rv[0] == '\u{feff}' {
        sub_chars(&rv, 1, rlen)
    } else {
        copy_chars(&rv)
    };
    proof {
        if rlen > 0 && rv@[0] == '\u{feff}' {
            assert(t@ =~= strip_bom(raw@));
        }
    }
    let len: usize = t.len();
    let mut meta = PonyMetadata::default();
    if len == 0 {
        let body = chars_to_string(&t);
        return (meta, body);
    }
    let j0 = find_char(&t, 0, '\n');
    let first = sub_chars(&t, 0, j0);
    if !is_marker_exec(&first) {
        let body = chars_to_string(&t);
        return (meta, body);
    }
    if j0 == len {
        let body = chars_to_string(&t);
        return (meta, body);
    }
    let ghost tv = t@;
    let mut pos: usize = j0 + 1;
    proof {
        assert(meta.tags_model() =~= Seq::<(Seq<char>, Seq<Seq<char>>)>::empty());
        assert(meta.comments_model() =~= Seq::<Seq<char>>::empty());
    }
    while pos < len
        invariant
            pos <= len,
            len == tv.len(),
            tv == t@,
            parse_meta_spec(raw@) == meta_scan(tv, pos as int, meta.tags_model(), meta.comments_model()),
        decreases len - pos,
    {
        let ghost tags0 = meta.tags_model();
        let ghost comments0 = meta.comments_model();
        let j = find_char(&t, pos, '\n');
        let seg = sub_chars(&t, pos, j);
        let ghost segv = tv.subrange(pos as int, j as int);
        if is_marker_exec(&seg) {
            if j < len {
                let body_chars = sub_chars(&t, j + 1, len);
                proof {
                    assert(body_chars@ =~= tv.skip(j + 1));
                }
                let body = chars_to_string(&body_chars);
                return (meta, body);
            } else {
                let body = chars_to_string(&t);
                return (meta, body);
            }
        }
        let seglen: usize = seg.len();
        let c = find_char(&seg, 0, ':');
        let ghost spec_tagged = find_from(segv, 0, ':') < segv.len() && is_tag_name(
            trim_ws(segv.take(find_from(segv, 0, ':'))),
        );
        if c < seglen {
            let rawname = sub_chars(&seg, 0, c);
            let name = crate::text::trim_chars(&rawname);
            proof {
                assert(rawname@ =~= segv.take(c as int));
            }
            if is_tag_name_exec(&name) {
                let rawvalue = sub_chars(&seg, c + 1, seglen);
                let value = crate::text::trim_chars(&rawvalue);
                proof {
                    assert(rawvalue@ =~= segv.skip(c + 1));
                }
                add_tag_exec(&mut meta.tags, &name, &value);
                proof {
                    assert(spec_tagged);
                    assert(meta.tags_model() == add_tag(tags0, trim_ws(segv.take(c as int)), trim_ws(segv.skip(c + 1))));
                }
            } else {
                let ghost prevc = meta.comments;
                let cchars = crate::text::chomp_cr_chars(&seg);
                let cseg = chars_to_string(&cchars);
                let ghost cseg_snap = cseg;
                meta.comments.push(cseg);
                proof {
                    assert(!spec_tagged);
                    crate::text::lemma_deep_push_str(prevc, meta.comments, cseg_snap);
                }
            }
        } else {
            let ghost prevc = meta.comments;
            let cchars = crate::text::chomp_cr_chars(&seg);
            let cseg = chars_to_string(&cchars);
            let ghost cseg_snap = cseg;
            meta.comments.push(cseg);
            proof {
                assert(!spec_tagged);
                crate::text::lemma_deep_push_str(prevc, meta.comments, cseg_snap);
            }
        }
        proof {
            assert(!is_marker(segv));
            assert(find_from(segv, 0, ':') == c as int);
            if spec_tagged {
                assert(meta.comments_model() == comments0);
            } else {
                assert(meta.tags_model() == tags0);
                assert(meta.comments_model() =~= comments0.push(chomp_cr(segv)));
            }
        }
        if j == len {
            proof {
                assert(meta_scan(tv, pos as int, tags0, comments0) == (
                    meta.tags_model(),
                    meta.comments_model(),
                    tv,
                ));
            }
            let body = chars_to_string(&t);
            return (meta, body);
        }
        proof {
            assert(meta_scan(tv, pos as int, tags0, comments0) == meta_scan(
                tv,
                j + 1,
                meta.tags_model(),
                meta.comments_model(),
            ));
        }
        pos = j + 1;
    }
    let body = chars_to_string(&t);
    (meta, body)
}

/// The two paths probed for a figure asset named `name` under `root`: the
/// bare name and the name with the template extension.
pub fn pony_candidates(root: &str, name: &str) -> (r: Vec<String>)
    ensures
        r.deep_view() == seq![
            root@ + "/"@ + name@,
            root@ + "/"@ + name@ + ".pony"@,
        ],
{
    let first = crate::text::concat3(root, "/", name);
    let mut c2 = crate::text::concat3(root, "/", name);
    c2.append(".pony");
    let mut r: Vec<String> = Vec::new();
    let ghost prev0 = r;
    let ghost f_snap = first;
    r.push(first);
    proof {
        crate::text::lemma_deep_push_str(prev0, r, f_snap);
    }
    let ghost prev1 = r;
    let ghost c2_snap = c2;
    r.push(c2);
    proof {
        crate::text::lemma_deep_push_str(prev1, r, c2_snap);
        assert(r.deep_view() =~= seq![
            root@ + "/"@ + name@,
            root@ + "/"@ + name@ + ".pony"@,
        ]);
    }
    r
}

} // verus!
