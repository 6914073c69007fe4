//! The balloon border model: which glyphs draw each part of the border, and
//! the smallest balloon a style can produce.
//!
//! A style names scalar glyphs for the left and right edges and the pieces
//! next to them, per-row glyph lists for the top and bottom borders (a
//! balloon may have an irregular multi-row peak), and three link glyphs used
//! for inline substitution in figure templates.

use vstd::prelude::*;
use vstd::string::StringExecFns;

use crate::text::{
    chars_to_string, lemma_crs_end_idx_bounds, lemma_deep_push_str, lemma_split_lines_count,
    lemma_split_lines_len, split_lines, trim_crs,
};
use crate::text::find_from;
use crate::width::{nmax, rows_fit, rows_short, vis_width, visible_width, widest, MAX_TEXT};

verus! {

/// Whether the balloon speaks or thinks; selects the default style and the
/// style-file suffix.
#[derive(Debug, Clone, Copy, PartialEq, Eq, Structural)]
pub enum BalloonMode {
    Say,
    Think,
}

/// A balloon border style.  Scalar fields are single glyph strings;
/// vector fields are per-row glyph lists for the top and bottom borders,
/// rendered top to bottom.  `min_width` and `min_height` are derived at
/// construction and never mutated: they bound the smallest balloon the
/// style can produce.
#[derive(Debug, Clone)]
pub struct BalloonStyle {
    pub link: String,
    pub link_mirror: String,
    pub link_cross: String,
    pub ww: String,
    pub ee: String,
    pub nw: Vec<String>,
    pub nnw: Vec<String>,
    pub n: Vec<String>,
    pub nne: Vec<String>,
    pub ne: Vec<String>,
    pub nee: String,
    pub e: String,
    pub see: String,
    pub se: Vec<String>,
    pub sse: Vec<String>,
    pub s: Vec<String>,
    pub ssw: Vec<String>,
    pub sw: Vec<String>,
    pub sww: String,
    pub w: String,
    pub nww: String,
    pub min_width: usize,
    pub min_height: usize,
}

impl BalloonStyle {
    /// The widest among the glyphs that bound the minimum balloon width:
    /// the widest top-right and bottom-left corner rows, and the four
    /// right-edge glyphs.
    pub open spec fn spec_min_edge(&self) -> nat {
        nmax(
            nmax(
                nmax(widest(self.ne.deep_view()), vis_width(self.nee@)),
                nmax(vis_width(self.e@), vis_width(self.see@)),
            ),
            nmax(widest(self.sw.deep_view()), vis_width(self.ee@)),
        )
    }

    /// Twice the widest bounding glyph: the narrowest balloon the style
    /// draws.
    pub open spec fn spec_min_width(&self) -> nat {
        self.spec_min_edge() + self.spec_min_edge()
    }

    /// Number of top border rows: the longest of the five top glyph lists.
    pub open spec fn spec_top_count(&self) -> nat {
        nmax(
            nmax(nmax(self.ne.deep_view().len(), self.nne.deep_view().len()), self.n.deep_view().len()),
            nmax(self.nnw.deep_view().len(), self.nw.deep_view().len()),
        )
    }

    /// Number of bottom border rows: the longest of the five bottom glyph
    /// lists.
    pub open spec fn spec_bottom_count(&self) -> nat {
        nmax(
            nmax(nmax(self.se.deep_view().len(), self.sse.deep_view().len()), self.s.deep_view().len()),
            nmax(self.ssw.deep_view().len(), self.sw.deep_view().len()),
        )
    }

    /// Total border rows: the shortest balloon the style draws.
    pub open spec fn spec_min_height(&self) -> nat {
        self.spec_top_count() + self.spec_bottom_count()
    }

    /// Every glyph and glyph list is within the engine's text bound.
    pub open spec fn glyphs_short(&self) -> bool {
        &&& self.ww@.len() <= MAX_TEXT
        &&& self.ee@.len() <= MAX_TEXT
        &&& self.nee@.len() <= MAX_TEXT
        &&& self.e@.len() <= MAX_TEXT
        &&& self.see@.len() <= MAX_TEXT
        &&& self.sww@.len() <= MAX_TEXT
        &&& self.w@.len() <= MAX_TEXT
        &&& self.nww@.len() <= MAX_TEXT
        &&& rows_short(self.nw.deep_view())
        &&& rows_short(self.nnw.deep_view())
        &&& rows_short(self.n.deep_view())
        &&& rows_short(self.nne.deep_view())
        &&& rows_short(self.ne.deep_view())
        &&& rows_short(self.se.deep_view())
        &&& rows_short(self.sse.deep_view())
        &&& rows_short(self.s.deep_view())
        &&& rows_short(self.ssw.deep_view())
        &&& rows_short(self.sw.deep_view())
    }

    /// A well-formed style: the derived minimum dimensions agree with the
    /// glyphs, and every dimension stays far from the integer limits.
    pub open spec fn bounds_ok(&self) -> bool {
        &&& self.glyphs_short()
        &&& self.min_width as nat == self.spec_min_width()
        &&& self.min_height as nat == self.spec_min_height()
        &&& self.min_width <= 6 * MAX_TEXT
        &&& self.min_height <= 2 * MAX_TEXT
    }
}

/// The visible width of the widest row of `v`, 0 when `v` is empty.
pub(crate) fn widest_row(v: &Vec<String>) -> (r: usize)
    requires
        rows_fit(v.deep_view()),
    ensures
        r as nat == widest(v.deep_view()),
        r <= 3 * MAX_TEXT,
{
    let len: usize = v.len();
    let mut best: usize = 0;
    let mut i: usize = 0;
    proof {
        assert(v.deep_view().take(0) =~= Seq::<Seq<char>>::empty());
    }
    while i < len
        invariant
            i <= len,
            len == v@.len(),
            rows_fit(v.deep_view()),
            best as nat == widest(v.deep_view().take(i as int)),
            best <= 3 * MAX_TEXT,
        decreases len - i,
    {
        proof {
            assert(v.deep_view()[i as int] == v@[i as int]@);
        }
        let w = visible_width(v[i].as_str());
        if w > best {
            best = w;
        }
        proof {
            let d = v.deep_view();
            assert(d.take(i + 1).drop_last() =~= d.take(i as int));
            assert(d.take(i + 1).last() == d[i as int]);
        }
        i = i + 1;
    }
    proof {
        assert(v.deep_view().take(len as int) =~= v.deep_view());
    }
    best
}

/// The larger of two counts.
fn umax(a: usize, b: usize) -> (r: usize)
    ensures
        r as nat == nmax(a as nat, b as nat),
{
    if a >= b {
        a
    } else {
        b
    }
}

impl BalloonStyle {
    /// Build a style from its glyphs and derive its minimum box dimensions:
    /// the minimum width is twice the widest of the bounding glyphs, and
    /// the minimum height the longest top list plus the longest bottom
    /// list.
    #[allow(clippy::too_many_arguments)]
    pub fn new(
        link: String,
        link_mirror: String,
        link_cross: String,
        ww: String,
        ee: String,
        nw: Vec<String>,
        nnw: Vec<String>,
        n: Vec<String>,
        nne: Vec<String>,
        ne: Vec<String>,
        nee: String,
        e: String,
        see: String,
        se: Vec<String>,
        sse: Vec<String>,
        s: Vec<String>,
        ssw: Vec<String>,
        sw: Vec<String>,
        sww: String,
        w: String,
        nww: String,
    ) -> (r: BalloonStyle)
        requires
            ww@.len() <= MAX_TEXT,
            ee@.len() <= MAX_TEXT,
            nee@.len() <= MAX_TEXT,
            e@.len() <= MAX_TEXT,
            see@.len() <= MAX_TEXT,
            sww@.len() <= MAX_TEXT,
            w@.len() <= MAX_TEXT,
            nww@.len() <= MAX_TEXT,
            rows_short(nw.deep_view()),
            rows_short(nnw.deep_view()),
            rows_short(n.deep_view()),
            rows_short(nne.deep_view()),
            rows_short(ne.deep_view()),
            rows_short(se.deep_view()),
            rows_short(sse.deep_view()),
            rows_short(s.deep_view()),
            rows_short(ssw.deep_view()),
            rows_short(sw.deep_view()),
        ensures
            r.link == link,
            r.link_mirror == link_mirror,
            r.link_cross == link_cross,
            r.ww == ww,
            r.ee == ee,
            r.nw == nw,
            r.nnw == nnw,
            r.n == n,
            r.nne == nne,
            r.ne == ne,
            r.nee == nee,
            r.e == e,
            r.see == see,
            r.se == se,
            r.sse == sse,
            r.s == s,
            r.ssw == ssw,
            r.sw == sw,
            r.sww == sww,
            r.w == w,
            r.nww == nww,
            r.bounds_ok(),
    {
        let wne = widest_row(&ne);
        let wsw = widest_row(&sw);
        let vnee = visible_width(nee.as_str());
        let ve = visible_width(e.as_str());
        let vsee = visible_width(see.as_str());
        let vee = visible_width(ee.as_str());
        let min_e = umax(umax(umax(wne, vnee), umax(ve, vsee)), umax(wsw, vee));
        let min_width = min_e + min_e;

        let min_n = umax(umax(umax(ne.len(), nne.len()), n.len()), umax(nnw.len(), nw.len()));
        let min_s = umax(umax(umax(se.len(), sse.len()), s.len()), umax(ssw.len(), sw.len()));
        let min_height = min_n + min_s;

        BalloonStyle {
            link,
            link_mirror,
            link_cross,
            ww,
            ee,
            nw,
            nnw,
            n,
            nne,
            ne,
            nee,
            e,
            see,
            se,
            sse,
            s,
            ssw,
            sw,
            sww,
            w,
            nww,
            min_width,
            min_height,
        }
    }
}

/// The conventional speech-bubble style: angled-slash link glyphs and
/// angle-bracket edges.
pub open spec fn is_say_default(r: &BalloonStyle) -> bool {
    &&& r.link@ == "\\"@
    &&& r.link_mirror@ == "/"@
    &&& r.link_cross@ == "X"@
    &&& r.ww@ == "< "@
    &&& r.ee@ == " >"@
    &&& r.nw.deep_view() == seq![" _"@]
    &&& r.nnw.deep_view() == seq!["_"@]
    &&& r.n.deep_view() == seq!["_"@]
    &&& r.nne.deep_view() == seq!["_"@]
    &&& r.ne.deep_view() == seq!["_ "@]
    &&& r.nee@ == " \\"@
    &&& r.e@ == " |"@
    &&& r.see@ == " /"@
    &&& r.se.deep_view() == seq!["- "@]
    &&& r.sse.deep_view() == seq!["-"@]
    &&& r.s.deep_view() == seq!["-"@]
    &&& r.ssw.deep_view() == seq!["-"@]
    &&& r.sw.deep_view() == seq![" -"@]
    &&& r.sww@ == "\\ "@
    &&& r.w@ == "| "@
    &&& r.nww@ == "/ "@
}

/// The thought-bubble style: `o` link glyphs and rounded edges.
pub open spec fn is_think_default(r: &BalloonStyle) -> bool {
    &&& r.link@ == "o"@
    &&& r.link_mirror@ == "o"@
    &&& r.link_cross@ == "o"@
    &&& r.ww@ == "( "@
    &&& r.ee@ == " )"@
    &&& r.nw.deep_view() == seq![" _"@]
    &&& r.nnw.deep_view() == seq!["_"@]
    &&& r.n.deep_view() == seq!["_"@]
    &&& r.nne.deep_view() == seq!["_"@]
    &&& r.ne.deep_view() == seq!["_ "@]
    &&& r.nee@ == " )"@
    &&& r.e@ == " )"@
    &&& r.see@ == " )"@
    &&& r.se.deep_view() == seq!["- "@]
    &&& r.sse.deep_view() == seq!["-"@]
    &&& r.s.deep_view() == seq!["-"@]
    &&& r.ssw.deep_view() == seq!["-"@]
    &&& r.sw.deep_view() == seq![" -"@]
    &&& r.sww@ == "( "@
    &&& r.w@ == "( "@
    &&& r.nww@ == "( "@
}

/// One glyph string from a literal.
fn glyph(text: &str) -> (r: String)
    ensures
        r@ == text@,
{
    String::from_str(text)
}

/// A one-row glyph list from a literal.
fn glyph_row(text: &str) -> (r: Vec<String>)
    ensures
        r.deep_view() == seq![text@],
{
    let mut v: Vec<String> = Vec::new();
    let ghost prev = v;
    let g = String::from_str(text);
    let ghost g_snap = g;
    v.push(g);
    proof {
        lemma_deep_push_str(prev, v, g_snap);
        assert(prev.deep_view() =~= Seq::<Seq<char>>::empty());
        assert(prev.deep_view() + seq![text@] =~= seq![text@]);
    }
    v
}

impl BalloonStyle {
    /// The compiled-in default style for `mode`.
    pub fn default_for_mode(mode: BalloonMode) -> (r: BalloonStyle)
        ensures
            mode == BalloonMode::Say ==> is_say_default(&r),
            mode == BalloonMode::Think ==> is_think_default(&r),
            r.bounds_ok(),
    {
        proof {
            reveal_strlit("\\");
            reveal_strlit("/");
            reveal_strlit("X");
            reveal_strlit("o");
            reveal_strlit("< ");
            reveal_strlit(" >");
            reveal_strlit("( ");
            reveal_strlit(" )");
            reveal_strlit(" _");
            reveal_strlit("_");
            reveal_strlit("_ ");
            reveal_strlit(" \\");
            reveal_strlit(" |");
            reveal_strlit(" /");
            reveal_strlit("- ");
            reveal_strlit("-");
            reveal_strlit(" -");
            reveal_strlit("\\ ");
            reveal_strlit("| ");
            reveal_strlit("/ ");
        }
        match mode {
            BalloonMode::Think => BalloonStyle::new(
                glyph("o"),
                glyph("o"),
                glyph("o"),
                glyph("( "),
                glyph(" )"),
                glyph_row(" _"),
                glyph_row("_"),
                glyph_row("_"),
                glyph_row("_"),
                glyph_row("_ "),
                glyph(" )"),
                glyph(" )"),
                glyph(" )"),
                glyph_row("- "),
                glyph_row("-"),
                glyph_row("-"),
                glyph_row("-"),
                glyph_row(" -"),
                glyph("( "),
                glyph("( "),
                glyph("( "),
            ),
            BalloonMode::Say => BalloonStyle::new(
                glyph("\\"),
                glyph("/"),
                glyph("X"),
                glyph("< "),
                glyph(" >"),
                glyph_row(" _"),
                glyph_row("_"),
                glyph_row("_"),
                glyph_row("_"),
                glyph_row("_ "),
                glyph(" \\"),
                glyph(" |"),
                glyph(" /"),
                glyph_row("- "),
                glyph_row("-"),
                glyph_row("-"),
                glyph_row("-"),
                glyph_row(" -"),
                glyph("\\ "),
                glyph("| "),
                glyph("/ "),
            ),
        }
    }
}

/// Index of a recognized style-file key in the fixed key table, or -1 for
/// an unrecognized key.  The first three keys name the link glyphs; the
/// rest name border glyphs.
pub open spec fn key_index(k: Seq<char>) -> int {
    if k == "\\"@ {
        0
    } else if k == "/"@ {
        1
    } else if k == "X"@ {
        2
    } else if k == "ww"@ {
        3
    } else if k == "ee"@ {
        4
    } else if k == "nw"@ {
        5
    } else if k == "nnw"@ {
        6
    } else if k == "n"@ {
        7
    } else if k == "nne"@ {
        8
    } else if k == "ne"@ {
        9
    } else if k == "nee"@ {
        10
    } else if k == "e"@ {
        11
    } else if k == "see"@ {
        12
    } else if k == "se"@ {
        13
    } else if k == "sse"@ {
        14
    } else if k == "s"@ {
        15
    } else if k == "ssw"@ {
        16
    } else if k == "sw"@ {
        17
    } else if k == "sww"@ {
        18
    } else if k == "w"@ {
        19
    } else if k == "nww"@ {
        20
    } else {
        -1
    }
}

/// The empty key table: one empty value list per recognized key.
pub open spec fn empty_table() -> Seq<Seq<Seq<char>>> {
    Seq::new(21, |i: int| Seq::<Seq<char>>::empty())
}

/// The key table after reading the lines from `i` on.  A `key:value` line
/// with a recognized key appends the value to that key's list and makes it
/// current; a line starting with `:` appends a continuation value to the
/// current key; blank lines, colon-free lines and unrecognized keys are
/// ignored.  `last` is the current key, -1 when none has been set.
pub open spec fn style_table(
    lines: Seq<Seq<char>>,
    i: int,
    tbl: Seq<Seq<Seq<char>>>,
    last: int,
) -> Seq<Seq<Seq<char>>>
    decreases lines.len() - i,
    via style_table_decreases
{
    if i < 0 || i >= lines.len() {
        tbl
    } else {
        let l = trim_crs(lines[i]);
        if l.len() == 0 {
            style_table(lines, i + 1, tbl, last)
        } else if l[0] == ':' {
            if 0 <= last < 21 {
                style_table(lines, i + 1, tbl.update(last, tbl[last].push(l.skip(1))), last)
            } else {
                style_table(lines, i + 1, tbl, last)
            }
        } else {
            let c = find_from(l, 0, ':');
            if c == l.len() {
                style_table(lines, i + 1, tbl, last)
            } else {
                let k = key_index(l.take(c));
                if k >= 0 {
                    style_table(lines, i + 1, tbl.update(k, tbl[k].push(l.skip(c + 1))), k)
                } else {
                    style_table(lines, i + 1, tbl, last)
                }
            }
        }
    }
}

#[via_fn]
proof fn style_table_decreases(lines: Seq<Seq<char>>, i: int, tbl: Seq<Seq<Seq<char>>>, last: int) {
}

/// The key table of a whole style file.
pub open spec fn parse_style_spec(text: Seq<char>) -> Seq<Seq<Seq<char>>> {
    style_table(split_lines(text), 0, empty_table(), -1)
}

/// The scalar value of key `i`: its first recorded value, or the empty
/// glyph.
pub open spec fn table_one(tbl: Seq<Seq<Seq<char>>>, i: int) -> Seq<char> {
    if 0 <= i < tbl.len() && tbl[i].len() > 0 {
        tbl[i][0]
    } else {
        Seq::empty()
    }
}

/// The row list of key `i`: all its recorded values, in file order.
pub open spec fn table_many(tbl: Seq<Seq<Seq<char>>>, i: int) -> Seq<Seq<char>> {
    if 0 <= i < tbl.len() {
        tbl[i]
    } else {
        Seq::empty()
    }
}

/// `r` is the style that the style-file text parses to: each glyph field
/// carries its key's value from the key table, and the minimum dimensions
/// are derived from those glyphs.
pub open spec fn parsed_style_matches(r: &BalloonStyle, text: Seq<char>) -> bool {
    let tbl = parse_style_spec(text);
    &&& r.link@ == table_one(tbl, 0)
    &&& r.link_mirror@ == table_one(tbl, 1)
    &&& r.link_cross@ == table_one(tbl, 2)
    &&& r.ww@ == table_one(tbl, 3)
    &&& r.ee@ == table_one(tbl, 4)
    &&& r.nw.deep_view() == table_many(tbl, 5)
    &&& r.nnw.deep_view() == table_many(tbl, 6)
    &&& r.n.deep_view() == table_many(tbl, 7)
    &&& r.nne.deep_view() == table_many(tbl, 8)
    &&& r.ne.deep_view() == table_many(tbl, 9)
    &&& r.nee@ == table_one(tbl, 10)
    &&& r.e@ == table_one(tbl, 11)
    &&& r.see@ == table_one(tbl, 12)
    &&& r.se.deep_view() == table_many(tbl, 13)
    &&& r.sse.deep_view() == table_many(tbl, 14)
    &&& r.s.deep_view() == table_many(tbl, 15)
    &&& r.ssw.deep_view() == table_many(tbl, 16)
    &&& r.sw.deep_view() == table_many(tbl, 17)
    &&& r.sww@ == table_one(tbl, 18)
    &&& r.w@ == table_one(tbl, 19)
    &&& r.nww@ == table_one(tbl, 20)
    &&& r.bounds_ok()
}

/// Index of the key named by `tok`, or 21 when the key is unrecognized.
fn key_index_exec(tok: &Vec<char>) -> (r: usize)
    ensures
        r <= 21,
        r < 21 ==> r as int == key_index(tok@),
        r == 21 ==> key_index(tok@) == -1,
{
    if chars_eq_str(tok, "\\") {
        0
    } else if chars_eq_str(tok, "/") {
        1
    } else if chars_eq_str(tok, "X") {
        2
    } else if chars_eq_str(tok, "ww") {
        3
    } else if chars_eq_str(tok, "ee") {
        4
    } else if chars_eq_str(tok, "nw") {
        5
    } else if chars_eq_str(tok, "nnw") {
        6
    } else if chars_eq_str(tok, "n") {
        7
    } else if chars_eq_str(tok, "nne") {
        8
    } else if chars_eq_str(tok, "ne") {
        9
    } else if chars_eq_str(tok, "nee") {
        10
    } else if chars_eq_str(tok, "e") {
        11
    } else if chars_eq_str(tok, "see") {
        12
    } else if chars_eq_str(tok, "se") {
        13
    } else if chars_eq_str(tok, "sse") {
        14
    } else if chars_eq_str(tok, "s") {
        15
    } else if chars_eq_str(tok, "ssw") {
        16
    } else if chars_eq_str(tok, "sw") {
        17
    } else if chars_eq_str(tok, "sww") {
        18
    } else if chars_eq_str(tok, "w") {
        19
    } else if chars_eq_str(tok, "nww") {
        20
    } else {
        21
    }
}

/// Whether `tok` spells exactly the literal `s`.
fn chars_eq_str(tok: &Vec<char>, s: &str) -> (r: bool)
    ensures
        r == (tok@ == s@),
{
    let sv = crate::text::str_chars(s);
    crate::text::chars_eq(tok, &sv)
}

proof fn lemma_table_update(
    before: Vec<Vec<String>>,
    after: Vec<Vec<String>>,
    k: int,
    elem: Vec<String>,
    val: String,
)
    requires
        0 <= k < before@.len(),
        after@ == before@.update(k, elem),
        elem@ == before@[k]@.push(val),
    ensures
        after.deep_view() == before.deep_view().update(k, before.deep_view()[k].push(val@)),
{
    assert(elem.deep_view() =~= before.deep_view()[k].push(val@)) by {
        assert(forall|u: int| 0 <= u < before@[k]@.len() ==> elem@[u] == before@[k]@[u]);
    }
    assert(after.deep_view() =~= before.deep_view().update(
        k,
        before.deep_view()[k].push(val@),
    )) by {
        assert(forall|u: int| 0 <= u < before@.len() && u != k ==> after@[u] == before@[u]);
    }
}

/// Read the scalar value of key `i` out of the parsed table.
fn take_one(tbl: &Vec<Vec<String>>, i: usize) -> (r: String)
    requires
        i < tbl@.len(),
    ensures
        r@ == table_one(tbl.deep_view(), i as int),
{
    let row = &tbl[i];
    if row.len() > 0 {
        let r = row[0].clone();
        proof {
            assert(tbl.deep_view()[i as int][0] == tbl@[i as int]@[0]@);
        }
        r
    } else {
        let r = String::new();
        proof {
            assert(tbl.deep_view()[i as int].len() == 0);
        }
        r
    }
}

/// Read the row list of key `i` out of the parsed table.
fn take_many(tbl: &Vec<Vec<String>>, i: usize) -> (r: Vec<String>)
    requires
        i < tbl@.len(),
    ensures
        r.deep_view() == table_many(tbl.deep_view(), i as int),
        r@.len() == tbl.deep_view()[i as int].len(),
{
    let r = crate::text::clone_strings(&tbl[i]);
    proof {
        assert(tbl.deep_view()[i as int] =~= tbl@[i as int].deep_view());
    }
    r
}

/// Parse the line-oriented `key:value` style format: a recognized key
/// records its value (and becomes current), a line starting with `:`
/// appends a continuation row to the current key, and everything else is
/// ignored.  Parsing never fails: missing keys leave empty glyphs.
pub fn parse_style(text: &str) -> (r: BalloonStyle)
    requires
        text@.len() <= MAX_TEXT,
    ensures
        parsed_style_matches(&r, text@),
{
    let tv = crate::text::str_chars(text);
    let lines = crate::text::split_lines_chars(&tv);
    let ghost lv = split_lines(text@);
    let n: usize = lines.len();
    let mut tbl: Vec<Vec<String>> = Vec::new();
    let mut setup: usize = 0;
    while setup < 21
        invariant
            setup <= 21,
            tbl@.len() == setup,
            forall|u: int| 0 <= u < setup ==> #[trigger] tbl.deep_view()[u] == Seq::<
                Seq<char>,
            >::empty(),
        decreases 21 - setup,
    {
        let ghost prev = tbl;
        tbl.push(Vec::new());
        proof {
            assert forall|u: int| 0 <= u < setup + 1 implies #[trigger] tbl.deep_view()[u] == Seq::<
                Seq<char>,
            >::empty() by {
                if u < setup {
                    assert(tbl@[u] == prev@[u]);
                    assert(prev.deep_view()[u] == prev@[u].deep_view());
                    assert(tbl.deep_view()[u] == tbl@[u].deep_view());
                } else {
                    assert(tbl@[u].deep_view() =~= Seq::<Seq<char>>::empty());
                }
            }
        }
        setup = setup + 1;
    }
    proof {
        assert(tbl.deep_view() =~= empty_table());
        lemma_split_lines_count(text@);
        lemma_split_lines_len(text@);
    }
    let mut last: usize = 21;
    let mut i: usize = 0;
    while i < n
        invariant
            i <= n,
            n == lines@.len(),
            n == lv.len() <= MAX_TEXT,
            lines.deep_view() == lv,
            forall|q: int| 0 <= q < lv.len() ==> (#[trigger] lv[q]).len() <= MAX_TEXT,
            tbl@.len() == 21,
            last <= 21,
            parse_style_spec(text@) == style_table(
                lv,
                i as int,
                tbl.deep_view(),
                if last == 21 {
                    -1
                } else {
                    last as int
                },
            ),
            forall|u: int|
                0 <= u < 21 ==> (#[trigger] tbl.deep_view()[u]).len() <= i,
            forall|u: int, w: int|
                0 <= u < 21 && 0 <= w < tbl.deep_view()[u].len() ==> (
                #[trigger] tbl.deep_view()[u][w]).len() <= MAX_TEXT,
        decreases n - i,
    {
        let ghost tbl0 = tbl.deep_view();
        let ghost last0: int = if last == 21 {
            -1
        } else {
            last as int
        };
        proof {
            assert(lines@[i as int]@ == lv[i as int]);
        }
        let l = crate::text::trim_crs_chars(&lines[i]);
        let ghost lw = trim_crs(lv[i as int]);
        proof {
            lemma_crs_end_idx_bounds(lv[i as int]);
            assert(lw.len() <= lv[i as int].len());
        }
        let llen: usize = l.len();
        if llen == 0 {
            // ignored
        } else if l[0] == ':' {
            if last < 21 {
                let value = crate::text::sub_chars(&l, 1, llen);
                proof {
                    assert(value@ =~= lw.skip(1));
                }
                let ghost before = tbl;
                let vs = chars_to_string(&value);
                let ghost vs_snap = vs;
                tbl[last].push(vs);
                proof {
                    lemma_table_update(
                        before,
                        tbl,
                        last as int,
                        tbl@[last as int],
                        vs_snap,
                    );
                }
            }
        } else {
            let c = crate::text::find_char(&l, 0, ':');
            if c < llen {
                let key = crate::text::sub_chars(&l, 0, c);
                proof {
                    assert(key@ =~= lw.take(c as int));
                }
                let k = key_index_exec(&key);
                if k < 21 {
                    let value = crate::text::sub_chars(&l, c + 1, llen);
                    proof {
                        assert(value@ =~= lw.skip(c + 1));
                    }
                    let ghost before = tbl;
                    let vs = chars_to_string(&value);
                    let ghost vs_snap = vs;
                    tbl[k].push(vs);
                    proof {
                        lemma_table_update(before, tbl, k as int, tbl@[k as int], vs_snap);
                    }
                    last = k;
                }
            }
        }
        proof {
            assert(style_table(lv, i as int, tbl0, last0) == style_table(
                lv,
                i + 1,
                tbl.deep_view(),
                if last == 21 {
                    -1
                } else {
                    last as int
                },
            ));
        }
        i = i + 1;
    }
    proof {
        assert(parse_style_spec(text@) == tbl.deep_view());
        assert forall|u: int| 0 <= u < 21 implies rows_short(#[trigger] tbl.deep_view()[u]) by {
            assert(tbl.deep_view()[u].len() <= n <= MAX_TEXT);
        }
    }
    let link = take_one(&tbl, 0);
    let link_mirror = take_one(&tbl, 1);
    let link_cross = take_one(&tbl, 2);
    let ww = take_one(&tbl, 3);
    let ee = take_one(&tbl, 4);
    let nw = take_many(&tbl, 5);
    let nnw = take_many(&tbl, 6);
    let n_rows = take_many(&tbl, 7);
    let nne = take_many(&tbl, 8);
    let ne = take_many(&tbl, 9);
    let nee = take_one(&tbl, 10);
    let e = take_one(&tbl, 11);
    let see = take_one(&tbl, 12);
    let se = take_many(&tbl, 13);
    let sse = take_many(&tbl, 14);
    let s_rows = take_many(&tbl, 15);
    let ssw = take_many(&tbl, 16);
    let sw = take_many(&tbl, 17);
    let sww = take_one(&tbl, 18);
    let w = take_one(&tbl, 19);
    let nww = take_one(&tbl, 20);
    BalloonStyle::new(
        link,
        link_mirror,
        link_cross,
        ww,
        ee,
        nw,
        nnw,
        n_rows,
        nne,
        ne,
        nee,
        e,
        see,
        se,
        sse,
        s_rows,
        ssw,
        sw,
        sww,
        w,
        nww,
    )
}

/// The style-file suffix of a balloon mode.
pub open spec fn mode_suffix(mode: BalloonMode) -> Seq<char> {
    if mode == BalloonMode::Say {
        "say"@
    } else {
        "think"@
    }
}

/// The requested name carries a path separator, so it is also tried as a
/// path of its own.
pub open spec fn contains_slash(name: Seq<char>) -> bool {
    exists|i: int| 0 <= i < name.len() && name[i] == '/'
}

/// The three paths probed under one search root: the bare name, the name
/// with the mode suffix, and the name with the generic style extension.
pub open spec fn root_candidates(root: Seq<char>, name: Seq<char>, sfx: Seq<char>) -> Seq<
    Seq<char>,
> {
    seq![
        root + "/"@ + name,
        root + "/"@ + name + "."@ + sfx,
        root + "/"@ + name + ".balloon"@,
    ]
}

/// The candidate paths from search root `t` on.
pub open spec fn roots_candidates(
    roots: Seq<Seq<char>>,
    t: int,
    name: Seq<char>,
    sfx: Seq<char>,
) -> Seq<Seq<char>>
    decreases roots.len() - t,
{
    if t < 0 || t >= roots.len() {
        Seq::empty()
    } else {
        root_candidates(roots[t], name, sfx) + roots_candidates(roots, t + 1, name, sfx)
    }
}

/// Every path probed for a style named `name`: the name itself first when
/// it already looks like a path, then three candidates per search root, in
/// root order.
pub open spec fn candidates_spec(name: Seq<char>, roots: Seq<Seq<char>>, mode: BalloonMode) -> Seq<
    Seq<char>,
> {
    (if contains_slash(name) {
        seq![name]
    } else {
        Seq::empty()
    }) + roots_candidates(roots, 0, name, mode_suffix(mode))
}

/// The ordered candidate paths for resolving the style named `name`
/// against `roots` in `mode`.
pub fn style_candidates(name: &str, roots: &Vec<String>, mode: BalloonMode) -> (out: Vec<String>)
    ensures
        out.deep_view() == candidates_spec(name@, roots.deep_view(), mode),
{
    let ghost rd = roots.deep_view();
    let ghost sfxv = mode_suffix(mode);
    let mut out: Vec<String> = Vec::new();
    let nv = crate::text::str_chars(name);
    let nlen: usize = nv.len();
    let slash = crate::text::find_char(&nv, 0, '/');
    let ghost direct: Seq<Seq<char>> = if contains_slash(name@) {
        seq![name@]
    } else {
        Seq::empty()
    };
    if slash < nlen {
        let ghost prev = out;
        let d = String::from_str(name);
        let ghost d_snap = d;
        out.push(d);
        proof {
            lemma_deep_push_str(prev, out, d_snap);
            assert(contains_slash(name@));
            assert(out.deep_view() =~= direct);
        }
    } else {
        proof {
            crate::text::lemma_find_from_bounds(nv@, 0, '/');
            assert(!contains_slash(name@));
            assert(out.deep_view() =~= direct);
        }
    }
    let sfx: &str = match mode {
        BalloonMode::Say => "say",
        BalloonMode::Think => "think",
    };
    proof {
        assert(sfx@ == sfxv);
    }
    let n: usize = roots.len();
    let mut t: usize = 0;
    proof {
        assert(out.deep_view() + roots_candidates(rd, 0, name@, sfxv) =~= candidates_spec(
            name@,
            rd,
            mode,
        ));
    }
    while t < n
        invariant
            t <= n,
            n == roots@.len(),
            rd == roots.deep_view(),
            sfx@ == sfxv,
            candidates_spec(name@, rd, mode) == out.deep_view() + roots_candidates(
                rd,
                t as int,
                name@,
                sfxv,
            ),
        decreases n - t,
    {
        proof {
            assert(roots@[t as int]@ == rd[t as int]);
        }
        let c1 = crate::text::concat3(roots[t].as_str(), "/", name);
        let mut c2 = crate::text::concat3(roots[t].as_str(), "/", name);
        c2.append(".");
        c2.append(sfx);
        let mut c3 = crate::text::concat3(roots[t].as_str(), "/", name);
        c3.append(".balloon");
        let ghost prev = out;
        let ghost c1s = c1;
        out.push(c1);
        proof {
            lemma_deep_push_str(prev, out, c1s);
        }
        let ghost prev2 = out;
        let ghost c2s = c2;
        out.push(c2);
        proof {
            lemma_deep_push_str(prev2, out, c2s);
        }
        let ghost prev3 = out;
        let ghost c3s = c3;
        out.push(c3);
        proof {
            lemma_deep_push_str(prev3, out, c3s);
            assert(c2s@ == rd[t as int] + "/"@ + name@ + "."@ + sfxv);
            assert(c3s@ == rd[t as int] + "/"@ + name@ + ".balloon"@);
            assert(prev.deep_view() + root_candidates(rd[t as int], name@, sfxv)
                =~= out.deep_view());
            assert(roots_candidates(rd, t as int, name@, sfxv) == root_candidates(
                rd[t as int],
                name@,
                sfxv,
            ) + roots_candidates(rd, t + 1, name@, sfxv));
            assert(prev.deep_view() + (root_candidates(rd[t as int], name@, sfxv)
                + roots_candidates(rd, t + 1, name@, sfxv)) =~= out.deep_view()
                + roots_candidates(rd, t + 1, name@, sfxv));
        }
        t = t + 1;
    }
    proof {
        assert(roots_candidates(rd, n as int, name@, sfxv) =~= Seq::<Seq<char>>::empty());
        assert(out.deep_view() + Seq::<Seq<char>>::empty() =~= out.deep_view());
    }
    out
}

/// Index of the first source that could be read, or the number of sources.
pub open spec fn first_some(ts: Seq<Option<String>>, t: int) -> int
    decreases ts.len() - t,
{
    if t < 0 || t >= ts.len() {
        ts.len() as int
    } else if ts[t] is Some {
        t
    } else {
        first_some(ts, t + 1)
    }
}

/// Resolve a balloon style.  With no requested name the compiled-in default
/// for `mode` is returned.  With a name, `sources` holds the text of each
/// candidate file in probe order (`None` for a candidate that could not be
/// read): the first readable candidate is parsed, and the style is reported
/// as not found only when no candidate could be read.
pub fn load_style(name: Option<&str>, sources: &Vec<Option<String>>, mode: BalloonMode) -> (r:
    Option<BalloonStyle>)
    requires
        forall|i: int|
            0 <= i < sources@.len() ==> (#[trigger] sources@[i] matches Some(s) ==> s@.len()
                <= MAX_TEXT),
    ensures
        name is None && mode == BalloonMode::Say ==> (r matches Some(st) && is_say_default(&st)),
        name is None && mode == BalloonMode::Think ==> (r matches Some(st) && is_think_default(
            &st,
        )),
        name is None ==> (r matches Some(st) && st.bounds_ok()),
        name is Some ==> {
            let k = first_some(sources@, 0);
            if k < sources@.len() {
                r matches Some(st) && (sources@[k] matches Some(tx) && parsed_style_matches(
                    &st,
                    tx@,
                ))
            } else {
                r is None
            }
        },
{
    match name {
        None => {
            let st = BalloonStyle::default_for_mode(mode);
            proof {
                if mode == BalloonMode::Say {
                    assert(is_say_default(&st));
                }
                if mode == BalloonMode::Think {
                    assert(is_think_default(&st));
                }
            }
            Some(st)
        },
        Some(_) => {
            let n: usize = sources.len();
            let mut i: usize = 0;
            while i < n
                invariant
                    name is Some,
                    i <= n,
                    n == sources@.len(),
                    first_some(sources@, 0) == first_some(sources@, i as int),
                    forall|u: int|
                        0 <= u < sources@.len() ==> (#[trigger] sources@[u] matches Some(s)
                            ==> s@.len() <= MAX_TEXT),
                decreases n - i,
            {
                match &sources[i] {
                    Some(text) => {
                        proof {
                            assert(first_some(sources@, i as int) == i);
                        }
                        return Some(parse_style(text.as_str()));
                    },
                    None => {
                        proof {
                            assert(sources@[i as int] is None);
                        }
                    },
                }
                i = i + 1;
            }
            proof {
                assert(first_some(sources@, n as int) == n);
            }
            None
        },
    }
}

} // verus!
