//! The top-level rendering interface: configuration, error taxonomy, asset
//! name lists, figure selection, and the full render pipeline from message
//! and template to the finished block of text.

use vstd::prelude::*;
use vstd::string::StringExecFns;

use crate::balloon::{render_balloon, render_balloon_spec};
use crate::fortune::{fortune_error_text, FortuneConfig, FortuneDb, FortuneError};
use crate::pony::{insert_balloon, insert_spec};
use crate::rng::{rng_below, seeded_rng};
use crate::style::BalloonStyle;
use crate::text::{
    all_space, chars_eq, is_blank, lemma_deep_push_str, str_chars,
};
use crate::width::{MAX_MSG, MAX_TEXT};

verus! {

/// Why a render could not be produced.
#[derive(Debug)]
pub enum PonyError {
    /// No message was provided at all.
    NoMessage,
    /// The requested figure was not found under any search root.
    PonyNotFound { name: String },
    /// The requested balloon style was not found under any search root.
    BalloonNotFound { name: String },
    /// A file that should exist could not be read.
    Io { path: String, message: String },
    /// Fortune selection failed, with the fortune error's text.
    Fortune(String),
}

/// The text of a render error, for callers that report it.
pub open spec fn pony_error_text(e: &PonyError) -> Seq<char> {
    match e {
        PonyError::NoMessage => "no message was provided (message arg, stdin, or --fortune)"@,
        PonyError::PonyNotFound { name } => "pony '"@ + name@ + "' was not found"@,
        PonyError::BalloonNotFound { name } => "balloon style '"@ + name@ + "' was not found"@,
        PonyError::Io { path, message } => "io error for "@ + path@ + ": "@ + message@,
        PonyError::Fortune(text) => "fortune selection failed: "@ + text@,
    }
}

impl PonyError {
    /// Render the error as one line of text.
    pub fn message(&self) -> (r: String)
        ensures
            r@ == pony_error_text(self),
    {
        match self {
            PonyError::NoMessage => String::from_str(
                "no message was provided (message arg, stdin, or --fortune)",
            ),
            PonyError::PonyNotFound { name } => {
                let mut r = String::from_str("pony '");
                r.append(name.as_str());
                r.append("' was not found");
                r
            },
            PonyError::BalloonNotFound { name } => {
                let mut r = String::from_str("balloon style '");
                r.append(name.as_str());
                r.append("' was not found");
                r
            },
            PonyError::Io { path, message } => {
                let mut r = String::from_str("io error for ");
                r.append(path.as_str());
                r.append(": ");
                r.append(message.as_str());
                r
            },
            PonyError::Fortune(text) => {
                let mut r = String::from_str("fortune selection failed: ");
                r.append(text.as_str());
                r
            },
        }
    }
}

/// Whether the balloon speaks or thinks.
#[derive(Debug, Clone, Copy, PartialEq, Eq, Structural)]
pub enum Mode {
    Say,
    Think,
}

/// The balloon mode matching a render mode.
pub open spec fn balloon_mode_of(mode: Mode) -> crate::style::BalloonMode {
    if mode == Mode::Say {
        crate::style::BalloonMode::Say
    } else {
        crate::style::BalloonMode::Think
    }
}

/// One render's inputs: the message, the figure and balloon names, the
/// search roots (as plain path strings), the mode and the wrap width.
#[derive(Debug, Clone)]
pub struct RenderConfig {
    pub message: String,
    pub pony: String,
    pub pony_paths: Vec<String>,
    pub balloon: Option<String>,
    pub balloon_paths: Vec<String>,
    pub mode: Mode,
    pub wrap_width: usize,
}

impl Default for RenderConfig {
    /// An empty message and figure name, the conventional search roots,
    /// the default balloon in say mode, and a wrap width of 40 columns.
    fn default() -> (r: Self)
        ensures
            r.message@ == Seq::<char>::empty(),
            r.pony@ == Seq::<char>::empty(),
            r.pony_paths.deep_view() == default_pony_path_list(),
            r.balloon is None,
            r.balloon_paths.deep_view() == default_balloon_path_list(),
            r.mode == Mode::Say,
            r.wrap_width == 40,
    {
        RenderConfig {
            message: String::new(),
            pony: String::new(),
            pony_paths: default_pony_paths(),
            balloon: None,
            balloon_paths: default_balloon_paths(),
            mode: Mode::Say,
            wrap_width: 40,
        }
    }
}

/// The conventional figure search roots, in probe order.
pub open spec fn default_pony_path_list() -> Seq<Seq<char>> {
    seq![
        "/usr/share/ponysay/ponies"@,
        "/usr/share/ponysay/extraponies"@,
        "/usr/share/ponysay/ttyponies"@,
        "/usr/local/share/ponysay/ponies"@,
        "/usr/local/share/ponysay/extraponies"@,
        "/usr/local/share/ponysay/ttyponies"@,
    ]
}

/// The conventional balloon search roots, in probe order.
pub open spec fn default_balloon_path_list() -> Seq<Seq<char>> {
    seq!["/usr/share/ponysay/balloons"@, "/usr/local/share/ponysay/balloons"@]
}

/// The conventional figure search roots.
pub fn default_pony_paths() -> (r: Vec<String>)
    ensures
        r.deep_view() == default_pony_path_list(),
{
    let mut r: Vec<String> = Vec::new();
    push_path(&mut r, "/usr/share/ponysay/ponies");
    push_path(&mut r, "/usr/share/ponysay/extraponies");
    push_path(&mut r, "/usr/share/ponysay/ttyponies");
    push_path(&mut r, "/usr/local/share/ponysay/ponies");
    push_path(&mut r, "/usr/local/share/ponysay/extraponies");
    push_path(&mut r, "/usr/local/share/ponysay/ttyponies");
    proof {
        assert(r.deep_view() =~= default_pony_path_list());
    }
    r
}

/// The conventional balloon search roots.
pub fn default_balloon_paths() -> (r: Vec<String>)
    ensures
        r.deep_view() == default_balloon_path_list(),
{
    let mut r: Vec<String> = Vec::new();
    push_path(&mut r, "/usr/share/ponysay/balloons");
    push_path(&mut r, "/usr/local/share/ponysay/balloons");
    proof {
        assert(r.deep_view() =~= default_balloon_path_list());
    }
    r
}

fn push_path(r: &mut Vec<String>, p: &str)
    ensures
        final(r).deep_view() == old(r).deep_view() + seq![p@],
{
    let ghost prev = *r;
    let s = String::from_str(p);
    let ghost s_snap = s;
    r.push(s);
    proof {
        lemma_deep_push_str(prev, *r, s_snap);
    }
}

/// Strict lexicographic order on code-point sequences, by code point value.
pub open spec fn lex_le(a: Seq<char>, b: Seq<char>) -> bool
    decreases a.len(),
{
    if a.len() == 0 {
        true
    } else if b.len() == 0 {
        false
    } else if (a[0] as u32) == (b[0] as u32) {
        lex_le(a.drop_first(), b.drop_first())
    } else {
        (a[0] as u32) < (b[0] as u32)
    }
}

/// `a` strictly before `b`.
pub open spec fn lex_lt(a: Seq<char>, b: Seq<char>) -> bool {
    lex_le(a, b) && a != b
}

/// The order is total.
pub proof fn lemma_lex_total(a: Seq<char>, b: Seq<char>)
    ensures
        lex_le(a, b) || lex_le(b, a),
    decreases a.len(),
{
    if a.len() > 0 && b.len() > 0 && (a[0] as u32) == (b[0] as u32) {
        lemma_lex_total(a.drop_first(), b.drop_first());
    }
}

/// The order is antisymmetric.
pub proof fn lemma_lex_antisym(a: Seq<char>, b: Seq<char>)
    requires
        lex_le(a, b),
        lex_le(b, a),
    ensures
        a == b,
    decreases a.len(),
{
    if a.len() == 0 {
        assert(b.len() == 0);
        assert(a =~= b);
    } else {
        assert(b.len() > 0);
        assert((a[0] as u32) == (b[0] as u32));
        lemma_char_code_same(a[0], b[0]);
        lemma_lex_antisym(a.drop_first(), b.drop_first());
        assert(a.len() == b.len());
        assert forall|i: int| 0 <= i < a.len() implies a[i] == b[i] by {
            if i > 0 {
                assert(a.drop_first()[i - 1] == b.drop_first()[i - 1]);
            }
        }
        assert(a =~= b);
    }
}

/// Code points with one value are one code point.
proof fn lemma_char_code_same(a: char, b: char)
    requires
        (a as u32) == (b as u32),
    ensures
        a == b,
{
    vstd::utf8::char_u32_cast(a, a as u32);
    vstd::utf8::char_u32_cast(b, b as u32);
}

/// Whether `a` is at or before `b` in the name order.
fn lex_le_chars(a: &Vec<char>, b: &Vec<char>) -> (r: bool)
    ensures
        r == lex_le(a@, b@),
{
    let an: usize = a.len();
    let bn: usize = b.len();
    let mut i: usize = 0;
    proof {
        assert(a@.skip(0) =~= a@);
        assert(b@.skip(0) =~= b@);
    }
    while i < an && i < bn
        invariant
            i <= an,
            i <= bn,
            an == a@.len(),
            bn == b@.len(),
            lex_le(a@, b@) == lex_le(a@.skip(i as int), b@.skip(i as int)),
        decreases an - i,
    {
        let ca = a[i];
        let cb = b[i];
        proof {
            assert(a@.skip(i as int)[0] == ca);
            assert(b@.skip(i as int)[0] == cb);
            assert(a@.skip(i as int).drop_first() =~= a@.skip(i + 1));
            assert(b@.skip(i as int).drop_first() =~= b@.skip(i + 1));
        }
        if (ca as u32) != (cb as u32) {
            return (ca as u32) < (cb as u32);
        }
        i = i + 1;
    }
    proof {
        if i == an {
            assert(a@.skip(an as int) =~= Seq::<char>::empty());
        } else {
            assert(b@.skip(bn as int) =~= Seq::<char>::empty());
            assert(a@.skip(i as int).len() > 0);
        }
    }
    i == an
}

/// Adjacent rows strictly ordered: the list is sorted with no duplicates.
pub open spec fn sorted_unique(names: Seq<Seq<char>>) -> bool {
    forall|p: int| 0 <= p < names.len() - 1 ==> lex_lt(#[trigger] names[p], names[p + 1])
}

/// The slot where `sv` belongs in the sorted list: either the index where
/// it already sits, or the index before which it must be inserted.
fn find_slot(out: &Vec<String>, sv: &Vec<char>) -> (res: (usize, bool))
    requires
        sorted_unique(out.deep_view()),
    ensures
        res.0 <= out@.len(),
        res.1 ==> res.0 < out@.len() && out.deep_view()[res.0 as int] == sv@,
        !res.1 ==> forall|u: int| 0 <= u < res.0 ==> lex_lt(#[trigger] out.deep_view()[u], sv@),
        (!res.1 && res.0 < out@.len()) ==> lex_lt(sv@, out.deep_view()[res.0 as int]),
{
    let len: usize = out.len();
    let mut p: usize = 0;
    while p < len
        invariant
            p <= len,
            len == out@.len(),
            sorted_unique(out.deep_view()),
            forall|u: int| 0 <= u < p ==> lex_lt(#[trigger] out.deep_view()[u], sv@),
        decreases len - p,
    {
        let ev = str_chars(out[p].as_str());
        proof {
            assert(out.deep_view()[p as int] == out@[p as int]@);
        }
        if chars_eq(&ev, sv) {
            return (p, true);
        }
        if !lex_le_chars(&ev, sv) {
            proof {
                lemma_lex_total(out.deep_view()[p as int], sv@);
            }
            return (p, false);
        }
        proof {
            assert(lex_lt(out.deep_view()[p as int], sv@));
        }
        p = p + 1;
    }
    (p, false)
}

/// Insert `s` into the sorted duplicate-free list `out`, keeping it sorted
/// and duplicate-free; a name already present is left alone.
fn insert_sorted(out: &mut Vec<String>, s: String)
    requires
        sorted_unique(old(out).deep_view()),
    ensures
        sorted_unique(final(out).deep_view()),
        forall|x: Seq<char>|
            final(out).deep_view().contains(x) <==> (old(out).deep_view().contains(x) || x == s@),
{
    let sv = str_chars(s.as_str());
    let slot = find_slot(out, &sv);
    let p = slot.0;
    if slot.1 {
        proof {
            assert(out.deep_view()[p as int] == s@);
            assert(out.deep_view().contains(s@));
        }
        return ;
    }
    proof {
        if (p as int) < out@.len() {
            assert(lex_lt(s@, out.deep_view()[p as int]));
        }
    }
    let ghost before = out.deep_view();
    let ghost before_v = out@;
    let ghost pp = p as int;
    let ghost s_view = s@;
    let ghost s_snap = s;
    out.insert(p, s);
    proof {
        before_v.insert_ensures(pp, s_snap);
        before.insert_ensures(pp, s_view);
        assert(out.deep_view() =~= before.insert(pp, s_view)) by {
            assert(forall|u: int| 0 <= u < pp ==> out@[u] == before_v[u]);
            assert(forall|u: int| pp <= u < before_v.len() ==> out@[u + 1] == before_v[u]);
            assert(out@[pp] == s_snap);
        }
        assert(out.deep_view().len() == before.len() + 1);
        assert(forall|u: int| 0 <= u < pp ==> #[trigger] out.deep_view()[u] == before[u]);
        assert forall|u: int| pp <= u < before.len() implies #[trigger] out.deep_view()[u + 1]
            == before[u] by {
            assert(out.deep_view()[u + 1] == before.insert(pp, s_view)[u + 1]);
            assert(before.insert(pp, s_view)[u + 1] == before[u]);
        }
        assert(out.deep_view()[pp] == s_view);
        assert(sorted_unique(out.deep_view())) by {
            assert forall|q: int| 0 <= q < out.deep_view().len() - 1 implies lex_lt(
                #[trigger] out.deep_view()[q],
                out.deep_view()[q + 1],
            ) by {
                let d = out.deep_view();
                if q + 1 < pp {
                    assert(d[q] == before[q] && d[q + 1] == before[q + 1]);
                } else if q + 1 == pp {
                    assert(d[q] == before[q] && d[q + 1] == s_view);
                } else if q == pp {
                    assert(d[q + 1] == before[q]);
                    assert(d[q] == s_view);
                } else {
                    assert(d[q] == before[q - 1] && d[q + 1] == before[q]);
                }
            }
        }
        assert forall|x: Seq<char>|
            out.deep_view().contains(x) <==> (before.contains(x) || x == s_view) by {
            let d = out.deep_view();
            if d.contains(x) {
                let w = choose|w: int| 0 <= w < d.len() && d[w] == x;
                if w < pp {
                    assert(before[w] == x);
                } else if w == pp {
                } else {
                    assert(before[w - 1] == x);
                }
            }
            if before.contains(x) {
                let w = choose|w: int| 0 <= w < before.len() && before[w] == x;
                if w < pp {
                    assert(d[w] == x);
                } else {
                    assert(d[w + 1] == x);
                }
            }
            if x == s_view {
                assert(d[pp] == x);
            }
        }
    }
}

/// The union of the collected name lists, sorted and with duplicates
/// removed: exactly the names that occur in some list, each once, in
/// lexicographic order.
fn collect_names(found: &Vec<Vec<String>>) -> (r: Vec<String>)
    ensures
        sorted_unique(r.deep_view()),
        forall|x: Seq<char>|
            r.deep_view().contains(x) <==> exists|i: int, j: int|
                0 <= i < found.deep_view().len() && 0 <= j < found.deep_view()[i].len()
                    && #[trigger] found.deep_view()[i][j] == x,
{
    let ghost fd = found.deep_view();
    let mut r: Vec<String> = Vec::new();
    let n: usize = found.len();
    let mut i: usize = 0;
    proof {
        assert(sorted_unique(r.deep_view()));
    }
    while i < n
        invariant
            i <= n,
            n == found@.len(),
            fd == found.deep_view(),
            sorted_unique(r.deep_view()),
            forall|x: Seq<char>|
                r.deep_view().contains(x) <==> exists|u: int, j: int|
                    0 <= u < i && 0 <= j < fd[u].len() && #[trigger] fd[u][j] == x,
        decreases n - i,
    {
        let inner = &found[i];
        let m: usize = inner.len();
        let mut j: usize = 0;
        while j < m
            invariant
                j <= m,
                i < n,
                n == found@.len(),
                m == found@[i as int]@.len(),
                fd == found.deep_view(),
                inner == &found@[i as int],
                sorted_unique(r.deep_view()),
                forall|x: Seq<char>|
                    r.deep_view().contains(x) <==> ((exists|u: int, w: int|
                        0 <= u < i && 0 <= w < fd[u].len() && #[trigger] fd[u][w] == x) || (
                    exists|w: int| 0 <= w < j && #[trigger] fd[i as int][w] == x)),
            decreases m - j,
        {
            let s = inner[j].clone();
            proof {
                assert(fd[i as int][j as int] == found@[i as int]@[j as int]@);
                assert(s@ == fd[i as int][j as int]);
            }
            insert_sorted(&mut r, s);
            j = j + 1;
        }
        i = i + 1;
    }
    r
}

/// All figure names found under the search roots, one list per root:
/// merged, sorted, duplicates removed.
pub fn list_ponies(found: &Vec<Vec<String>>) -> (r: Vec<String>)
    ensures
        sorted_unique(r.deep_view()),
        forall|x: Seq<char>|
            r.deep_view().contains(x) <==> exists|i: int, j: int|
                0 <= i < found.deep_view().len() && 0 <= j < found.deep_view()[i].len()
                    && #[trigger] found.deep_view()[i][j] == x,
{
    collect_names(found)
}

/// All balloon style names found under the search roots, one list per
/// root: merged, sorted, duplicates removed.
pub fn list_balloons(found: &Vec<Vec<String>>) -> (r: Vec<String>)
    ensures
        sorted_unique(r.deep_view()),
        forall|x: Seq<char>|
            r.deep_view().contains(x) <==> exists|i: int, j: int|
                0 <= i < found.deep_view().len() && 0 <= j < found.deep_view()[i].len()
                    && #[trigger] found.deep_view()[i][j] == x,
{
    collect_names(found)
}

/// Choose the figure to draw.  An explicitly requested name always wins;
/// otherwise a designated best figure, when the caller found one; otherwise
/// a random name from the installed list, and an error only when nothing at
/// all is installed.
pub fn select_pony(
    requested: Option<&str>,
    best: Option<&String>,
    names: &Vec<String>,
    seed: Option<u64>,
) -> (r: Result<String, PonyError>)
    ensures
        requested matches Some(n) ==> (r matches Ok(s) && s@ == n@),
        requested is None ==> (best matches Some(b) ==> (r matches Ok(s) && s@ == b@)),
        (requested is None && best is None && names@.len() == 0) ==> (r matches Err(e) && (
        e matches PonyError::PonyNotFound { name } && name@ == "<auto>"@)),
        (requested is None && best is None && names@.len() > 0) ==> (r matches Ok(s) && exists|
            k: int,
        | 0 <= k < names@.len() && s@ == (#[trigger] names@[k])@),
{
    match requested {
        Some(n) => Ok(String::from_str(n)),
        None => {
            match best {
                Some(b) => Ok(b.clone()),
                None => {
                    let count: usize = names.len();
                    if count == 0 {
                        return Err(
                            PonyError::PonyNotFound { name: String::from_str("<auto>") },
                        );
                    }
                    let mut rng = seeded_rng(seed);
                    let k = rng_below(&mut rng, count);
                    let chosen = names[k].clone();
                    proof {
                        assert(chosen@ == names@[k as int]@);
                    }
                    Ok(chosen)
                },
            }
        },
    }
}

/// Pick a fortune from the loaded databases, reporting a failure in the
/// render error taxonomy.
pub fn pick_fortune(config: &FortuneConfig, dbs: &Vec<FortuneDb>) -> (r: Result<String, PonyError>)
    requires
        dbs@.len() <= 0x800,
        forall|i: int| 0 <= i < dbs@.len() ==> (#[trigger] dbs@[i]).fortunes@.len() <= 0x0010_0000,
    ensures
        (forall|i: int| 0 <= i < dbs@.len() ==> (#[trigger] dbs@[i]).fortunes@.len() == 0) ==> (
        r matches Err(e) && (e matches PonyError::Fortune(m) && m@ == fortune_error_text(
            &FortuneError::NoFortunes,
        ))),
        (exists|i: int| 0 <= i < dbs@.len() && (#[trigger] dbs@[i]).fortunes@.len() > 0) ==> (
        r matches Ok(f) && exists|i: int, j: int|
            0 <= i < dbs@.len() && 0 <= j < dbs@[i].fortunes@.len() && f@ == (
            #[trigger] dbs@[i].fortunes@[j])@),
{
    match crate::fortune::pick_fortune(config, dbs) {
        Ok(f) => Ok(f),
        Err(e) => Err(PonyError::Fortune(e.message())),
    }
}

/// Render the whole output: wrap the message, draw the balloon, splice it
/// into the figure template, and lead with a colour reset.  A message that
/// is empty or all whitespace is refused.
pub fn render(config: &RenderConfig, pony_body: &str, style: &BalloonStyle) -> (r: Result<
    String,
    PonyError,
>)
    requires
        config.message@.len() <= MAX_MSG,
        pony_body@.len() <= MAX_TEXT,
        style.bounds_ok(),
    ensures
        all_space(config.message@) ==> (r matches Err(e) && e is NoMessage),
        !all_space(config.message@) ==> (r matches Ok(s) && s@ == "\u{1b}[0m"@ + insert_spec(
            pony_body@,
            render_balloon_spec(style, config.message@, config.wrap_width as nat),
            style,
        )),
{
    let mv = str_chars(config.message.as_str());
    if is_blank(&mv) {
        return Err(PonyError::NoMessage);
    }
    let bubble = render_balloon(config.message.as_str(), config.wrap_width, style);
    let rendered = insert_balloon(pony_body, &bubble, style);
    let mut out = String::from_str("\u{1b}[0m");
    out.append(rendered.as_str());
    Ok(out)
}

} // verus!