//! The fortune database model: percent-delimited databases of sayings, and
//! a random pick across one or more loaded databases.

use vstd::prelude::*;
use vstd::string::StringExecFns;

use crate::rng::{rng_below, seeded_rng};
use crate::text::{
    chars_to_string, lemma_deep_push_str, push_all, split_lines, split_lines_chars, str_chars,
    sub_chars, trim_crs,
};

verus! {

/// How fortunes are selected: whether offensive databases are admitted,
/// whether databases are weighted equally or by size, the seed, and where
/// databases are looked for.  Paths are plain path strings; the search
/// itself is the caller's to perform.
#[derive(Debug, Clone)]
pub struct FortuneConfig {
    pub include_offensive: bool,
    pub equal_files: bool,
    pub seed: Option<u64>,
    pub sources: Vec<String>,
    pub search_paths: Vec<String>,
}

impl Default for FortuneConfig {
    /// Offensive databases excluded, size-weighted selection, no seed, no
    /// explicit sources, and the conventional search paths.
    fn default() -> (r: Self)
        ensures
            !r.include_offensive,
            !r.equal_files,
            r.seed is None,
            r.sources.deep_view() == Seq::<Seq<char>>::empty(),
            r.search_paths.deep_view() == seq![
                "testdata/fortunes"@,
                "/usr/share/games/fortunes"@,
                "/usr/share/fortune"@,
            ],
    {
        let mut search_paths: Vec<String> = Vec::new();
        let ghost p0 = search_paths;
        let s0 = String::from_str("testdata/fortunes");
        let ghost s0s = s0;
        search_paths.push(s0);
        proof {
            lemma_deep_push_str(p0, search_paths, s0s);
        }
        let ghost p1 = search_paths;
        let s1 = String::from_str("/usr/share/games/fortunes");
        let ghost s1s = s1;
        search_paths.push(s1);
        proof {
            lemma_deep_push_str(p1, search_paths, s1s);
        }
        let ghost p2 = search_paths;
        let s2 = String::from_str("/usr/share/fortune");
        let ghost s2s = s2;
        search_paths.push(s2);
        proof {
            lemma_deep_push_str(p2, search_paths, s2s);
            assert(search_paths.deep_view() =~= seq![
                "testdata/fortunes"@,
                "/usr/share/games/fortunes"@,
                "/usr/share/fortune"@,
            ]);
        }
        let r = FortuneConfig {
            include_offensive: false,
            equal_files: false,
            seed: None,
            sources: Vec::new(),
            search_paths,
        };
        proof {
            assert(r.sources.deep_view() =~= Seq::<Seq<char>>::empty());
        }
        r
    }
}

/// Why no fortune could be produced.
#[derive(Debug, Clone)]
pub enum FortuneError {
    /// No fortune database was found in any source or search path.
    NoSources,
    /// Databases were found, but none held a single fortune.
    NoFortunes,
    /// A database that should exist could not be read.
    Io { path: String, message: String },
}

/// The text of a fortune error, for callers that report it.
pub open spec fn fortune_error_text(e: &FortuneError) -> Seq<char> {
    match e {
        FortuneError::NoSources => "no fortune sources found"@,
        FortuneError::NoFortunes => "no fortunes available in sources"@,
        FortuneError::Io { path, message } => "io error for "@ + path@ + ": "@ + message@,
    }
}

impl FortuneError {
    /// Render the error as one line of text.
    pub fn message(&self) -> (r: String)
        ensures
            r@ == fortune_error_text(self),
    {
        match self {
            FortuneError::NoSources => String::from_str("no fortune sources found"),
            FortuneError::NoFortunes => String::from_str("no fortunes available in sources"),
            FortuneError::Io { path, message } => {
                let mut r = String::from_str("io error for ");
                r.append(path.as_str());
                r.append(": ");
                r.append(message.as_str());
                r
            },
        }
    }
}

/// One loaded fortune database: where it came from and its fortunes.
#[derive(Debug, Clone)]
pub struct FortuneDb {
    pub path: String,
    pub fortunes: Vec<String>,
}

/// Whether the file name names a fortune database candidate: hidden files
/// and index files never do, and offensive databases (the `-o` suffix) only
/// when asked for.
pub open spec fn is_candidate_name(name: Seq<char>, include_offensive: bool) -> bool {
    &&& !(name.len() > 0 && name[0] == '.')
    &&& !(name.len() >= 4 && name.subrange(name.len() - 4, name.len() as int) == ".dat"@)
    &&& (include_offensive || !(name.len() >= 2 && name.subrange(
        name.len() - 2,
        name.len() as int,
    ) == "-o"@))
}

/// Whether the file named `name` is a fortune database candidate.
pub fn is_candidate(name: &str, include_offensive: bool) -> (r: bool)
    ensures
        r == is_candidate_name(name@, include_offensive),
{
    proof {
        reveal_strlit(".dat");
        reveal_strlit("-o");
    }
    let nv = str_chars(name);
    let len: usize = nv.len();
    if len > 0 && nv[0] == '.' {
        return false;
    }
    if len >= 4 && nv[len - 4] == '.' && nv[len - 3] == 'd' && nv[len - 2] == 'a' && nv[len - 1]
        == 't' {
        proof {
            assert(nv@.subrange(len - 4, len as int) =~= ".dat"@);
        }
        return false;
    }
    proof {
        if len >= 4 {
            let tail = nv@.subrange(len - 4, len as int);
            if tail == ".dat"@ {
                assert(nv@[len - 4] == tail[0] && nv@[len - 3] == tail[1] && nv@[len - 2]
                    == tail[2] && nv@[len - 1] == tail[3]);
            }
        }
    }
    if !include_offensive && len >= 2 && nv[len - 2] == '-' && nv[len - 1] == 'o' {
        proof {
            assert(nv@.subrange(len - 2, len as int) =~= "-o"@);
        }
        return false;
    }
    proof {
        if len >= 2 {
            let tail2 = nv@.subrange(len - 2, len as int);
            if tail2 == "-o"@ {
                assert(nv@[len - 2] == tail2[0] && nv@[len - 1] == tail2[1]);
            }
        }
    }
    true
}

/// A finished segment recorded: trimmed of surrounding blank lines, and
/// dropped entirely when nothing remains.
pub open spec fn push_segment_spec(out: Seq<Seq<char>>, seg: Seq<char>) -> Seq<Seq<char>> {
    let t = trim_nl(seg);
    if t.len() > 0 {
        out.push(t)
    } else {
        out
    }
}

/// Start of `s` once leading newlines are dropped.
pub open spec fn nl_start_idx(s: Seq<char>) -> int
    decreases s.len(),
{
    if s.len() > 0 && s[0] == '\n' {
        1 + nl_start_idx(s.drop_first())
    } else {
        0
    }
}

/// End of `s` once trailing newlines are dropped.
pub open spec fn nl_end_idx(s: Seq<char>) -> int
    decreases s.len(),
{
    if s.len() > 0 && s.last() == '\n' {
        nl_end_idx(s.drop_last())
    } else {
        s.len() as int
    }
}

/// `s` without leading or trailing newlines.
pub open spec fn trim_nl(s: Seq<char>) -> Seq<char> {
    let a = nl_start_idx(s);
    let b = nl_end_idx(s);
    if a <= b {
        s.subrange(a, b)
    } else {
        Seq::empty()
    }
}

proof fn lemma_nl_start_idx_bounds(s: Seq<char>)
    ensures
        0 <= nl_start_idx(s) <= s.len(),
    decreases s.len(),
{
    if s.len() > 0 && s[0] == '\n' {
        lemma_nl_start_idx_bounds(s.drop_first());
    }
}

proof fn lemma_nl_end_idx_bounds(s: Seq<char>)
    ensures
        0 <= nl_end_idx(s) <= s.len(),
    decreases s.len(),
{
    if s.len() > 0 && s.last() == '\n' {
        lemma_nl_end_idx_bounds(s.drop_last());
    }
}

fn nl_start_pos(v: &Vec<char>) -> (a: usize)
    ensures
        a as int == nl_start_idx(v@),
        a <= v@.len(),
{
    let len: usize = v.len();
    let mut a: usize = 0;
    proof {
        assert(v@.skip(0) =~= v@);
    }
    while a < len
        invariant
            a <= len,
            len == v@.len(),
            nl_start_idx(v@) == a + nl_start_idx(v@.skip(a as int)),
        decreases len - a,
    {
        proof {
            assert(v@.skip(a as int)[0] == v@[a as int]);
            assert(v@.skip(a as int).drop_first() =~= v@.skip(a + 1));
        }
        if v[a] != '\n' {
            proof {
                assert(nl_start_idx(v@.skip(a as int)) == 0);
            }
            return a;
        }
        a = a + 1;
    }
    proof {
        assert(v@.skip(len as int) =~= Seq::<char>::empty());
    }
    a
}

fn nl_end_pos(v: &Vec<char>) -> (e: usize)
    ensures
        e as int == nl_end_idx(v@),
        e <= v@.len(),
{
    let len: usize = v.len();
    let mut e: usize = len;
    proof {
        assert(v@.take(len as int) =~= v@);
    }
    while e > 0
        invariant
            e <= len,
            len == v@.len(),
            nl_end_idx(v@) == nl_end_idx(v@.take(e as int)),
        decreases e,
    {
        proof {
            assert(v@.take(e as int).last() == v@[e - 1]);
            assert(v@.take(e as int).drop_last() =~= v@.take(e - 1));
        }
        if v[e - 1] != '\n' {
            proof {
                assert(nl_end_idx(v@.take(e as int)) == e);
            }
            return e;
        }
        e = e - 1;
    }
    proof {
        assert(v@.take(0) =~= Seq::<char>::empty());
    }
    e
}

/// `v` without leading or trailing newlines.
fn trim_nl_chars(v: &Vec<char>) -> (r: Vec<char>)
    ensures
        r@ == trim_nl(v@),
{
    let a = nl_start_pos(v);
    let e = nl_end_pos(v);
    proof {
        lemma_nl_start_idx_bounds(v@);
        lemma_nl_end_idx_bounds(v@);
    }
    if a <= e {
        sub_chars(v, a, e)
    } else {
        let r: Vec<char> = Vec::new();
        proof {
            assert(r@ =~= Seq::<char>::empty());
        }
        r
    }
}

/// The fortune split from line `i` on, with the segment under construction
/// `cur`: a line of a single percent sign closes the segment, any other
/// line continues it.
pub open spec fn fortunes_scan(
    lines: Seq<Seq<char>>,
    i: int,
    cur: Seq<char>,
    out: Seq<Seq<char>>,
) -> Seq<Seq<char>>
    decreases lines.len() - i,
{
    if i < 0 || i >= lines.len() {
        push_segment_spec(out, cur)
    } else {
        let l = trim_crs(lines[i]);
        if l == seq!['%'] {
            fortunes_scan(lines, i + 1, Seq::empty(), push_segment_spec(out, cur))
        } else {
            fortunes_scan(
                lines,
                i + 1,
                if cur.len() > 0 {
                    cur + seq!['\n'] + l
                } else {
                    l
                },
                out,
            )
        }
    }
}

/// The fortunes of a percent-delimited database text: segments between `%`
/// lines, trimmed of surrounding blank lines, empty segments dropped.
pub open spec fn split_fortunes_spec(text: Seq<char>) -> Seq<Seq<char>> {
    fortunes_scan(split_lines(text), 0, Seq::empty(), Seq::empty())
}

/// Split a percent-delimited database text into its fortunes.
pub fn split_fortunes(text: &str) -> (r: Vec<String>)
    ensures
        r.deep_view() == split_fortunes_spec(text@),
{
    let tv = str_chars(text);
    let lines = split_lines_chars(&tv);
    let ghost lv = split_lines(text@);
    let n: usize = lines.len();
    let mut out: Vec<String> = Vec::new();
    let mut cur: Vec<char> = Vec::new();
    let mut i: usize = 0;
    proof {
        assert(out.deep_view() =~= Seq::<Seq<char>>::empty());
        assert(cur@ =~= Seq::<char>::empty());
    }
    while i < n
        invariant
            i <= n,
            n == lines@.len(),
            lines.deep_view() == lv,
            split_fortunes_spec(text@) == fortunes_scan(lv, i as int, cur@, out.deep_view()),
        decreases n - i,
    {
        let ghost cur0 = cur@;
        let ghost out0 = out.deep_view();
        proof {
            assert(lines@[i as int]@ == lv[i as int]);
        }
        let l = crate::text::trim_crs_chars(&lines[i]);
        let ghost lw = trim_crs(lv[i as int]);
        let is_pct = l.len() == 1 && l[0] == '%';
        proof {
            if is_pct {
                assert(lw =~= seq!['%']);
            } else {
                if lw == seq!['%'] {
                    assert(lw.len() == 1 && lw[0] == '%');
                    assert(l@ =~= lw);
                }
            }
        }
        if is_pct {
            let seg = trim_nl_chars(&cur);
            if seg.len() > 0 {
                let ghost prev = out;
                let segs = chars_to_string(&seg);
                let ghost segs_snap = segs;
                out.push(segs);
                proof {
                    lemma_deep_push_str(prev, out, segs_snap);
                }
            }
            proof {
                assert(out.deep_view() == push_segment_spec(out0, cur0));
            }
            cur = Vec::new();
            proof {
                assert(cur@ =~= Seq::<char>::empty());
                assert(fortunes_scan(lv, i as int, cur0, out0) == fortunes_scan(
                    lv,
                    i + 1,
                    cur@,
                    out.deep_view(),
                ));
            }
        } else {
            if cur.len() > 0 {
                let ghost before = cur@;
                cur.push('\n');
                push_all(&mut cur, &l);
                proof {
                    assert(cur@ =~= before + seq!['\n'] + lw);
                }
            } else {
                cur = l;
            }
            proof {
                assert(fortunes_scan(lv, i as int, cur0, out0) == fortunes_scan(
                    lv,
                    i + 1,
                    cur@,
                    out.deep_view(),
                ));
            }
        }
        i = i + 1;
    }
    let ghost cur_final = cur@;
    let ghost out_before = out.deep_view();
    let seg = trim_nl_chars(&cur);
    if seg.len() > 0 {
        let ghost prev = out;
        let segs = chars_to_string(&seg);
        let ghost segs_snap = segs;
        out.push(segs);
        proof {
            lemma_deep_push_str(prev, out, segs_snap);
        }
    }
    proof {
        assert(out.deep_view() == push_segment_spec(out_before, cur_final));
    }
    out
}

/// Pick one fortune from the loaded databases.  Databases with no fortunes
/// never contribute; when every database is empty the result is
/// `NoFortunes`.  Otherwise some fortune of some non-empty database is
/// returned — which one depends on the generator, equally weighted by file
/// when `equal_files` is set and by size otherwise.
pub fn pick_fortune(config: &FortuneConfig, dbs: &Vec<FortuneDb>) -> (r: Result<
    String,
    FortuneError,
>)
    requires
        dbs@.len() <= 0x800,
        forall|i: int| 0 <= i < dbs@.len() ==> (#[trigger] dbs@[i]).fortunes@.len() <= 0x0010_0000,
    ensures
        (forall|i: int| 0 <= i < dbs@.len() ==> (#[trigger] dbs@[i]).fortunes@.len() == 0) ==> (
        r matches Err(e) && e is NoFortunes),
        (exists|i: int| 0 <= i < dbs@.len() && (#[trigger] dbs@[i]).fortunes@.len() > 0) ==> (
        r matches Ok(f) && exists|i: int, j: int|
            0 <= i < dbs@.len() && 0 <= j < dbs@[i].fortunes@.len() && f@ == (
            #[trigger] dbs@[i].fortunes@[j])@),
{
    let n: usize = dbs.len();
    let mut live: Vec<usize> = Vec::new();
    let mut i: usize = 0;
    while i < n
        invariant
            i <= n,
            n == dbs@.len(),
            live@.len() <= i,
            forall|p: int|
                0 <= p < live@.len() ==> (#[trigger] live@[p]) < i && dbs@[live@[p] as int].fortunes@.len()
                    > 0,
            live@.len() == 0 ==> forall|u: int|
                0 <= u < i ==> (#[trigger] dbs@[u]).fortunes@.len() == 0,
        decreases n - i,
    {
        if dbs[i].fortunes.len() > 0 {
            live.push(i);
        }
        i = i + 1;
    }
    let ln: usize = live.len();
    if ln == 0 {
        return Err(FortuneError::NoFortunes);
    }
    let mut rng = seeded_rng(config.seed);
    let pos: usize = if config.equal_files {
        rng_below(&mut rng, ln)
    } else {
        let mut total: usize = 0;
        let mut p: usize = 0;
        while p < ln
            invariant
                p <= ln,
                ln == live@.len(),
                ln <= 0x800,
                n == dbs@.len(),
                dbs@.len() <= 0x800,
                forall|q: int|
                    0 <= q < live@.len() ==> (#[trigger] live@[q]) < n && dbs@[live@[q] as int].fortunes@.len()
                        > 0,
                forall|q: int|
                    0 <= q < dbs@.len() ==> (#[trigger] dbs@[q]).fortunes@.len() <= 0x0010_0000,
                total <= p * 0x0010_0000,
            decreases ln - p,
        {
            let di = live[p];
            proof {
                assert(total <= 0x800 * 0x0010_0000) by (nonlinear_arith)
                    requires
                        total <= p * 0x0010_0000,
                        0 <= p <= 0x800,
                ;
            }
            let cnt = dbs[di].fortunes.len();
            total = total + cnt;
            proof {
                assert(total <= (p + 1) * 0x0010_0000) by (nonlinear_arith)
                    requires
                        total <= p * 0x0010_0000 + 0x0010_0000,
                ;
            }
            p = p + 1;
        }
        let mut target = if total > 0 {
            rng_below(&mut rng, total)
        } else {
            0
        };
        let mut index: usize = ln - 1;
        let mut q: usize = 0;
        while q < ln
            invariant
                q <= ln,
                ln == live@.len(),
                n == dbs@.len(),
                index < ln,
                forall|u: int|
                    0 <= u < live@.len() ==> (#[trigger] live@[u]) < n && dbs@[live@[u] as int].fortunes@.len()
                        > 0,
            decreases ln - q,
        {
            let di = live[q];
            let cnt = dbs[di].fortunes.len();
            if target < cnt {
                index = q;
                break ;
            }
            target = if target >= cnt {
                target - cnt
            } else {
                0
            };
            q = q + 1;
        }
        index
    };
    let di = live[pos];
    let cnt = dbs[di].fortunes.len();
    let fi = rng_below(&mut rng, cnt);
    let chosen = dbs[di].fortunes[fi].clone();
    proof {
        assert(dbs@[di as int].fortunes@[fi as int]@ == chosen@);
    }
    Ok(chosen)
}

} // verus!
