//! Conversions between strings and code-point vectors, and the small
//! character predicates the engine shares.

use vstd::prelude::*;
use vstd::string::StrSliceExecFns;
use vstd::string::StringExecFns;

verus! {

/// The code points of `s`, in order.
pub fn str_chars(s: &str) -> (v: Vec<char>)
    ensures
        v@ == s@,
{
    let len: usize = s.unicode_len();
    let mut v: Vec<char> = Vec::new();
    let mut i: usize = 0;
    while i < len
        invariant
            i <= len,
            len == s@.len(),
            v@ == s@.take(i as int),
        decreases len - i,
    {
        let c = s.get_char(i);
        v.push(c);
        proof {
            assert(v@ =~= s@.take(i + 1));
        }
        i = i + 1;
    }
    proof {
        assert(s@.take(len as int) =~= s@);
    }
    v
}

/// Relies on `String::from_iter` over `char`: collecting code points yields
/// the string with exactly those code points in order.
#[verifier::external_body]
pub fn chars_to_string(v: &Vec<char>) -> (s: String)
    ensures
        s@ == v@,
{
    v.iter().collect()
}

/// A whitespace code point, by the Unicode `White_Space` property: the ASCII
/// space and control whitespace, next line, and the Unicode space separators.
pub open spec fn is_space_char(c: char) -> bool {
    c == ' ' || c == '\t' || c == '\n' || c == '\r' || c == '\u{b}' || c == '\u{c}' || c
        == '\u{85}' || c == '\u{a0}' || c == '\u{1680}' || ('\u{2000}' <= c && c <= '\u{200a}') || c
        == '\u{2028}' || c == '\u{2029}' || c == '\u{202f}' || c == '\u{205f}' || c == '\u{3000}'
}

/// Whether `c` is whitespace, by the Unicode `White_Space` property.
#[verifier::when_used_as_spec(is_space_char)]
pub fn is_space(c: char) -> (r: bool)
    ensures
        r == is_space_char(c),
{
    c == ' ' || c == '\t' || c == '\n' || c == '\r' || c == '\u{b}' || c == '\u{c}' || c
        == '\u{85}' || c == '\u{a0}' || c == '\u{1680}' || ('\u{2000}' <= c && c <= '\u{200a}') || c
        == '\u{2028}' || c == '\u{2029}' || c == '\u{202f}' || c == '\u{205f}' || c == '\u{3000}'
}

/// Every code point of `s` is whitespace (true of the empty sequence).
pub open spec fn all_space(s: Seq<char>) -> bool {
    forall|i: int| 0 <= i < s.len() ==> is_space_char(#[trigger] s[i])
}

/// Whether every code point of `v` is whitespace.
pub fn is_blank(v: &Vec<char>) -> (r: bool)
    ensures
        r == all_space(v@),
{
    let mut i: usize = 0;
    let len: usize = v.len();
    while i < len
        invariant
            i <= len,
            len == v@.len(),
            forall|j: int| 0 <= j < i ==> is_space_char(#[trigger] v@[j]),
        decreases len - i,
    {
        if !is_space(v[i]) {
            return false;
        }
        i = i + 1;
    }
    true
}

/// Index of the first occurrence of `c` at or after position `i`, or the
/// length of `s` when none follows.
pub open spec fn find_from(s: Seq<char>, i: int, c: char) -> int
    decreases s.len() - i,
{
    if i < 0 || i >= s.len() {
        s.len() as int
    } else if s[i] == c {
        i
    } else {
        find_from(s, i + 1, c)
    }
}

pub proof fn lemma_find_from_bounds(s: Seq<char>, i: int, c: char)
    requires
        0 <= i <= s.len(),
    ensures
        i <= find_from(s, i, c) <= s.len(),
        find_from(s, i, c) < s.len() ==> s[find_from(s, i, c)] == c,
        forall|j: int| i <= j < find_from(s, i, c) ==> s[j] != c,
    decreases s.len() - i,
{
    if i < s.len() && s[i] != c {
        lemma_find_from_bounds(s, i + 1, c);
    }
}

/// First occurrence of `c` in `v` at or after `from`, or `v.len()`.
pub fn find_char(v: &Vec<char>, from: usize, c: char) -> (r: usize)
    requires
        from <= v@.len(),
    ensures
        r as int == find_from(v@, from as int, c),
        from <= r <= v@.len(),
        r < v@.len() ==> v@[r as int] == c,
{
    let len: usize = v.len();
    let mut i: usize = from;
    while i < len
        invariant
            from <= i <= len,
            len == v@.len(),
            find_from(v@, from as int, c) == find_from(v@, i as int, c),
        decreases len - i,
    {
        if v[i] == c {
            return i;
        }
        i = i + 1;
    }
    i
}

/// The code points of `v` from `a` (inclusive) to `b` (exclusive).
pub fn sub_chars(v: &Vec<char>, a: usize, b: usize) -> (r: Vec<char>)
    requires
        a <= b <= v@.len(),
    ensures
        r@ == v@.subrange(a as int, b as int),
{
    let mut r: Vec<char> = Vec::new();
    let mut i: usize = a;
    while i < b
        invariant
            a <= i <= b <= v@.len(),
            r@ == v@.subrange(a as int, i as int),
        decreases b - i,
    {
        r.push(v[i]);
        proof {
            assert(r@ =~= v@.subrange(a as int, i + 1));
        }
        i = i + 1;
    }
    r
}

/// A copy of the code points of `v`.
pub fn copy_chars(v: &Vec<char>) -> (r: Vec<char>)
    ensures
        r@ == v@,
{
    let len: usize = v.len();
    let r = sub_chars(v, 0, len);
    proof {
        assert(v@.subrange(0, len as int) =~= v@);
    }
    r
}

/// One trailing carriage return removed, as the line splitter strips it from
/// a line that a newline terminated.
pub open spec fn chomp_cr(l: Seq<char>) -> Seq<char> {
    if l.len() > 0 && l[l.len() - 1] == '\r' {
        l.drop_last()
    } else {
        l
    }
}

/// `v` with one trailing carriage return removed, as `chomp_cr` describes.
pub fn chomp_cr_chars(v: &Vec<char>) -> (r: Vec<char>)
    ensures
        r@ == chomp_cr(v@),
{
    let len: usize = v.len();
    if len > 0 && v[len - 1] == '\r' {
        let r = sub_chars(v, 0, len - 1);
        proof {
            assert(r@ =~= v@.drop_last());
        }
        r
    } else {
        copy_chars(v)
    }
}

/// The lines of `s`: split at every newline, with one carriage return
/// stripped from the end of each newline-terminated line.  A trailing
/// newline ends the last line rather than opening an empty one, and the
/// empty text has no lines.
pub open spec fn split_lines(s: Seq<char>) -> Seq<Seq<char>>
    decreases s.len(),
    via split_lines_decreases
{
    if s.len() == 0 {
        Seq::empty()
    } else {
        let j = find_from(s, 0, '\n');
        if j == s.len() {
            seq![s]
        } else {
            seq![chomp_cr(s.take(j))] + split_lines(s.skip(j + 1))
        }
    }
}

#[via_fn]
proof fn split_lines_decreases(s: Seq<char>) {
    if s.len() > 0 {
        lemma_find_from_bounds(s, 0, '\n');
    }
}

/// End index of `s` once trailing whitespace is dropped.
pub open spec fn trim_end_idx(s: Seq<char>) -> int
    decreases s.len(),
{
    if s.len() > 0 && is_space_char(s.last()) {
        trim_end_idx(s.drop_last())
    } else {
        s.len() as int
    }
}

/// `s` without trailing whitespace.
pub open spec fn trim_end_ws(s: Seq<char>) -> Seq<char> {
    s.take(trim_end_idx(s))
}

/// Start index of `s` once leading whitespace is dropped.
pub open spec fn trim_start_idx(s: Seq<char>) -> int
    decreases s.len(),
{
    if s.len() > 0 && is_space_char(s[0]) {
        1 + trim_start_idx(s.drop_first())
    } else {
        0
    }
}

/// `s` without leading or trailing whitespace.
pub open spec fn trim_ws(s: Seq<char>) -> Seq<char> {
    let a = trim_start_idx(s);
    let b = trim_end_idx(s);
    if a <= b {
        s.subrange(a, b)
    } else {
        Seq::empty()
    }
}

pub proof fn lemma_trim_end_idx_bounds(s: Seq<char>)
    ensures
        0 <= trim_end_idx(s) <= s.len(),
    decreases s.len(),
{
    if s.len() > 0 && is_space_char(s.last()) {
        lemma_trim_end_idx_bounds(s.drop_last());
    }
}

pub proof fn lemma_trim_start_idx_bounds(s: Seq<char>)
    ensures
        0 <= trim_start_idx(s) <= s.len(),
    decreases s.len(),
{
    if s.len() > 0 && is_space_char(s[0]) {
        lemma_trim_start_idx_bounds(s.drop_first());
    }
}

/// The end of `v` once trailing whitespace is dropped.
pub fn trim_end_pos(v: &Vec<char>) -> (e: usize)
    ensures
        e as int == trim_end_idx(v@),
        e <= v@.len(),
{
    let mut e: usize = v.len();
    proof {
        assert(v@.take(e as int) =~= v@);
    }
    while e > 0
        invariant
            e <= v@.len(),
            trim_end_idx(v@) == trim_end_idx(v@.take(e as int)),
        decreases e,
    {
        if !is_space(v[e - 1]) {
            proof {
                assert(v@.take(e as int).last() == v@[e - 1]);
                assert(trim_end_idx(v@.take(e as int)) == e);
            }
            return e;
        }
        proof {
            assert(v@.take(e as int).last() == v@[e - 1]);
            assert(v@.take(e as int).drop_last() =~= v@.take(e - 1));
        }
        e = e - 1;
    }
    proof {
        assert(v@.take(0) =~= Seq::<char>::empty());
    }
    e
}

/// The start of `v` once leading whitespace is dropped.
pub fn trim_start_pos(v: &Vec<char>) -> (a: usize)
    ensures
        a as int == trim_start_idx(v@),
        a <= v@.len(),
{
    let len: usize = v.len();
    let mut a: usize = 0;
    proof {
        assert(v@.skip(0) =~= v@);
    }
    while a < len
        invariant
            a <= len,
            len == v@.len(),
            trim_start_idx(v@) == a + trim_start_idx(v@.skip(a as int)),
        decreases len - a,
    {
        if !is_space(v[a]) {
            proof {
                assert(v@.skip(a as int)[0] == v@[a as int]);
                assert(trim_start_idx(v@.skip(a as int)) == 0);
            }
            return a;
        }
        proof {
            assert(v@.skip(a as int)[0] == v@[a as int]);
            assert(v@.skip(a as int).drop_first() =~= v@.skip(a + 1));
        }
        a = a + 1;
    }
    proof {
        assert(v@.skip(len as int) =~= Seq::<char>::empty());
    }
    a
}

/// `v` without leading or trailing whitespace.
pub fn trim_chars(v: &Vec<char>) -> (r: Vec<char>)
    ensures
        r@ == trim_ws(v@),
{
    let a = trim_start_pos(v);
    let e = trim_end_pos(v);
    proof {
        lemma_trim_start_idx_bounds(v@);
        lemma_trim_end_idx_bounds(v@);
    }
    if a <= e {
        sub_chars(v, a, e)
    } else {
        let r: Vec<char> = Vec::new();
        proof {
            assert(r@ =~= Seq::<char>::empty());
        }
        r
    }
}

/// Append the code points of `src` to `dst`.
pub fn push_all(dst: &mut Vec<char>, src: &Vec<char>)
    ensures
        final(dst)@ == old(dst)@ + src@,
{
    let len: usize = src.len();
    let mut i: usize = 0;
    proof {
        assert(dst@ =~= old(dst)@ + src@.take(0));
    }
    while i < len
        invariant
            i <= len,
            len == src@.len(),
            dst@ == old(dst)@ + src@.take(i as int),
        decreases len - i,
    {
        dst.push(src[i]);
        proof {
            assert(old(dst)@ + src@.take(i as int) + seq![src@[i as int]] =~= old(dst)@
                + src@.take(i + 1));
        }
        i = i + 1;
    }
    proof {
        assert(src@.take(len as int) =~= src@);
    }
}

/// Every line of `split_lines(s)` is at most as long as `s`.
pub proof fn lemma_split_lines_len(s: Seq<char>)
    ensures
        forall|q: int|
            0 <= q < split_lines(s).len() ==> (#[trigger] split_lines(s)[q]).len() <= s.len(),
    decreases s.len(),
{
    let res = split_lines(s);
    if s.len() == 0 {
    } else {
        let j = find_from(s, 0, '\n');
        lemma_find_from_bounds(s, 0, '\n');
        if j == s.len() {
        } else {
            lemma_split_lines_len(s.skip(j + 1));
            let rec = split_lines(s.skip(j + 1));
            assert forall|q: int| 0 <= q < res.len() implies (#[trigger] res[q]).len()
                <= s.len() by {
                if q == 0 {
                    assert(res[q] == chomp_cr(s.take(j)));
                } else {
                    assert(res[q] == rec[q - 1]);
                }
            }
        }
    }
}

/// Three strings concatenated.
pub fn concat3(a: &str, b: &str, c: &str) -> (r: String)
    ensures
        r@ == a@ + b@ + c@,
{
    let r1 = String::from_str(a);
    let r2 = r1.concat(b);
    r2.concat(c)
}

/// Whether two code-point vectors hold the same text.
pub fn chars_eq(a: &Vec<char>, b: &Vec<char>) -> (r: bool)
    ensures
        r == (a@ == b@),
{
    let n: usize = a.len();
    if n != b.len() {
        proof {
            assert(a@ != b@);
        }
        return false;
    }
    let mut i: usize = 0;
    while i < n
        invariant
            i <= n,
            n == a@.len() == b@.len(),
            forall|u: int| 0 <= u < i ==> a@[u] == b@[u],
        decreases n - i,
    {
        if a[i] != b[i] {
            return false;
        }
        i = i + 1;
    }
    proof {
        assert(a@ =~= b@);
    }
    true
}

/// End index of `s` once all trailing carriage returns are dropped.
pub open spec fn crs_end_idx(s: Seq<char>) -> int
    decreases s.len(),
{
    if s.len() > 0 && s.last() == '\r' {
        crs_end_idx(s.drop_last())
    } else {
        s.len() as int
    }
}

/// `s` without trailing carriage returns.
pub open spec fn trim_crs(s: Seq<char>) -> Seq<char> {
    s.take(crs_end_idx(s))
}

pub proof fn lemma_crs_end_idx_bounds(s: Seq<char>)
    ensures
        0 <= crs_end_idx(s) <= s.len(),
    decreases s.len(),
{
    if s.len() > 0 && s.last() == '\r' {
        lemma_crs_end_idx_bounds(s.drop_last());
    }
}

/// `v` without trailing carriage returns.
pub fn trim_crs_chars(v: &Vec<char>) -> (r: Vec<char>)
    ensures
        r@ == trim_crs(v@),
{
    let mut e: usize = v.len();
    proof {
        assert(v@.take(e as int) =~= v@);
    }
    while e > 0
        invariant
            e <= v@.len(),
            crs_end_idx(v@) == crs_end_idx(v@.take(e as int)),
        decreases e,
    {
        if v[e - 1] != '\r' {
            proof {
                assert(v@.take(e as int).last() == v@[e - 1]);
                assert(crs_end_idx(v@.take(e as int)) == e);
            }
            return sub_chars(v, 0, e);
        }
        proof {
            assert(v@.take(e as int).last() == v@[e - 1]);
            assert(v@.take(e as int).drop_last() =~= v@.take(e - 1));
        }
        e = e - 1;
    }
    proof {
        assert(v@.take(0) =~= Seq::<char>::empty());
        assert(crs_end_idx(v@) == 0);
    }
    let r: Vec<char> = Vec::new();
    proof {
        assert(r@ =~= trim_crs(v@));
    }
    r
}

/// A text has no more lines than code points.
pub proof fn lemma_split_lines_count(s: Seq<char>)
    ensures
        split_lines(s).len() <= s.len(),
    decreases s.len(),
{
    if s.len() > 0 {
        let j = find_from(s, 0, '\n');
        lemma_find_from_bounds(s, 0, '\n');
        if j < s.len() {
            lemma_split_lines_count(s.skip(j + 1));
        }
    }
}

/// A copy of a vector of strings.
pub fn clone_strings(v: &Vec<String>) -> (r: Vec<String>)
    ensures
        r.deep_view() == v.deep_view(),
        r@.len() == v@.len(),
{
    let len: usize = v.len();
    let mut r: Vec<String> = Vec::new();
    let mut i: usize = 0;
    proof {
        assert(r.deep_view() =~= v.deep_view().take(0));
    }
    while i < len
        invariant
            i <= len,
            len == v@.len(),
            r@.len() == i,
            r.deep_view() == v.deep_view().take(i as int),
        decreases len - i,
    {
        let ghost prev = r;
        let s = v[i].clone();
        let ghost s_snap = s;
        r.push(s);
        proof {
            lemma_deep_push_str(prev, r, s_snap);
            assert(prev.deep_view() + seq![v@[i as int]@] =~= v.deep_view().take(i + 1));
        }
        i = i + 1;
    }
    proof {
        assert(v.deep_view().take(len as int) =~= v.deep_view());
    }
    r
}

/// The view of a vector of code points is its deep view.
pub proof fn lemma_char_vec_deep(v: Vec<char>)
    ensures
        v.deep_view() == v@,
{
    assert(v.deep_view() =~= v@);
}

/// A pushed element extends the deep view of a vector of code-point vectors.
pub proof fn lemma_deep_push(prev: Vec<Vec<char>>, r: Vec<Vec<char>>, seg: Vec<char>)
    requires
        r@ == prev@.push(seg),
    ensures
        r.deep_view() == prev.deep_view() + seq![seg@],
{
    lemma_char_vec_deep(seg);
    assert(r.deep_view() =~= prev.deep_view() + seq![seg@]) by {
        assert(forall|i: int| 0 <= i < prev@.len() ==> r@[i] == prev@[i]);
    }
}

/// A pushed string extends the deep view of a vector of strings.
pub proof fn lemma_deep_push_str(prev: Vec<String>, r: Vec<String>, s: String)
    requires
        r@ == prev@.push(s),
    ensures
        r.deep_view() == prev.deep_view() + seq![s@],
{
    assert(r.deep_view() =~= prev.deep_view() + seq![s@]) by {
        assert(forall|i: int| 0 <= i < prev@.len() ==> r@[i] == prev@[i]);
    }
}

/// The lines of `v`, as `split_lines` describes them.
pub fn split_lines_chars(v: &Vec<char>) -> (r: Vec<Vec<char>>)
    ensures
        r.deep_view() == split_lines(v@),
{
    let len: usize = v.len();
    let mut r: Vec<Vec<char>> = Vec::new();
    let mut p: usize = 0;
    if len == 0 {
        return r;
    }
    proof {
        assert(v@.skip(0) =~= v@);
        assert(r.deep_view() =~= Seq::<Seq<char>>::empty());
    }
    while p < len
        invariant
            p <= len,
            len == v@.len(),
            split_lines(v@) == r.deep_view() + split_lines(v@.skip(p as int)),
        decreases len - p,
    {
        let ghost rest = v@.skip(p as int);
        let ghost prev = r;
        let j = find_char(v, p, '\n');
        proof {
            lemma_find_from_bounds(rest, 0, '\n');
            lemma_find_from_shift(v@, p as int, 0, '\n');
            assert(find_from(rest, 0, '\n') == j - p);
        }
        if j == len {
            // final line, not newline-terminated
            let seg = sub_chars(v, p, len);
            proof {
                assert(seg@ =~= rest);
            }
            let ghost seg_snap = seg;
            r.push(seg);
            proof {
                lemma_deep_push(prev, r, seg_snap);
                assert(split_lines(rest) == seq![rest]);
                assert(v@.skip(len as int) =~= Seq::<char>::empty());
            }
            p = len;
        } else {
            let mut seg = sub_chars(v, p, j);
            proof {
                assert(seg@ =~= rest.take(j - p));
            }
            if seg.len() > 0 && seg[seg.len() - 1] == '\r' {
                seg.pop();
            }
            proof {
                assert(seg@ =~= chomp_cr(rest.take(j - p)));
            }
            let ghost seg_snap = seg;
            r.push(seg);
            proof {
                lemma_deep_push(prev, r, seg_snap);
                assert(rest.skip(j - p + 1) =~= v@.skip(j + 1));
                assert(split_lines(rest) == seq![chomp_cr(rest.take(j - p))] + split_lines(
                    rest.skip(j - p + 1),
                ));
            }
            p = j + 1;
        }
    }
    proof {
        if p == len {
            assert(v@.skip(len as int) =~= Seq::<char>::empty());
        }
    }
    r
}

proof fn lemma_find_from_shift(s: Seq<char>, p: int, i: int, c: char)
    requires
        0 <= p <= s.len(),
        0 <= i,
    ensures
        find_from(s, p + i, c) == p + find_from(s.skip(p), i, c),
    decreases s.len() - p - i,
{
    let rest = s.skip(p);
    if p + i >= s.len() {
    } else if s[p + i] == c {
        assert(rest[i] == c);
    } else {
        assert(rest[i] == s[p + i]);
        lemma_find_from_shift(s, p, i + 1, c);
    }
}

} // verus!
