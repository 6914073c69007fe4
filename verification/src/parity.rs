//! Helpers for comparing this renderer's output against a reference
//! implementation: argument normalization, byte-level mismatch reports, and
//! placeholder substitution in test-case text.

use vstd::prelude::*;
use vstd::string::StrSliceExecFns;

use crate::text::{chars_eq, chars_to_string, push_all, str_chars, sub_chars};

verus! {

/// A command line with a leading program name removed: the first entry is
/// dropped when it does not start with a dash.
pub open spec fn normalize_argv_spec(argv: Seq<Seq<char>>) -> Seq<Seq<char>> {
    if argv.len() > 0 && !(argv[0].len() > 0 && argv[0][0] == '-') {
        argv.drop_first()
    } else {
        argv
    }
}

/// Drop a leading program name from `argv`: the first entry goes unless it
/// starts with a dash.
pub fn normalize_argv(argv: Vec<String>) -> (r: Vec<String>)
    ensures
        r.deep_view() == normalize_argv_spec(argv.deep_view()),
{
    let mut argv = argv;
    let ghost before = argv.deep_view();
    let ghost before_v = argv@;
    if argv.len() > 0 {
        proof {
            assert(argv.deep_view()[0] == argv@[0]@);
        }
        let first_dash = argv[0].as_str().unicode_len() > 0 && argv[0].as_str().get_char(0) == '-';
        if !first_dash {
            let _removed = argv.remove(0);
            proof {
                before_v.remove_ensures(0);
                assert(before_v.remove(0) =~= before_v.drop_first());
                assert(argv.deep_view() =~= before.drop_first()) by {
                    assert(forall|u: int| 0 <= u < argv@.len() ==> argv@[u] == before_v[u + 1]);
                }
            }
        }
    }
    argv
}

/// The decimal digit character for `d`.
pub open spec fn digit_char(d: nat) -> char {
    if d == 0 {
        '0'
    } else if d == 1 {
        '1'
    } else if d == 2 {
        '2'
    } else if d == 3 {
        '3'
    } else if d == 4 {
        '4'
    } else if d == 5 {
        '5'
    } else if d == 6 {
        '6'
    } else if d == 7 {
        '7'
    } else if d == 8 {
        '8'
    } else {
        '9'
    }
}

/// The decimal rendering of `n`, most significant digit first.
pub open spec fn dec_str(n: nat) -> Seq<char>
    decreases n,
{
    if n < 10 {
        seq![digit_char(n)]
    } else {
        dec_str(n / 10).push(digit_char(n % 10))
    }
}

/// The lowercase hex digit character for `d`.
pub open spec fn hex_digit_char(d: nat) -> char {
    if d < 10 {
        digit_char(d)
    } else if d == 10 {
        'a'
    } else if d == 11 {
        'b'
    } else if d == 12 {
        'c'
    } else if d == 13 {
        'd'
    } else if d == 14 {
        'e'
    } else {
        'f'
    }
}

/// The two-digit lowercase hex rendering of a byte.
pub open spec fn hex2(b: nat) -> Seq<char> {
    seq![hex_digit_char(b / 16), hex_digit_char((b % 16) as nat)]
}

fn digit_exec(d: usize) -> (c: char)
    requires
        d < 10,
    ensures
        c == digit_char(d as nat),
{
    if d == 0 {
        '0'
    } else if d == 1 {
        '1'
    } else if d == 2 {
        '2'
    } else if d == 3 {
        '3'
    } else if d == 4 {
        '4'
    } else if d == 5 {
        '5'
    } else if d == 6 {
        '6'
    } else if d == 7 {
        '7'
    } else if d == 8 {
        '8'
    } else {
        '9'
    }
}

fn hex_digit_exec(d: usize) -> (c: char)
    requires
        d < 16,
    ensures
        c == hex_digit_char(d as nat),
{
    if d < 10 {
        digit_exec(d)
    } else if d == 10 {
        'a'
    } else if d == 11 {
        'b'
    } else if d == 12 {
        'c'
    } else if d == 13 {
        'd'
    } else if d == 14 {
        'e'
    } else {
        'f'
    }
}

/// Append the decimal rendering of `n` to `out`.
fn push_dec(out: &mut Vec<char>, n: usize)
    ensures
        final(out)@ == old(out)@ + dec_str(n as nat),
    decreases n,
{
    if n < 10 {
        out.push(digit_exec(n));
        proof {
            assert(old(out)@.push(digit_char(n as nat)) =~= old(out)@ + dec_str(n as nat));
        }
    } else {
        push_dec(out, n / 10);
        out.push(digit_exec(n % 10));
        proof {
            assert(old(out)@ + dec_str((n / 10) as nat) + seq![digit_char((n % 10) as nat)]
                =~= old(out)@ + dec_str(n as nat)) by {
                assert(dec_str(n as nat) == dec_str((n / 10) as nat).push(
                    digit_char((n % 10) as nat),
                ));
            }
        }
    }
}

/// Append the two-digit hex rendering of `b` to `out`.
fn push_hex2(out: &mut Vec<char>, b: u8)
    ensures
        final(out)@ == old(out)@ + hex2(b as nat),
{
    let hi: usize = (b / 16) as usize;
    let lo: usize = (b % 16) as usize;
    out.push(hex_digit_exec(hi));
    out.push(hex_digit_exec(lo));
    proof {
        assert(old(out)@.push(hex_digit_char((b / 16) as nat)).push(
            hex_digit_char((b % 16) as nat),
        ) =~= old(out)@ + hex2(b as nat));
    }
}

/// Append the code points of the literal `s` to `out`.
fn push_str_chars(out: &mut Vec<char>, s: &str)
    ensures
        final(out)@ == old(out)@ + s@,
{
    let v = str_chars(s);
    push_all(out, &v);
}

/// Index of the first byte where `l` and `r` differ, within their common
/// length, or -1 when the shared prefix matches.
pub open spec fn first_diff(l: Seq<u8>, r: Seq<u8>, i: int) -> int
    decreases l.len() - i,
{
    if i < 0 || i >= l.len() || i >= r.len() {
        -1
    } else if l[i] != r[i] {
        i
    } else {
        first_diff(l, r, i + 1)
    }
}

/// The mismatch report for two outputs: the first differing byte in hex,
/// a length mismatch when one output extends the other, or a note that
/// they are identical.
pub open spec fn first_mismatch_spec(
    l: Seq<u8>,
    r: Seq<u8>,
    ln: Seq<char>,
    rn: Seq<char>,
) -> Seq<char> {
    let d = first_diff(l, r, 0);
    if d >= 0 {
        "byte "@ + dec_str(d as nat) + ": "@ + ln + "=0x"@ + hex2(l[d] as nat) + ", "@ + rn
            + "=0x"@ + hex2(r[d] as nat)
    } else if l.len() != r.len() {
        "length mismatch: "@ + ln + "="@ + dec_str(l.len()) + " bytes, "@ + rn + "="@ + dec_str(
            r.len(),
        ) + " bytes"@
    } else {
        "outputs are identical"@
    }
}

/// Describe the first place two outputs differ: the first differing byte
/// (index and both values in hex), a length mismatch, or a note that the
/// outputs are identical.
pub fn first_mismatch(left: &[u8], right: &[u8], left_name: &str, right_name: &str) -> (r: String)
    ensures
        r@ == first_mismatch_spec(left@, right@, left_name@, right_name@),
{
    let llen: usize = left.len();
    let rlen: usize = right.len();
    let min: usize = if llen < rlen {
        llen
    } else {
        rlen
    };
    let mut i: usize = 0;
    let mut out: Vec<char> = Vec::new();
    while i < min
        invariant
            i <= min,
            min == if llen < rlen {
                llen
            } else {
                rlen
            },
            llen == left@.len(),
            rlen == right@.len(),
            out@ == Seq::<char>::empty(),
            first_diff(left@, right@, 0) == first_diff(left@, right@, i as int),
        decreases min - i,
    {
        if left[i] != right[i] {
            proof {
                assert(first_diff(left@, right@, i as int) == i);
            }
            push_str_chars(&mut out, "byte ");
            push_dec(&mut out, i);
            push_str_chars(&mut out, ": ");
            push_str_chars(&mut out, left_name);
            push_str_chars(&mut out, "=0x");
            push_hex2(&mut out, left[i]);
            push_str_chars(&mut out, ", ");
            push_str_chars(&mut out, right_name);
            push_str_chars(&mut out, "=0x");
            push_hex2(&mut out, right[i]);
            proof {
                assert(out@ =~= "byte "@ + dec_str(i as nat) + ": "@ + left_name@ + "=0x"@
                    + hex2(left@[i as int] as nat) + ", "@ + right_name@ + "=0x"@ + hex2(
                    right@[i as int] as nat,
                ));
            }
            return chars_to_string(&out);
        }
        i = i + 1;
    }
    proof {
        assert(first_diff(left@, right@, min as int) == -1);
    }
    if llen != rlen {
        push_str_chars(&mut out, "length mismatch: ");
        push_str_chars(&mut out, left_name);
        push_str_chars(&mut out, "=");
        push_dec(&mut out, llen);
        push_str_chars(&mut out, " bytes, ");
        push_str_chars(&mut out, right_name);
        push_str_chars(&mut out, "=");
        push_dec(&mut out, rlen);
        push_str_chars(&mut out, " bytes");
        proof {
            assert(out@ =~= "length mismatch: "@ + left_name@ + "="@ + dec_str(left@.len())
                + " bytes, "@ + right_name@ + "="@ + dec_str(right@.len()) + " bytes"@);
        }
        chars_to_string(&out)
    } else {
        push_str_chars(&mut out, "outputs are identical");
        proof {
            assert(out@ =~= "outputs are identical"@);
        }
        chars_to_string(&out)
    }
}

/// Whether the token `tok` occurs at position `i` of `s`.
pub open spec fn token_at(s: Seq<char>, i: int, tok: Seq<char>) -> bool {
    0 <= i && i + tok.len() <= s.len() && s.subrange(i, i + tok.len()) == tok
}

/// `s` from position `i` on, with every placeholder token substituted once,
/// left to right: `t1` becomes `v1` and `t2` becomes `v2`, and a
/// substituted value is never re-scanned.
pub open spec fn subst_from(
    s: Seq<char>,
    i: int,
    t1: Seq<char>,
    v1: Seq<char>,
    t2: Seq<char>,
    v2: Seq<char>,
) -> Seq<char>
    decreases s.len() - i,
{
    if i < 0 || i >= s.len() {
        Seq::empty()
    } else if t1.len() > 0 && token_at(s, i, t1) {
        v1 + subst_from(s, i + t1.len(), t1, v1, t2, v2)
    } else if t2.len() > 0 && token_at(s, i, t2) {
        v2 + subst_from(s, i + t2.len(), t1, v1, t2, v2)
    } else {
        seq![s[i]] + subst_from(s, i + 1, t1, v1, t2, v2)
    }
}

/// The test-case text with its placeholders filled in: `{temp}` becomes the
/// temporary directory and `{workspace}` the workspace root.
pub open spec fn substitute_vars_spec(s: Seq<char>, temp: Seq<char>, workspace: Seq<char>) -> Seq<
    char,
> {
    subst_from(s, 0, "{temp}"@, temp, "{workspace}"@, workspace)
}

/// Whether `tok` occurs at position `i` of `v`.
fn token_at_exec(v: &Vec<char>, i: usize, tok: &Vec<char>) -> (r: bool)
    requires
        i <= v@.len(),
    ensures
        r == token_at(v@, i as int, tok@),
{
    let tlen: usize = tok.len();
    let vlen: usize = v.len();
    if vlen - i < tlen {
        return false;
    }
    let piece = sub_chars(v, i, i + tlen);
    chars_eq(&piece, tok)
}

/// Fill the `{temp}` and `{workspace}` placeholders of a test-case text,
/// substituting each token once, left to right.
pub fn substitute_vars(input: &str, temp: &str, workspace: &str) -> (r: String)
    ensures
        r@ == substitute_vars_spec(input@, temp@, workspace@),
{
    proof {
        reveal_strlit("{temp}");
        reveal_strlit("{workspace}");
    }
    let v = str_chars(input);
    let t1 = str_chars("{temp}");
    let v1 = str_chars(temp);
    let t2 = str_chars("{workspace}");
    let v2 = str_chars(workspace);
    let len: usize = v.len();
    let mut out: Vec<char> = Vec::new();
    let mut i: usize = 0;
    proof {
        assert(out@ + substitute_vars_spec(input@, temp@, workspace@) =~= substitute_vars_spec(
            input@,
            temp@,
            workspace@,
        ));
    }
    while i < len
        invariant
            i <= len,
            len == v@.len(),
            v@ == input@,
            t1@ == "{temp}"@,
            v1@ == temp@,
            t2@ == "{workspace}"@,
            v2@ == workspace@,
            t1@.len() == 6,
            t2@.len() == 11,
            substitute_vars_spec(input@, temp@, workspace@) == out@ + subst_from(
                v@,
                i as int,
                t1@,
                v1@,
                t2@,
                v2@,
            ),
        decreases len - i,
    {
        let ghost before = out@;
        let ghost rest = subst_from(v@, i as int, t1@, v1@, t2@, v2@);
        if token_at_exec(&v, i, &t1) {
            push_all(&mut out, &v1);
            proof {
                assert(rest == v1@ + subst_from(v@, i + 6, t1@, v1@, t2@, v2@));
                assert(before + rest =~= out@ + subst_from(v@, i + 6, t1@, v1@, t2@, v2@));
            }
            i = i + 6;
        } else if token_at_exec(&v, i, &t2) {
            push_all(&mut out, &v2);
            proof {
                assert(rest == v2@ + subst_from(v@, i + 11, t1@, v1@, t2@, v2@));
                assert(before + rest =~= out@ + subst_from(v@, i + 11, t1@, v1@, t2@, v2@));
            }
            i = i + 11;
        } else {
            out.push(v[i]);
            proof {
                assert(rest == seq![v@[i as int]] + subst_from(v@, i + 1, t1@, v1@, t2@, v2@));
                assert(before + rest =~= out@ + subst_from(v@, i + 1, t1@, v1@, t2@, v2@));
            }
            i = i + 1;
        }
    }
    proof {
        assert(subst_from(v@, len as int, t1@, v1@, t2@, v2@) =~= Seq::<char>::empty());
        assert(out@ + Seq::<char>::empty() =~= out@);
    }
    chars_to_string(&out)
}

} // verus!
