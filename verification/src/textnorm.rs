//! Whitespace-insensitive, case-insensitive comparison of SQL text, used
//! to decide whether a stored index definition matches the intended one.

use vstd::prelude::*;

use crate::paths::is_space;
use crate::paths::trim_lo;
use crate::paths::trim_lo_from;
use crate::paths::trim_hi;
use crate::paths::trim_hi_from;
use crate::strutil::str_eq;

verus! {

/// ASCII-uppercases one character.
pub open spec fn upper_char(c: char) -> char {
    if 'a' <= c && c <= 'z' {
        (((c as u32) - 32) as u8) as char
    } else {
        c
    }
}

/// Uppercased text of `s[i..hi]` with every whitespace run collapsed to
/// one blank; `prev` says whether a blank was just emitted.
pub open spec fn squash_tail(s: Seq<char>, i: int, hi: int, prev: bool) -> Seq<char>
    decreases hi - i,
{
    if i < 0 || hi > s.len() || i >= hi {
        Seq::empty()
    } else if is_space(s[i]) {
        if prev {
            squash_tail(s, i + 1, hi, true)
        } else {
            seq![' '] + squash_tail(s, i + 1, hi, true)
        }
    } else {
        seq![upper_char(s[i])] + squash_tail(s, i + 1, hi, false)
    }
}

/// Normal form of SQL text: trimmed, interior whitespace runs collapsed
/// to single blanks, ASCII letters uppercased.
pub open spec fn sql_norm(s: Seq<char>) -> Seq<char> {
    squash_tail(s, trim_lo(s), trim_hi(s), true)
}

/// ASCII-uppercases one character.
fn upper_c(c: char) -> (r: char)
    ensures
        r == upper_char(c),
{
    let u = c as u32;
    if 97 <= u && u <= 122 {
        ((u - 32) as u8) as char
    } else {
        c
    }
}

/// Is `c` a blank character?
fn is_space_c(c: char) -> (r: bool)
    ensures
        r == is_space(c),
{
    c == ' ' || c == '\t' || c == '\n' || c == '\r'
}

/// Builds the normal form of `s`.
fn normalize_sql(s: &str) -> (r: String)
    ensures
        r@ == sql_norm(s@),
{
    let n = s.unicode_len();
    let ghost sv = s@;
    let mut lo: usize = 0;
    while lo < n && is_space_c(s.get_char(lo))
        invariant
            sv == s@,
            lo <= n,
            n == sv.len(),
            trim_lo(sv) == trim_lo_from(sv, lo as int),
        decreases n - lo,
    {
        lo = lo + 1;
    }
    let mut hi: usize = n;
    while hi > 0 && is_space_c(s.get_char(hi - 1))
        invariant
            sv == s@,
            hi <= n,
            n == sv.len(),
            trim_hi(sv) == trim_hi_from(sv, hi as int),
        decreases hi,
    {
        hi = hi - 1;
    }
    proof {
        assert(trim_lo(sv) == lo as int);
        assert(trim_hi(sv) == hi as int);
    }
    let mut out = String::new();
    if lo >= hi {
        proof {
            assert(sql_norm(sv) =~= Seq::<char>::empty());
        }
        return out;
    }
    let mut prev: bool = true;
    let mut i: usize = lo;
    let ghost target = sql_norm(sv);
    proof {
        assert(target =~= out@ + squash_tail(sv, lo as int, hi as int, true));
    }
    while i < hi
        invariant
            sv == s@,
            lo <= i <= hi <= n,
            n == sv.len(),
            target =~= out@ + squash_tail(sv, i as int, hi as int, prev),
        decreases hi - i,
    {
        let c = s.get_char(i);
        if is_space_c(c) {
            if !prev {
                out.push(' ');
                prev = true;
                proof {
                    assert(out@ =~= out@.drop_last() + seq![' ']);
                    assert((out@.drop_last() + seq![' ']) + squash_tail(
                        sv,
                        i as int + 1,
                        hi as int,
                        true,
                    ) =~= out@.drop_last() + (seq![' '] + squash_tail(
                        sv,
                        i as int + 1,
                        hi as int,
                        true,
                    )));
                }
            }
        } else {
            let u = upper_c(c);
            out.push(u);
            prev = false;
            proof {
                assert(out@ =~= out@.drop_last() + seq![u]);
                assert((out@.drop_last() + seq![u]) + squash_tail(
                    sv,
                    i as int + 1,
                    hi as int,
                    false,
                ) =~= out@.drop_last() + (seq![u] + squash_tail(
                    sv,
                    i as int + 1,
                    hi as int,
                    false,
                )));
            }
        }
        i = i + 1;
    }
    proof {
        assert(squash_tail(sv, hi as int, hi as int, prev) =~= Seq::<char>::empty());
        assert(target =~= out@);
    }
    out
}

/// Are the two pieces of SQL text the same up to letter case and
/// whitespace layout?
pub fn sql_equals(sql1: &str, sql2: &str) -> (r: bool)
    ensures
        r == (sql_norm(sql1@) == sql_norm(sql2@)),
{
    let a = normalize_sql(sql1);
    let b = normalize_sql(sql2);
    str_eq(a.as_str(), b.as_str())
}

} // verus!
