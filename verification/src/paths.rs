//! Logical path handling: normalization of raw client paths, canonical
//! directory forms, joining, parent computation, descendant tests and
//! prefix rebasing for subtree cascades, and mapping logical paths to
//! physical storage locations.
//!
//! A raw path is normalized by trimming surrounding blanks, mapping `\`
//! to `/`, forcing one leading `/`, and collapsing duplicate separators.
//! Any `..` in the trimmed text is rejected outright: no traversal
//! resolution is ever attempted.

use vstd::prelude::*;

use crate::decimal::dec_str;
use crate::decimal::push_dec;
use crate::errors::FsError;

verus! {

/// Blank characters stripped from the ends of a raw path.
pub open spec fn is_space(c: char) -> bool {
    c == ' ' || c == '\t' || c == '\n' || c == '\r'
}

/// Backslashes count as separators and are canonicalized to `/`.
pub open spec fn map_sep(c: char) -> char {
    if c == '\\' {
        '/'
    } else {
        c
    }
}

/// First index at or after `i` holding a non-blank character (or the length).
pub open spec fn trim_lo_from(s: Seq<char>, i: int) -> int
    decreases s.len() - i,
{
    if i < 0 || i >= s.len() {
        s.len() as int
    } else if is_space(s[i]) {
        trim_lo_from(s, i + 1)
    } else {
        i
    }
}

/// Index of the start of the trimmed text.
pub open spec fn trim_lo(s: Seq<char>) -> int {
    trim_lo_from(s, 0)
}

/// Exclusive end of the trimmed text, scanning down from `i`.
pub open spec fn trim_hi_from(s: Seq<char>, i: int) -> int
    decreases i,
{
    if i <= 0 || i > s.len() {
        0
    } else if is_space(s[i - 1]) {
        trim_hi_from(s, i - 1)
    } else {
        i
    }
}

/// Exclusive end of the trimmed text.
pub open spec fn trim_hi(s: Seq<char>) -> int {
    trim_hi_from(s, s.len() as int)
}

/// Two adjacent dots anywhere in `s[lo..hi]`.
pub open spec fn has_dotdot_between(s: Seq<char>, lo: int, hi: int) -> bool {
    exists|k: int| lo <= k && k + 1 < hi && #[trigger] s[k] == '.' && s[k + 1] == '.'
}

/// A raw path is rejected exactly when its trimmed text contains `..`.
pub open spec fn path_rejected(raw: Seq<char>) -> bool {
    has_dotdot_between(raw, trim_lo(raw), trim_hi(raw))
}

/// Separator-mapped text of `s[i..hi]` with duplicate `/` collapsed;
/// `prev` says whether the character just before `i` came out as `/`.
pub open spec fn collapse_tail(s: Seq<char>, i: int, hi: int, prev: bool) -> Seq<char>
    decreases hi - i,
{
    if i < 0 || hi > s.len() || i >= hi {
        Seq::empty()
    } else {
        let c = map_sep(s[i]);
        if c == '/' && prev {
            collapse_tail(s, i + 1, hi, prev)
        } else {
            seq![c] + collapse_tail(s, i + 1, hi, c == '/')
        }
    }
}

/// The canonical form a raw path normalizes to (when it is not rejected).
pub open spec fn canonical_path_of(raw: Seq<char>) -> Seq<char> {
    let lo = trim_lo(raw);
    let hi = trim_hi(raw);
    if lo >= hi {
        seq!['/']
    } else if map_sep(raw[lo]) == '/' {
        collapse_tail(raw, lo, hi, false)
    } else {
        seq!['/'] + collapse_tail(raw, lo, hi, true)
    }
}

/// No two adjacent separators.
pub open spec fn no_dup_slash(p: Seq<char>) -> bool {
    forall|k: int| 0 < k < p.len() ==> !(#[trigger] p[k - 1] == '/' && p[k] == '/')
}

/// Shape of every normalized path: nonempty, absolute, single separators.
pub open spec fn canonical_ok(p: Seq<char>) -> bool {
    p.len() >= 1 && p[0] == '/' && no_dup_slash(p)
}

/// Shape of a stored entry path: absolute, at least one name, no
/// trailing separator, single separators.
pub open spec fn valid_entry_path(p: Seq<char>) -> bool {
    p.len() >= 2 && p[0] == '/' && p[p.len() - 1] != '/' && no_dup_slash(p)
}

/// Shape of a parent directory: the root, or a valid entry path.
pub open spec fn is_dir_path(d: Seq<char>) -> bool {
    d == seq!['/'] || valid_entry_path(d)
}

/// A name that may appear as one path segment: nonempty, no separators,
/// no `..`, and not the `.` segment.
pub open spec fn valid_name(n: Seq<char>) -> bool {
    &&& n.len() >= 1
    &&& forall|k: int| 0 <= k < n.len() ==> #[trigger] n[k] != '/' && n[k] != '\\'
    &&& !has_dotdot_between(n, 0, n.len() as int)
    &&& n != seq!['.']
}

/// Is `c` a blank character?
fn is_space_c(c: char) -> (r: bool)
    ensures
        r == is_space(c),
{
    c == ' ' || c == '\t' || c == '\n' || c == '\r'
}

/// Normalizes a raw client path, rejecting traversal attempts.
///
/// Trims surrounding blanks, maps `\` to `/`, forces one leading `/`,
/// collapses duplicate separators, and fails with `PathTraversal` when
/// the trimmed text contains `..` anywhere.
pub fn sanitize_path(path: &str) -> (r: Result<String, FsError>)
    ensures
        r is Err <==> path_rejected(path@),
        r is Err ==> r->Err_0 == FsError::PathTraversal,
        r is Ok ==> r->Ok_0@ == canonical_path_of(path@),
        r is Ok ==> canonical_ok(r->Ok_0@),
{
    let n = path.unicode_len();
    let ghost s = path@;

    // Trimmed bounds.
    let mut lo: usize = 0;
    while lo < n && is_space_c(path.get_char(lo))
        invariant
            s == path@,
            lo <= n,
            n == s.len(),
            trim_lo(s) == trim_lo_from(s, lo as int),
        decreases n - lo,
    {
        lo = lo + 1;
    }
    proof {
        assert(trim_lo(s) == lo as int);
    }
    let mut hi: usize = n;
    while hi > 0 && is_space_c(path.get_char(hi - 1))
        invariant
            s == path@,
            hi <= n,
            n == s.len(),
            trim_hi(s) == trim_hi_from(s, hi as int),
        decreases hi,
    {
        hi = hi - 1;
    }
    proof {
        assert(trim_hi(s) == hi as int);
    }

    if lo >= hi {
        proof {
            assert(!path_rejected(s));
            reveal_strlit("/");
            assert("/"@ =~= seq!['/']);
        }
        return Ok("/".to_owned());
    }

    let mut out = String::new();
    out.push('/');
    let mut prev: bool = true;
    let mut i: usize = lo;
    let ghost target = canonical_path_of(s);
    if map_sep_c(path.get_char(lo)) == '/' {
        // the first trimmed character is itself the leading separator
        i = lo + 1;
        proof {
            assert(target == collapse_tail(s, lo as int, hi as int, false));
            assert(target =~= out@ + collapse_tail(s, lo as int + 1, hi as int, true));
            assert(out@ =~= seq!['/']);
            assert(s[lo as int] != '.');
        }
    } else {
        proof {
            assert(target == seq!['/'] + collapse_tail(s, lo as int, hi as int, true));
            assert(target =~= out@ + collapse_tail(s, lo as int, hi as int, true));
            assert(out@ =~= seq!['/']);
        }
    }

    while i < hi
        invariant
            s == path@,
            lo <= i <= hi <= n,
            n == s.len(),
            trim_lo(s) == lo as int,
            trim_hi(s) == hi as int,
            target == canonical_path_of(s),
            target =~= out@ + collapse_tail(s, i as int, hi as int, prev),
            out@.len() >= 1,
            out@[0] == '/',
            no_dup_slash(out@),
            prev == (out@[out@.len() - 1] == '/'),
            forall|k: int|
                lo <= k < i && k + 1 < hi ==> !(#[trigger] s[k] == '.' && s[k + 1] == '.'),
        decreases hi - i,
    {
        let cr = path.get_char(i);
        if cr == '.' && i + 1 < hi && path.get_char(i + 1) == '.' {
            proof {
                assert(s[i as int] == '.' && s[i as int + 1] == '.');
                assert(has_dotdot_between(s, lo as int, hi as int));
            }
            return Err(FsError::PathTraversal);
        }
        let c = map_sep_c(cr);
        if c == '/' && prev {
            // duplicate separator: skip
        } else {
            out.push(c);
            prev = c == '/';
            proof {
                assert(out@ =~= (out@.drop_last()) + seq![c]);
                assert((out@.drop_last() + seq![c]) + collapse_tail(
                    s,
                    i as int + 1,
                    hi as int,
                    c == '/',
                ) =~= out@.drop_last() + (seq![c] + collapse_tail(
                    s,
                    i as int + 1,
                    hi as int,
                    c == '/',
                )));
            }
        }
        i = i + 1;
    }
    proof {
        assert(collapse_tail(s, hi as int, hi as int, prev) =~= Seq::<char>::empty());
        assert(target =~= out@);
        assert(!path_rejected(s));
    }
    Ok(out)
}

/// Maps `\` to `/`, leaving every other character alone.
fn map_sep_c(c: char) -> (r: char)
    ensures
        r == map_sep(c),
{
    if c == '\\' {
        '/'
    } else {
        c
    }
}

/// `p` with every trailing `/` removed.
pub open spec fn strip_trailing_slashes(p: Seq<char>) -> Seq<char>
    decreases p.len(),
{
    if p.len() > 0 && p[p.len() - 1] == '/' {
        strip_trailing_slashes(p.drop_last())
    } else {
        p
    }
}

/// The canonical directory form of a normalized path: trailing
/// separators dropped, the root kept as `/`.
pub open spec fn dir_canon(p: Seq<char>) -> Seq<char> {
    if strip_trailing_slashes(p).len() == 0 {
        seq!['/']
    } else {
        strip_trailing_slashes(p)
    }
}

/// Turns a normalized path into its canonical directory form.
pub fn canon_dir(p: &str) -> (r: String)
    requires
        canonical_ok(p@),
    ensures
        r@ == dir_canon(p@),
        is_dir_path(r@),
{
    let n = p.unicode_len();
    proof {
        assert(p@.subrange(0, n as int) =~= p@);
    }
    let mut e: usize = n;
    while e > 0 && p.get_char(e - 1) == '/'
        invariant
            e <= n,
            n == p@.len(),
            strip_trailing_slashes(p@) == strip_trailing_slashes(p@.subrange(0, e as int)),
        decreases e,
    {
        proof {
            assert(p@.subrange(0, e as int).drop_last() =~= p@.subrange(0, e as int - 1));
        }
        e = e - 1;
    }
    proof {
        if e > 0 {
            assert(strip_trailing_slashes(p@.subrange(0, e as int)) == p@.subrange(0, e as int));
        } else {
            assert(p@.subrange(0, 0) =~= Seq::<char>::empty());
        }
    }
    if e == 0 {
        proof {
            reveal_strlit("/");
            assert("/"@ =~= seq!['/']);
        }
        return "/".to_owned();
    }
    let r = p.substring_char(0, e).to_owned();
    proof {
        assert(r@ == dir_canon(p@));
        if e == 1 {
            assert(r@ =~= seq!['/']);
        } else {
            assert(r@[0] == p@[0]);
            assert(valid_entry_path(r@));
        }
    }
    r
}

/// The logical path of a child named `n` directly under directory `d`.
pub open spec fn join_spec(d: Seq<char>, n: Seq<char>) -> Seq<char> {
    if d == seq!['/'] {
        seq!['/'] + n
    } else {
        d + seq!['/'] + n
    }
}

/// Builds the logical path of `name` directly under `dir`.
pub fn join_under(dir: &str, name: &str) -> (r: String)
    requires
        is_dir_path(dir@),
    ensures
        r@ == join_spec(dir@, name@),
{
    let mut out: String = dir.to_owned();
    if dir.unicode_len() == 1 {
        proof {
            assert(dir@ =~= seq!['/']);
        }
        out.append(name);
        proof {
            assert(out@ == join_spec(dir@, name@));
        }
        return out;
    }
    proof {
        assert(dir@ != seq!['/']);
    }
    out.push('/');
    out.append(name);
    proof {
        assert(dir@.push('/') =~= dir@ + seq!['/']);
    }
    out
}

/// Index of the last `c` in `p`, or `-1`.
pub open spec fn last_pos(p: Seq<char>, c: char) -> int
    decreases p.len(),
{
    if p.len() == 0 {
        -1
    } else if p[p.len() - 1] == c {
        p.len() - 1
    } else {
        last_pos(p.drop_last(), c)
    }
}

/// The directory component of an entry path.
pub open spec fn dir_of(p: Seq<char>) -> Seq<char> {
    let j = last_pos(p, '/');
    if j <= 0 {
        seq!['/']
    } else {
        p.subrange(0, j)
    }
}

proof fn lemma_last_pos_append_without(p: Seq<char>, n: Seq<char>, c: char)
    requires
        forall|k: int| 0 <= k < n.len() ==> n[k] != c,
    ensures
        last_pos(p + n, c) == last_pos(p, c),
    decreases n.len(),
{
    if n.len() == 0 {
        assert(p + n =~= p);
    } else {
        assert((p + n).drop_last() =~= p + n.drop_last());
        lemma_last_pos_append_without(p, n.drop_last(), c);
    }
}

/// The parent of a joined path is the directory it was joined under.
pub proof fn lemma_dir_of_join(d: Seq<char>, n: Seq<char>)
    requires
        is_dir_path(d),
        valid_name(n),
    ensures
        dir_of(join_spec(d, n)) == d,
{
    if d == seq!['/'] {
        let j = seq!['/'] + n;
        assert forall|k: int| 0 <= k < n.len() implies n[k] != '/' by {}
        lemma_last_pos_append_without(seq!['/'], n, '/');
        assert(last_pos(seq!['/'], '/') == 0);
        assert(dir_of(j) == seq!['/']);
    } else {
        let j = d + seq!['/'] + n;
        lemma_last_pos_append_without(d + seq!['/'], n, '/');
        assert((d + seq!['/']).drop_last() =~= d);
        assert(last_pos(d + seq!['/'], '/') == d.len());
        assert(j.subrange(0, d.len() as int) =~= d);
    }
}

/// A joined path is a well-shaped entry path.
pub proof fn lemma_join_valid(d: Seq<char>, n: Seq<char>)
    requires
        is_dir_path(d),
        valid_name(n),
    ensures
        valid_entry_path(join_spec(d, n)),
        descends_from(join_spec(d, n), d) || d == seq!['/'],
{
    let j = join_spec(d, n);
    if d == seq!['/'] {
        assert(j.len() == 1 + n.len());
        assert(j[0] == '/');
        assert(j[j.len() - 1] == n[n.len() - 1]);
        assert forall|k: int| 0 < k < j.len() implies !(#[trigger] j[k - 1] == '/' && j[k] == '/') by {
            if k > 1 {
                assert(j[k - 1] == n[k - 2] && n[k - 2] != '/');
            } else {
                assert(j[k] == n[k - 1] && n[k - 1] != '/');
            }
        }
    } else {
        assert(j[0] == d[0]);
        assert(j[j.len() - 1] == n[n.len() - 1]);
        assert forall|k: int| 0 < k < j.len() implies !(#[trigger] j[k - 1] == '/' && j[k] == '/') by {
            let dl = d.len() as int;
            if k < dl {
                assert(j[k - 1] == d[k - 1] && j[k] == d[k]);
            } else if k == dl {
                assert(j[k - 1] == d[dl - 1] && d[dl - 1] != '/');
            } else if k == dl + 1 {
                assert(j[k] == n[0] && n[0] != '/');
            } else {
                assert(j[k - 1] == n[k - dl - 2] && n[k - dl - 2] != '/');
            }
        }
        assert(j.subrange(0, d.len() as int) =~= d);
        assert(j[d.len() as int] == '/');
    }
}

/// Does `p` lie strictly inside the subtree rooted at `anc`?
pub open spec fn descends_from(p: Seq<char>, anc: Seq<char>) -> bool {
    &&& p.len() > anc.len()
    &&& p.subrange(0, anc.len() as int) == anc
    &&& p[anc.len() as int] == '/'
}

/// Runtime test for `descends_from`.
pub fn is_descendant_path(p: &str, anc: &str) -> (r: bool)
    ensures
        r == descends_from(p@, anc@),
{
    let np = p.unicode_len();
    let na = anc.unicode_len();
    if np <= na {
        return false;
    }
    if p.get_char(na) != '/' {
        return false;
    }
    let mut i: usize = 0;
    while i < na
        invariant
            i <= na < np,
            np == p@.len(),
            na == anc@.len(),
            forall|k: int| 0 <= k < i ==> p@[k] == anc@[k],
        decreases na - i,
    {
        if p.get_char(i) != anc.get_char(i) {
            return false;
        }
        i = i + 1;
    }
    proof {
        assert(p@.subrange(0, na as int) =~= anc@);
    }
    true
}

/// `p` with the leading `oldp` replaced by `newp`.
pub open spec fn replace_prefix(p: Seq<char>, oldp: Seq<char>, newp: Seq<char>) -> Seq<char> {
    newp + p.subrange(oldp.len() as int, p.len() as int)
}

/// Rewrites the leading `oldp` of `p` to `newp`.
pub fn rebase_path(p: &str, oldp: &str, newp: &str) -> (r: String)
    requires
        oldp@.len() <= p@.len(),
    ensures
        r@ == replace_prefix(p@, oldp@, newp@),
{
    let mut out: String = newp.to_owned();
    let tail = p.substring_char(oldp.unicode_len(), p.unicode_len());
    out.append(tail);
    out
}

/// Rewriting distinct paths under one root keeps them distinct.
pub proof fn lemma_replace_prefix_injective(
    p1: Seq<char>,
    p2: Seq<char>,
    oldp: Seq<char>,
    newp: Seq<char>,
)
    requires
        p1 != p2,
        oldp.len() <= p1.len(),
        oldp.len() <= p2.len(),
        p1.subrange(0, oldp.len() as int) == oldp,
        p2.subrange(0, oldp.len() as int) == oldp,
    ensures
        replace_prefix(p1, oldp, newp) != replace_prefix(p2, oldp, newp),
{
    let l = oldp.len() as int;
    if replace_prefix(p1, oldp, newp) == replace_prefix(p2, oldp, newp) {
        assert(p1.subrange(l, p1.len() as int) =~= p2.subrange(l, p2.len() as int)) by {
            let r1 = replace_prefix(p1, oldp, newp);
            let r2 = replace_prefix(p2, oldp, newp);
            assert(r1.len() == r2.len());
            assert forall|k: int| 0 <= k < p1.len() - l implies p1.subrange(l, p1.len() as int)[k]
                == p2.subrange(l, p2.len() as int)[k] by {
                assert(r1[newp.len() + k] == r2[newp.len() + k]);
            }
        }
        assert(p1 =~= p2) by {
            assert forall|k: int| 0 <= k < p1.len() implies p1[k] == p2[k] by {
                if k < l {
                    assert(p1.subrange(0, l)[k] == p2.subrange(0, l)[k]);
                } else {
                    assert(p1.subrange(l, p1.len() as int)[k - l] == p2.subrange(
                        l,
                        p2.len() as int,
                    )[k - l]);
                }
            }
        }
    }
}

/// Storage location of an owner's subtree root: `<root>/<owner id>`.
pub open spec fn user_storage_of(root: Seq<char>, user_id: u64) -> Seq<char> {
    root + seq!['/'] + dec_str(user_id as nat)
}

/// The per-owner storage directory under the storage root.
pub fn get_user_storage_path(storage_root: &str, user_id: u64) -> (r: String)
    ensures
        r@ == user_storage_of(storage_root@, user_id),
{
    let mut out: String = storage_root.to_owned();
    out.push('/');
    push_dec(&mut out, user_id);
    proof {
        assert(storage_root@.push('/') =~= storage_root@ + seq!['/']);
    }
    out
}

/// Deterministic physical location of a logical path: the owner subtree
/// joined with the logical path (which is absolute, so they concatenate).
pub open spec fn physical_of(root: Seq<char>, user_id: u64, logical: Seq<char>) -> Seq<char> {
    user_storage_of(root, user_id) + logical
}

/// Maps a logical path to its physical storage location under `root`.
pub fn physical_location(storage_root: &str, user_id: u64, logical: &str) -> (r: String)
    ensures
        r@ == physical_of(storage_root@, user_id, logical@),
{
    let mut out = get_user_storage_path(storage_root, user_id);
    out.append(logical);
    out
}

/// Splits a file name at its last dot into stem and extension; a name
/// without a dot has the empty extension.
pub fn split_filename<'a>(filename: &'a str) -> (r: (&'a str, &'a str))
    ensures
        last_pos(filename@, '.') < 0 ==> r.0@ == filename@ && r.1@ == Seq::<char>::empty(),
        last_pos(filename@, '.') >= 0 ==> {
            let j = last_pos(filename@, '.');
            r.0@ == filename@.subrange(0, j) && r.1@ == filename@.subrange(
                j + 1,
                filename@.len() as int,
            )
        },
{
    let n = filename.unicode_len();
    proof {
        assert(filename@.subrange(0, n as int) =~= filename@);
    }
    let mut e: usize = n;
    while e > 0 && filename.get_char(e - 1) != '.'
        invariant
            e <= n,
            n == filename@.len(),
            last_pos(filename@, '.') == last_pos(filename@.subrange(0, e as int), '.'),
            forall|k: int| e <= k < n ==> filename@[k] != '.',
        decreases e,
    {
        proof {
            assert(filename@.subrange(0, e as int).drop_last() =~= filename@.subrange(
                0,
                e as int - 1,
            ));
        }
        e = e - 1;
    }
    if e == 0 {
        proof {
            assert(filename@.subrange(0, 0) =~= Seq::<char>::empty());
            assert(last_pos(filename@, '.') < 0);
            reveal_strlit("");
            assert(""@ =~= Seq::<char>::empty());
        }
        return (filename, "");
    }
    proof {
        assert(last_pos(filename@.subrange(0, e as int), '.') == e - 1);
    }
    let stem = filename.substring_char(0, e - 1);
    let ext = filename.substring_char(e, n);
    (stem, ext)
}


/// `last_pos` is `-1` or a valid index.
pub proof fn lemma_last_pos_bounds(p: Seq<char>, c: char)
    ensures
        -1 <= last_pos(p, c) < p.len(),
    decreases p.len(),
{
    if p.len() > 0 && p[p.len() - 1] != c {
        lemma_last_pos_bounds(p.drop_last(), c);
    }
}

/// Nothing after `last_pos` holds the character.
pub proof fn lemma_last_pos_after(p: Seq<char>, c: char)
    ensures
        forall|t: int| last_pos(p, c) < t < p.len() ==> #[trigger] p[t] != c,
    decreases p.len(),
{
    if p.len() > 0 && p[p.len() - 1] != c {
        lemma_last_pos_after(p.drop_last(), c);
        crate::paths::lemma_last_pos_bounds(p.drop_last(), c);
        assert forall|t: int| last_pos(p, c) < t < p.len() implies #[trigger] p[t] != c by {
            if t < p.len() - 1 {
                assert(p[t] == p.drop_last()[t]);
            }
        }
    }
}

/// Index of the last occurrence of `c` in `s`, if any.
pub fn find_last(s: &str, c: char) -> (r: Option<usize>)
    ensures
        r is None ==> last_pos(s@, c) == -1,
        r is Some ==> last_pos(s@, c) == r->Some_0 as int && r->Some_0 < s@.len(),
{
    proof {
        lemma_last_pos_bounds(s@, c);
    }
    let n = s.unicode_len();
    proof {
        assert(s@.subrange(0, n as int) =~= s@);
    }
    let mut e: usize = n;
    while e > 0 && s.get_char(e - 1) != c
        invariant
            e <= n,
            n == s@.len(),
            last_pos(s@, c) == last_pos(s@.subrange(0, e as int), c),
        decreases e,
    {
        proof {
            assert(s@.subrange(0, e as int).drop_last() =~= s@.subrange(0, e as int - 1));
        }
        e = e - 1;
    }
    if e == 0 {
        proof {
            assert(s@.subrange(0, 0) =~= Seq::<char>::empty());
        }
        None
    } else {
        proof {
            assert(last_pos(s@.subrange(0, e as int), c) == e - 1);
        }
        Some(e - 1)
    }
}


/// The character sits at a nonnegative `last_pos`.
pub proof fn lemma_last_pos_found(p: Seq<char>, c: char)
    ensures
        last_pos(p, c) >= 0 ==> p[last_pos(p, c)] == c,
    decreases p.len(),
{
    if p.len() > 0 && p[p.len() - 1] != c {
        lemma_last_pos_found(p.drop_last(), c);
        lemma_last_pos_bounds(p.drop_last(), c);
        if last_pos(p, c) >= 0 {
            assert(p[last_pos(p, c)] == p.drop_last()[last_pos(p.drop_last(), c)]);
        }
    }
}

/// `last_pos` is at least the position of any occurrence.
pub proof fn lemma_last_pos_at_least(p: Seq<char>, c: char, k: int)
    requires
        0 <= k < p.len(),
        p[k] == c,
    ensures
        last_pos(p, c) >= k,
    decreases p.len(),
{
    if p[p.len() - 1] != c {
        assert(k < p.len() - 1);
        assert(p.drop_last()[k] == c);
        lemma_last_pos_at_least(p.drop_last(), c, k);
    }
}

/// Appending text that still holds the character shifts `last_pos` past
/// the left part.
pub proof fn lemma_last_pos_concat(a: Seq<char>, b: Seq<char>, c: char)
    requires
        exists|k: int| 0 <= k < b.len() && #[trigger] b[k] == c,
    ensures
        last_pos(a + b, c) == a.len() + last_pos(b, c),
    decreases b.len(),
{
    if b[b.len() - 1] == c {
        assert((a + b)[(a + b).len() - 1] == c);
    } else {
        let k = choose|k: int| 0 <= k < b.len() && #[trigger] b[k] == c;
        assert(k < b.len() - 1);
        assert(b.drop_last()[k] == c);
        assert((a + b).drop_last() =~= a + b.drop_last());
        lemma_last_pos_concat(a, b.drop_last(), c);
    }
}

/// The directory component of a well-shaped entry path is itself a
/// well-shaped directory.
pub proof fn lemma_dir_of_valid(p: Seq<char>)
    requires
        valid_entry_path(p),
    ensures
        is_dir_path(dir_of(p)),
{
    lemma_last_pos_at_least(p, '/', 0);
    lemma_last_pos_bounds(p, '/');
    lemma_last_pos_found(p, '/');
    let j = last_pos(p, '/');
    lemma_last_pos_after(p, '/');
    if j <= 0 {
    } else if j == 1 {
        assert(p.subrange(0, 1) =~= seq!['/']);
    } else {
        let d = p.subrange(0, j);
        assert(d[0] == '/');
        assert(p[j] == '/');
        assert(d[d.len() - 1] == p[j - 1]);
        assert(p[j - 1] != '/');
        assert(valid_entry_path(d));
    }
}

/// Rewriting the prefix of a well-shaped path under a well-shaped
/// destination keeps it well shaped.
pub proof fn lemma_rebase_valid(p: Seq<char>, oldp: Seq<char>, newp: Seq<char>)
    requires
        valid_entry_path(p),
        valid_entry_path(newp),
        p == oldp || descends_from(p, oldp),
    ensures
        valid_entry_path(replace_prefix(p, oldp, newp)),
{
    let r = replace_prefix(p, oldp, newp);
    if p == oldp {
        assert(r =~= newp);
    } else {
        let ol = oldp.len() as int;
        let nl = newp.len() as int;
        assert(r[0] == newp[0]);
        assert(r[r.len() - 1] == p[p.len() - 1]);
        assert forall|k: int| 0 < k < r.len() implies !(#[trigger] r[k - 1] == '/' && r[k] == '/') by {
            if k < nl {
                assert(r[k - 1] == newp[k - 1] && r[k] == newp[k]);
                assert(!(newp[k - 1] == '/' && newp[k] == '/'));
            } else if k == nl {
                assert(r[k - 1] == newp[nl - 1]);
                assert(newp[nl - 1] != '/');
            } else {
                let m = k - nl + ol;
                assert(0 < m < p.len());
                assert(!(p[m - 1] == '/' && p[m] == '/'));
                assert(r[k - 1] == p[m - 1] && r[k] == p[m]);
            }
        }
    }
}

/// Rewriting a strict descendant's path rewrites its directory the same
/// way (and that directory lies in the moved subtree).
pub proof fn lemma_dir_of_rebase(p: Seq<char>, oldp: Seq<char>, newp: Seq<char>)
    requires
        valid_entry_path(p),
        valid_entry_path(oldp),
        valid_entry_path(newp),
        descends_from(p, oldp),
    ensures
        dir_of(p) == oldp || descends_from(dir_of(p), oldp),
        dir_of(replace_prefix(p, oldp, newp)) == replace_prefix(dir_of(p), oldp, newp),
{
    let ol = oldp.len() as int;
    let nl = newp.len() as int;
    let t = p.subrange(ol, p.len() as int);
    assert(p =~= oldp + t);
    assert(t[0] == '/');
    lemma_last_pos_at_least(t, '/', 0);
    crate::paths::lemma_last_pos_bounds(t, '/');
    let jt = last_pos(t, '/');
    lemma_last_pos_concat(oldp, t, '/');
    assert(last_pos(p, '/') == ol + jt);
    let np = replace_prefix(p, oldp, newp);
    assert(np =~= newp + t);
    lemma_last_pos_concat(newp, t, '/');
    assert(last_pos(np, '/') == nl + jt);
    assert(dir_of(p) =~= oldp + t.subrange(0, jt)) by {
        assert(p.subrange(0, ol + jt) =~= oldp + t.subrange(0, jt));
    }
    assert(dir_of(np) =~= newp + t.subrange(0, jt)) by {
        assert(np.subrange(0, nl + jt) =~= newp + t.subrange(0, jt));
    }
    if jt == 0 {
        assert(dir_of(p) =~= oldp);
        assert(replace_prefix(dir_of(p), oldp, newp) =~= newp);
        assert(dir_of(np) =~= newp);
    } else {
        assert(dir_of(p).subrange(0, ol) =~= oldp);
        assert(dir_of(p)[ol] == t[0]);
        assert(replace_prefix(dir_of(p), oldp, newp) =~= newp + t.subrange(0, jt)) by {
            assert(dir_of(p).subrange(ol, dir_of(p).len() as int) =~= t.subrange(0, jt));
        }
    }
}

} // verus!
