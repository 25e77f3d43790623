//! The content store: uploads into the namespace, duplicate detection by
//! content digest, the asynchronous dedup merge, reference release, and
//! deletion with blob-orphan reporting.

use vstd::prelude::*;

use crate::decimal::dec_str;
use crate::decimal::push_dec;
use crate::entry::EntryV;
use crate::entry::count_sharers;
use crate::entry::shares_loc;
use crate::entry::lemma_count_push;
use crate::entry::lemma_count_zero;
use crate::entry::lemma_count_two;
use crate::entry::FileEntry;
use crate::errors::FsError;
use crate::models::FileType;
use crate::models::Permission;
use crate::models::Role;
use crate::paths::canon_dir;
use crate::paths::physical_of;
use crate::paths::canonical_path_of;
use crate::paths::dir_canon;
use crate::paths::has_dotdot_between;
use crate::paths::join_spec;
use crate::paths::join_under;
use crate::paths::last_pos;
use crate::paths::find_last;
use crate::paths::path_rejected;
use crate::paths::sanitize_path;
use crate::paths::valid_name;
use crate::store::path_taken;
use crate::store::storage_taken;
use crate::store::with_counts;
use crate::store::lemma_with_counts_wf;
use crate::store::entry_idx;
use crate::store::lemma_entry_idx;
use crate::store::Store;
use crate::strutil::str_eq;

verus! {

/// Highest disambiguation suffix tried before giving up.
pub const MAX_DUPLICATE_FILES: u64 = 1000;

/// The `k`-th candidate name for a desired file name: the name itself,
/// then ` (k)` spliced in front of the extension.
pub open spec fn cand_name(name: Seq<char>, k: nat) -> Seq<char> {
    if k == 0 {
        name
    } else {
        let j = last_pos(name, '.');
        if j < 0 {
            name + " ("@ + dec_str(k) + ")"@
        } else {
            name.subrange(0, j) + " ("@ + dec_str(k) + ")."@ + name.subrange(
                j + 1,
                name.len() as int,
            )
        }
    }
}

/// Smallest candidate number at or after `k` whose name is free under
/// `parent` for `owner`, or `-1` when every candidate up to the bound is
/// taken.
pub open spec fn first_free_k(
    es: Seq<EntryV>,
    owner: u64,
    parent: Seq<char>,
    name: Seq<char>,
    k: nat,
) -> int
    decreases 1001 - k,
{
    if k > 1000 {
        -1
    } else if !path_taken(es, owner, join_spec(parent, cand_name(name, k))) {
        k as int
    } else {
        first_free_k(es, owner, parent, name, k + 1)
    }
}

/// What `first_free_k` finds: a free candidate none of whose predecessors
/// was free.
pub proof fn lemma_first_free_k(
    es: Seq<EntryV>,
    owner: u64,
    parent: Seq<char>,
    name: Seq<char>,
    k: nat,
)
    ensures
        ({
            let r = first_free_k(es, owner, parent, name, k);
            &&& r == -1 || k <= r <= 1000
            &&& r >= 0 ==> !path_taken(es, owner, join_spec(parent, cand_name(name, r as nat)))
            &&& r == -1 ==> forall|m: nat|
                k <= m <= 1000 ==> path_taken(
                    es,
                    owner,
                    join_spec(parent, #[trigger] cand_name(name, m)),
                )
        }),
    decreases 1001 - k,
{
    if k <= 1000 && path_taken(es, owner, join_spec(parent, cand_name(name, k))) {
        lemma_first_free_k(es, owner, parent, name, k + 1);
    }
}

/// Decimal notation consists of digits alone.
pub proof fn lemma_dec_str_digits(n: nat)
    ensures
        forall|i: int|
            0 <= i < dec_str(n).len() ==> '0' <= #[trigger] dec_str(n)[i] && dec_str(n)[i] <= '9',
        dec_str(n).len() >= 1,
    decreases n,
{
    if n >= 10 {
        lemma_dec_str_digits(n / 10);
    }
}

/// Candidate names stay valid path segments.
pub proof fn lemma_cand_name_valid(name: Seq<char>, k: nat)
    requires
        valid_name(name),
    ensures
        valid_name(cand_name(name, k)),
{
    if k == 0 {
        return ;
    }
    lemma_dec_str_digits(k);
    reveal_strlit(" (");
    reveal_strlit(")");
    reveal_strlit(").");
    let d = dec_str(k);
    let j = last_pos(name, '.');
    crate::paths::lemma_last_pos_bounds(name, '.');
    let c = cand_name(name, k);
    if j < 0 {
        // name ++ " (" ++ digits ++ ")"
        assert forall|t: int| 0 <= t < c.len() implies #[trigger] c[t] != '/' && c[t] != '\\' by {
            let nl = name.len() as int;
            if t < nl {
                assert(c[t] == name[t]);
            } else if t < nl + 2 {
                assert(c[t] == " ("@[t - nl]);
            } else if t < nl + 2 + d.len() {
                assert(c[t] == d[t - nl - 2]);
            } else {
                assert(c[t] == ")"@[t - nl - 2 - d.len()]);
            }
        }
        assert(!has_dotdot_between(c, 0, c.len() as int)) by {
            let nl = name.len() as int;
            assert forall|t: int| 0 <= t && t + 1 < c.len() implies !(#[trigger] c[t] == '.' && c[t
                + 1] == '.') by {
                if t + 1 < nl {
                    assert(c[t] == name[t] && c[t + 1] == name[t + 1]);
                    assert(!has_dotdot_between(name, 0, name.len() as int));
                } else if t + 1 == nl {
                    assert(c[t + 1] == ' ');
                } else if t + 1 == nl + 1 {
                    assert(c[t + 1] == '(');
                } else if t + 1 < nl + 2 + d.len() {
                    assert(c[t + 1] == d[t + 1 - nl - 2] && d[t + 1 - nl - 2] != '.');
                } else {
                    assert(c[t + 1] == ')');
                }
            }
        }
        assert(c.len() >= 4);
        assert(c != seq!['.']);
    } else {
        // stem ++ " (" ++ digits ++ ")." ++ ext
        let stem = name.subrange(0, j);
        let ext = name.subrange(j + 1, name.len() as int);
        crate::paths::lemma_last_pos_after(name, '.');
        assert forall|t: int| 0 <= t < ext.len() implies #[trigger] ext[t] != '.' by {
            assert(ext[t] == name[j + 1 + t]);
        }
        assert forall|t: int| 0 <= t < c.len() implies #[trigger] c[t] != '/' && c[t] != '\\' by {
            let sl = j;
            if t < sl {
                assert(c[t] == name[t]);
            } else if t < sl + 2 {
                assert(c[t] == " ("@[t - sl]);
            } else if t < sl + 2 + d.len() {
                assert(c[t] == d[t - sl - 2]);
            } else if t < sl + 2 + d.len() + 2 {
                assert(c[t] == ")."@[t - sl - 2 - d.len()]);
            } else {
                assert(c[t] == ext[t - sl - 4 - d.len()] && ext[t - sl - 4 - d.len()] == name[t - sl
                    - 4 - d.len() + j + 1]);
            }
        }
        assert(!has_dotdot_between(c, 0, c.len() as int)) by {
            let sl = j;
            let dl = d.len() as int;
            assert forall|t: int| 0 <= t && t + 1 < c.len() implies !(#[trigger] c[t] == '.' && c[t
                + 1] == '.') by {
                if t + 1 < sl {
                    assert(c[t] == name[t] && c[t + 1] == name[t + 1]);
                    assert(!has_dotdot_between(name, 0, name.len() as int));
                } else if t + 1 == sl {
                    assert(c[t + 1] == ' ');
                } else if t + 1 == sl + 1 {
                    assert(c[t + 1] == '(');
                } else if t + 1 < sl + 2 + dl {
                    assert(c[t + 1] == d[t + 1 - sl - 2] && d[t + 1 - sl - 2] != '.');
                } else if t + 1 == sl + 2 + dl {
                    assert(c[t + 1] == ')');
                } else if t + 1 == sl + 2 + dl + 1 {
                    // the dot before the extension; its left neighbour is `)`
                    assert(c[t] == ')');
                } else {
                    assert(c[t + 1] == ext[t + 1 - sl - 4 - dl] && ext[t + 1 - sl - 4 - dl] != '.');
                }
            }
        }
        assert(c.len() >= 4);
        assert(c != seq!['.']);
    }
}

/// Builds the `k`-th candidate name.
fn build_candidate(name: &str, k: u64) -> (r: String)
    ensures
        r@ == cand_name(name@, k as nat),
{
    if k == 0 {
        return name.to_owned();
    }
    let n = name.unicode_len();
    match find_last(name, '.') {
        None => {
            let mut out: String = name.to_owned();
            out.append(" (");
            push_dec(&mut out, k);
            out.append(")");
            proof {
                assert(out@ =~= name@ + " ("@ + dec_str(k as nat) + ")"@);
            }
            out
        },
        Some(j) => {
            let mut out: String = name.substring_char(0, j).to_owned();
            out.append(" (");
            push_dec(&mut out, k);
            out.append(").");
            out.append(name.substring_char(j + 1, n));
            proof {
                assert(out@ =~= name@.subrange(0, j as int) + " ("@ + dec_str(k as nat) + ")."@
                    + name@.subrange(j as int + 1, name@.len() as int));
            }
            out
        },
    }
}

/// Is `n` usable as one path segment?
pub fn check_name(n: &str) -> (r: bool)
    ensures
        r == valid_name(n@),
{
    let len = n.unicode_len();
    if len == 0 {
        return false;
    }
    if len == 1 && n.get_char(0) == '.' {
        proof {
            assert(n@ =~= seq!['.']);
        }
        return false;
    }
    let mut i: usize = 0;
    while i < len
        invariant
            i <= len,
            len == n@.len(),
            forall|k: int| 0 <= k < i ==> #[trigger] n@[k] != '/' && n@[k] != '\\',
            forall|k: int|
                0 <= k < i && k + 1 < len ==> !(#[trigger] n@[k] == '.' && n@[k + 1] == '.'),
        decreases len - i,
    {
        let c = n.get_char(i);
        if c == '/' || c == '\\' {
            return false;
        }
        if c == '.' && i + 1 < len && n.get_char(i + 1) == '.' {
            proof {
                assert(has_dotdot_between(n@, 0, n@.len() as int));
            }
            return false;
        }
        i = i + 1;
    }
    proof {
        if n@ == seq!['.'] {
            assert(n@.len() == 1);
            assert(false);
        }
        assert(!has_dotdot_between(n@, 0, n@.len() as int));
    }
    true
}

impl Store {
    /// Picks a free name for `original_filename` under `parent_path` for
    /// `user_id`, appending ` (1)`, ` (2)`, ... before the extension
    /// until a free logical path is found; gives up with `AlreadyExists`
    /// after the bounded number of tries.
    pub fn generate_unique_filename(
        &self,
        original_filename: &str,
        user_id: u64,
        parent_path: &str,
    ) -> (r: Result<String, FsError>)
        ensures
            ({
                let ok_input = valid_name(original_filename@) && !path_rejected(parent_path@);
                let parent = dir_canon(canonical_path_of(parent_path@));
                let ff = first_free_k(self.entries(), user_id, parent, original_filename@, 0);
                &&& ((r is Err && r->Err_0 == FsError::PathTraversal) <==> !ok_input)
                &&& ((r is Err && r->Err_0 == FsError::AlreadyExists) <==> (ok_input && ff < 0))
                &&& ((r is Ok) <==> (ok_input && ff >= 0))
                &&& (r is Ok ==> r->Ok_0@ == cand_name(original_filename@, ff as nat))
            }),
    {
        if !check_name(original_filename) {
            return Err(FsError::PathTraversal);
        }
        let parent_norm = match sanitize_path(parent_path) {
            Ok(p) => p,
            Err(e) => {
                return Err(e);
            },
        };
        let parent = canon_dir(parent_norm.as_str());
        let ghost es = self.entries();
        let ghost pv = parent@;
        let mut k: u64 = 0;
        loop
            invariant
                es == self.entries(),
                pv == parent@,
                valid_name(original_filename@),
                !path_rejected(parent_path@),
                pv == dir_canon(canonical_path_of(parent_path@)),
                crate::paths::is_dir_path(pv),
                k <= 1001,
                first_free_k(es, user_id, pv, original_filename@, 0) == first_free_k(
                    es,
                    user_id,
                    pv,
                    original_filename@,
                    k as nat,
                ),
            decreases 1001 - k,
        {
            if k > MAX_DUPLICATE_FILES {
                return Err(FsError::AlreadyExists);
            }
            let cand = build_candidate(original_filename, k);
            let p = join_under(parent.as_str(), cand.as_str());
            if !self.path_taken_exec(user_id, p.as_str()) {
                return Ok(cand);
            }
            k = k + 1;
        }
    }
}


/// The row an upload inserts: a file with no digest yet and one
/// reference to its candidate blob.
pub open spec fn new_file_entry_v(
    id: u64,
    owner: u64,
    nm: Seq<char>,
    p: Seq<char>,
    parent: Seq<char>,
    mime: Option<Seq<char>>,
    size: u64,
    loc: Seq<char>,
    now: i64,
) -> EntryV {
    EntryV {
        id,
        owner_id: owner,
        name: nm,
        path: p,
        parent_path: parent,
        kind: FileType::File,
        mime_type: mime,
        size_bytes: Some(size),
        storage_path: loc,
        content_hash: None,
        ref_count: 1,
        created_at: now,
        updated_at: now,
    }
}

/// What an upload resolves to before it mutates anything: the chosen
/// name, logical path and physical location, or the error that stops it.
pub open spec fn upload_plan(
    es: Seq<EntryV>,
    owner: u64,
    name: Seq<char>,
    parent_raw: Seq<char>,
    root: Seq<char>,
) -> Result<(Seq<char>, Seq<char>, Seq<char>), FsError> {
    if !valid_name(name) || path_rejected(parent_raw) {
        Err(FsError::PathTraversal)
    } else {
        let parent = dir_canon(canonical_path_of(parent_raw));
        let k = first_free_k(es, owner, parent, name, 0);
        if k < 0 {
            Err(FsError::AlreadyExists)
        } else {
            let nm = cand_name(name, k as nat);
            let p = join_spec(parent, nm);
            let loc = physical_of(root, owner, p);
            if storage_taken(es, loc) {
                Err(FsError::Inconsistent)
            } else {
                Ok((nm, p, loc))
            }
        }
    }
}

impl Store {
    /// Records an upload whose bytes were just written to the derived
    /// candidate location: picks a free name under the requested
    /// directory, inserts the file row with no digest and one reference,
    /// and returns its id. Refuses to adopt a candidate location some
    /// other row already references.
    pub fn upload_file(
        &mut self,
        user_id: u64,
        file_name: &str,
        upload_path: &str,
        mime_type: Option<String>,
        size_bytes: u64,
        storage_root: &str,
        now: i64,
    ) -> (r: Result<u64, FsError>)
        requires
            old(self).wf(),
            old(self).next_id < u64::MAX,
        ensures
            final(self).wf(),
            final(self).grant_views() == old(self).grant_views(),
            ({
                let plan = upload_plan(
                    old(self).entries(),
                    user_id,
                    file_name@,
                    upload_path@,
                    storage_root@,
                );
                &&& (r is Err <==> plan is Err)
                &&& (r is Err ==> r->Err_0 == plan->Err_0 && *final(self) == *old(self))
                &&& (r is Ok ==> r->Ok_0 == old(self).next_id && final(self).next_id == old(
                    self,
                ).next_id + 1 && final(self).entries() =~= old(self).entries().push(
                    new_file_entry_v(
                        old(self).next_id,
                        user_id,
                        plan->Ok_0.0,
                        plan->Ok_0.1,
                        dir_canon(canonical_path_of(upload_path@)),
                        match mime_type {
                            Some(m) => Some(m@),
                            None => None,
                        },
                        size_bytes,
                        plan->Ok_0.2,
                        now,
                    ),
                ))
            }),
    {
        let ghost es = old(self).entries();
        let nm = match self.generate_unique_filename(file_name, user_id, upload_path) {
            Ok(n) => n,
            Err(e) => {
                return Err(e);
            },
        };
        let parent_norm = match sanitize_path(upload_path) {
            Ok(p) => p,
            Err(_) => {
                proof {
                    assert(false);
                }
                return Err(FsError::PathTraversal);
            },
        };
        let parent = canon_dir(parent_norm.as_str());
        let p = join_under(parent.as_str(), nm.as_str());
        let loc = crate::paths::physical_location(storage_root, user_id, p.as_str());
        if self.storage_taken_exec(loc.as_str()) {
            return Err(FsError::Inconsistent);
        }
        let ghost ff = first_free_k(es, user_id, parent@, file_name@, 0);
        proof {
            lemma_first_free_k(es, user_id, parent@, file_name@, 0);
            lemma_cand_name_valid(file_name@, ff as nat);
            crate::paths::lemma_join_valid(parent@, nm@);
            crate::paths::lemma_dir_of_join(parent@, nm@);
        }
        let id = self.next_id;
        let e = FileEntry {
            id,
            owner_id: user_id,
            name: nm,
            path: p,
            parent_path: parent,
            kind: FileType::File,
            mime_type,
            size_bytes: Some(size_bytes),
            storage_path: loc,
            content_hash: None,
            ref_count: 1,
            created_at: now,
            updated_at: now,
        };
        let ghost ev = e@;
        self.files.push(e);
        self.next_id = self.next_id + 1;
        proof {
            let esn = self.entries();
            assert(esn =~= es.push(ev));
            assert forall|t: int| 0 <= t < es.len() implies #[trigger] esn[t] == es[t] by {}
            assert(esn[es.len() as int] == ev);
            // the chosen path is free, so per-owner uniqueness extends
            assert forall|a: int, b: int| 0 <= a < b < esn.len() implies !((#[trigger] esn[a]).owner_id
                == (#[trigger] esn[b]).owner_id && esn[a].path == esn[b].path) by {
                if b == es.len() as int {
                    if esn[a].owner_id == user_id && esn[a].path == ev.path {
                        assert(path_taken(es, user_id, ev.path));
                    }
                }
            }
            // nobody shared the fresh location, so counts carry over
            assert forall|t: int|
                0 <= t < esn.len() && (#[trigger] esn[t]).kind == FileType::File implies esn[t].ref_count
                == count_sharers(esn, esn[t].storage_path) by {
                lemma_count_push(es, ev, esn[t].storage_path);
                if t < es.len() {
                    if shares_loc(ev, es[t].storage_path) {
                        assert(storage_taken(es, ev.storage_path));
                    }
                } else {
                    lemma_count_zero(es, ev.storage_path);
                }
            }
            // a fresh location cannot conflict on digests
            assert forall|a: int, b: int|
                0 <= a < esn.len() && 0 <= b < esn.len() && (#[trigger] esn[a]).kind == FileType::File
                    && (#[trigger] esn[b]).kind == FileType::File && esn[a].storage_path
                    == esn[b].storage_path implies esn[a].content_hash == esn[b].content_hash by {
                if a == es.len() && b < es.len() {
                    assert(storage_taken(es, ev.storage_path));
                } else if b == es.len() && a < es.len() {
                    assert(storage_taken(es, ev.storage_path));
                }
            }
        }
        Ok(id)
    }
}



/// Index of the first file row of `owner` carrying digest `digest`, or `-1`.
pub open spec fn dup_idx(es: Seq<EntryV>, owner: u64, digest: Seq<char>) -> int
    decreases es.len(),
{
    if es.len() == 0 {
        -1
    } else if es[0].kind == FileType::File && es[0].owner_id == owner && es[0].content_hash
        == Some(digest) {
        0
    } else {
        let r = dup_idx(es.drop_first(), owner, digest);
        if r < 0 {
            -1
        } else {
            r + 1
        }
    }
}

/// What `dup_idx` finds.
pub proof fn lemma_dup_idx(es: Seq<EntryV>, owner: u64, digest: Seq<char>)
    ensures
        -1 <= dup_idx(es, owner, digest) < es.len(),
        dup_idx(es, owner, digest) >= 0 ==> {
            let e = es[dup_idx(es, owner, digest)];
            e.kind == FileType::File && e.owner_id == owner && e.content_hash == Some(digest)
        },
        forall|k: int|
            0 <= k < es.len() && k < dup_idx(es, owner, digest) ==> !((#[trigger] es[k]).kind
                == FileType::File && es[k].owner_id == owner && es[k].content_hash == Some(digest)),
        dup_idx(es, owner, digest) == -1 ==> forall|k: int|
            0 <= k < es.len() ==> !((#[trigger] es[k]).kind == FileType::File && es[k].owner_id
                == owner && es[k].content_hash == Some(digest)),
    decreases es.len(),
{
    if es.len() > 0 && !(es[0].kind == FileType::File && es[0].owner_id == owner
        && es[0].content_hash == Some(digest)) {
        lemma_dup_idx(es.drop_first(), owner, digest);
        assert forall|k: int| 1 <= k < es.len() implies #[trigger] es[k]
            == es.drop_first()[k - 1] by {}
    }
}

/// The row an instant upload inserts: a file sharing the canonical
/// row's blob, digest, type and size.
pub open spec fn shared_file_entry_v(
    id: u64,
    owner: u64,
    nm: Seq<char>,
    p: Seq<char>,
    parent: Seq<char>,
    src: EntryV,
    now: i64,
) -> EntryV {
    EntryV {
        id,
        owner_id: owner,
        name: nm,
        path: p,
        parent_path: parent,
        kind: FileType::File,
        mime_type: src.mime_type,
        size_bytes: src.size_bytes,
        storage_path: src.storage_path,
        content_hash: src.content_hash,
        ref_count: 1,
        created_at: now,
        updated_at: now,
    }
}

/// What an instant upload resolves to: the chosen name and path, or the
/// error that stops it.
pub open spec fn instant_plan(
    es: Seq<EntryV>,
    existing_id: u64,
    owner: u64,
    name: Seq<char>,
    parent_raw: Seq<char>,
) -> Result<(Seq<char>, Seq<char>), FsError> {
    let ei = entry_idx(es, existing_id);
    if ei < 0 {
        Err(FsError::NotFound)
    } else if es[ei].kind != FileType::File {
        Err(FsError::Inconsistent)
    } else if !valid_name(name) || path_rejected(parent_raw) {
        Err(FsError::PathTraversal)
    } else {
        let parent = dir_canon(canonical_path_of(parent_raw));
        let k = first_free_k(es, owner, parent, name, 0);
        if k < 0 {
            Err(FsError::AlreadyExists)
        } else {
            Ok((cand_name(name, k as nat), join_spec(parent, cand_name(name, k as nat))))
        }
    }
}

impl Store {
    /// Id of the first file row of `user_id` whose digest equals
    /// `file_hash`, if any: the canonical blob a new identical upload
    /// can reuse.
    pub fn find_duplicate_file(&self, file_hash: &str, user_id: u64) -> (r: Option<u64>)
        ensures
            ({
                let d = dup_idx(self.entries(), user_id, file_hash@);
                &&& (r is Some <==> d >= 0)
                &&& (r is Some ==> r->Some_0 == self.entries()[d].id)
            }),
    {
        proof {
            lemma_dup_idx(self.entries(), user_id, file_hash@);
        }
        let n = self.files.len();
        let mut i: usize = 0;
        while i < n
            invariant
                i <= n,
                n == self.files@.len(),
                forall|k: int|
                    0 <= k < i ==> !((#[trigger] self.entries()[k]).kind == FileType::File
                        && self.entries()[k].owner_id == user_id && self.entries()[k].content_hash
                        == Some(file_hash@)),
            decreases n - i,
        {
            proof {
                assert(self.entries()[i as int] == self.files@[i as int]@);
            }
            let e = &self.files[i];
            let hash_matches: bool = match &e.content_hash {
                Some(h) => str_eq(h.as_str(), file_hash),
                None => false,
            };
            if matches!(e.kind, FileType::File) && e.owner_id == user_id && hash_matches {
                proof {
                    lemma_dup_idx(self.entries(), user_id, file_hash@);
                }
                return Some(e.id);
            }
            i = i + 1;
        }
        None
    }

    /// Reports whether the row with id `file_id` is its blob's last
    /// reference: exactly then may the caller delete the physical bytes
    /// once the row itself is removed. The count itself moves only when
    /// rows are added or removed (see `delete_file`), so every row's
    /// count always equals the number of rows referencing its blob.
    pub fn decrease_ref_count(&self, file_id: u64) -> (r: Result<bool, FsError>)
        ensures
            ({
                let i = entry_idx(self.entries(), file_id);
                &&& (r is Err <==> i < 0)
                &&& (r is Err ==> r->Err_0 == FsError::NotFound)
                &&& (r is Ok ==> r->Ok_0 == (self.entries()[i].ref_count <= 1))
            }),
    {
        match self.get_entry(file_id) {
            None => Err(FsError::NotFound),
            Some(e) => Ok(e.ref_count <= 1),
        }
    }

    /// Inserts a new row for `user_id` that reuses the blob of the row
    /// with id `existing_id` (byte-identical content): same location,
    /// digest, type and size, under a freshly disambiguated name; every
    /// sharer's reference count then reflects the enlarged sharing.
    pub fn instant_upload(
        &mut self,
        existing_id: u64,
        file_name: &str,
        upload_path: &str,
        user_id: u64,
        now: i64,
    ) -> (r: Result<u64, FsError>)
        requires
            old(self).wf(),
            old(self).next_id < u64::MAX,
        ensures
            final(self).wf(),
            final(self).grant_views() == old(self).grant_views(),
            ({
                let es = old(self).entries();
                let plan = instant_plan(es, existing_id, user_id, file_name@, upload_path@);
                &&& (r is Err <==> plan is Err)
                &&& (r is Err ==> r->Err_0 == plan->Err_0 && *final(self) == *old(self))
                &&& (r is Ok ==> r->Ok_0 == old(self).next_id && final(self).next_id == old(
                    self,
                ).next_id + 1 && final(self).entries() =~= with_counts(
                    es.push(
                        shared_file_entry_v(
                            old(self).next_id,
                            user_id,
                            plan->Ok_0.0,
                            plan->Ok_0.1,
                            dir_canon(canonical_path_of(upload_path@)),
                            es[entry_idx(es, existing_id)],
                            now,
                        ),
                    ),
                ))
            }),
    {
        let ghost es = old(self).entries();
        proof {
            lemma_entry_idx(es, existing_id);
        }
        let ei = match self.find_index(existing_id) {
            Some(i) => i,
            None => {
                return Err(FsError::NotFound);
            },
        };
        if !matches!(self.files[ei].kind, FileType::File) {
            proof {
                assert(self.entries()[ei as int] == self.files@[ei as int]@);
            }
            return Err(FsError::Inconsistent);
        }
        proof {
            assert(self.entries()[ei as int] == self.files@[ei as int]@);
        }
        let nm = match self.generate_unique_filename(file_name, user_id, upload_path) {
            Ok(n) => n,
            Err(e) => {
                return Err(e);
            },
        };
        let parent_norm = match sanitize_path(upload_path) {
            Ok(p) => p,
            Err(_) => {
                proof {
                    assert(false);
                }
                return Err(FsError::PathTraversal);
            },
        };
        let parent = canon_dir(parent_norm.as_str());
        let p = join_under(parent.as_str(), nm.as_str());
        let ghost ff = first_free_k(es, user_id, parent@, file_name@, 0);
        proof {
            lemma_first_free_k(es, user_id, parent@, file_name@, 0);
            lemma_cand_name_valid(file_name@, ff as nat);
            crate::paths::lemma_join_valid(parent@, nm@);
            crate::paths::lemma_dir_of_join(parent@, nm@);
        }
        let src = &self.files[ei];
        let id = self.next_id;
        let e = FileEntry {
            id,
            owner_id: user_id,
            name: nm,
            path: p,
            parent_path: parent,
            kind: FileType::File,
            mime_type: match &src.mime_type {
                Some(m) => Some(m.clone()),
                None => None,
            },
            size_bytes: src.size_bytes,
            storage_path: src.storage_path.clone(),
            content_hash: match &src.content_hash {
                Some(h) => Some(h.clone()),
                None => None,
            },
            ref_count: 1,
            created_at: now,
            updated_at: now,
        };
        let ghost ev = e@;
        self.files.push(e);
        self.next_id = self.next_id + 1;
        let nlen = self.files.len();
        proof {
            let mid = self.entries();
            assert(mid.len() == nlen as int);
            assert(mid =~= es.push(ev));
            assert(ev == shared_file_entry_v(
                old(self).next_id,
                user_id,
                nm@,
                p@,
                parent@,
                es[ei as int],
                now,
            ));
            assert forall|a: int, b: int| 0 <= a < b < mid.len() implies !((#[trigger] mid[a]).owner_id
                == (#[trigger] mid[b]).owner_id && mid[a].path == mid[b].path) by {
                if b == es.len() as int {
                    if mid[a].owner_id == user_id && mid[a].path == ev.path {
                        assert(path_taken(es, user_id, ev.path));
                    }
                }
            }
            // the new row copies the digest of the rows it joins
            assert forall|a: int, b: int|
                0 <= a < mid.len() && 0 <= b < mid.len() && (#[trigger] mid[a]).kind == FileType::File
                    && (#[trigger] mid[b]).kind == FileType::File && mid[a].storage_path
                    == mid[b].storage_path implies mid[a].content_hash == mid[b].content_hash by {
                if a == es.len() && b < es.len() {
                    assert(es[b].content_hash == es[ei as int].content_hash);
                } else if b == es.len() && a < es.len() {
                    assert(es[a].content_hash == es[ei as int].content_hash);
                }
            }
            assert(mid.len() < 0x10000000000000000);
            lemma_with_counts_wf(mid);
        }
        self.refresh_ref_counts();
        Ok(id)
    }
}



/// Index of the first file row of `owner` carrying `digest` other than
/// the row `excl` itself, or `-1`.
pub open spec fn dup_idx_excl(es: Seq<EntryV>, owner: u64, digest: Seq<char>, excl: u64) -> int
    decreases es.len(),
{
    if es.len() == 0 {
        -1
    } else if es[0].kind == FileType::File && es[0].owner_id == owner && es[0].content_hash
        == Some(digest) && es[0].id != excl {
        0
    } else {
        let r = dup_idx_excl(es.drop_first(), owner, digest, excl);
        if r < 0 {
            -1
        } else {
            r + 1
        }
    }
}

/// What `dup_idx_excl` finds.
pub proof fn lemma_dup_idx_excl(es: Seq<EntryV>, owner: u64, digest: Seq<char>, excl: u64)
    ensures
        -1 <= dup_idx_excl(es, owner, digest, excl) < es.len(),
        dup_idx_excl(es, owner, digest, excl) >= 0 ==> {
            let e = es[dup_idx_excl(es, owner, digest, excl)];
            e.kind == FileType::File && e.owner_id == owner && e.content_hash == Some(digest)
                && e.id != excl
        },
        forall|k: int|
            0 <= k < es.len() && k < dup_idx_excl(es, owner, digest, excl) ==> !((
            #[trigger] es[k]).kind == FileType::File && es[k].owner_id == owner
                && es[k].content_hash == Some(digest) && es[k].id != excl),
        dup_idx_excl(es, owner, digest, excl) == -1 ==> forall|k: int|
            0 <= k < es.len() ==> !((#[trigger] es[k]).kind == FileType::File && es[k].owner_id
                == owner && es[k].content_hash == Some(digest) && es[k].id != excl),
    decreases es.len(),
{
    if es.len() > 0 && !(es[0].kind == FileType::File && es[0].owner_id == owner
        && es[0].content_hash == Some(digest) && es[0].id != excl) {
        lemma_dup_idx_excl(es.drop_first(), owner, digest, excl);
        assert forall|k: int| 1 <= k < es.len() implies #[trigger] es[k]
            == es.drop_first()[k - 1] by {}
    }
}

/// The outcome of one run of the asynchronous hash-and-dedup pass.
#[derive(Debug, PartialEq)]
pub enum DedupOutcome {
    /// The row vanished before the pass ran; nothing was done.
    Gone,
    /// The store could not absorb the digest safely; nothing was done.
    Skipped,
    /// No identical content existed; the digest was recorded.
    HashRecorded,
    /// The row was repointed at an existing identical blob. When the
    /// candidate location lost its last reference, it is returned so the
    /// caller can delete the duplicate bytes.
    Merged { delete_candidate: Option<String> },
}

/// A row repointed at the canonical blob of its digest.
pub open spec fn merged_row(e: EntryV, canon: EntryV, digest: Seq<char>, now: i64) -> EntryV {
    EntryV { storage_path: canon.storage_path, content_hash: Some(digest), updated_at: now, ..e }
}

/// A row with its freshly computed digest recorded.
pub open spec fn hashed_row(e: EntryV, digest: Seq<char>, now: i64) -> EntryV {
    EntryV { content_hash: Some(digest), updated_at: now, ..e }
}

/// The full state transition of one dedup pass, as a function of the
/// prior rows: what `deduplicate` leaves behind in every case.
pub open spec fn dedup_transition(es: Seq<EntryV>, file_id: u64, d: Seq<char>, now: i64) -> Seq<
    EntryV,
> {
    let i = entry_idx(es, file_id);
    if i < 0 || es[i].kind != FileType::File {
        es
    } else {
        let c = dup_idx_excl(es, es[i].owner_id, d, file_id);
        if c >= 0 {
            with_counts(es.update(i, merged_row(es[i], es[c], d, now)))
        } else if es[i].content_hash == Some(d) || count_sharers(es, es[i].storage_path) <= 1 {
            with_counts(es.update(i, hashed_row(es[i], d, now)))
        } else {
            es
        }
    }
}

impl Store {
    /// Index of another row of `owner` carrying `digest`, if any.
    fn find_dup_excl(&self, owner: u64, digest: &str, excl: u64) -> (r: Option<usize>)
        ensures
            r is Some ==> dup_idx_excl(self.entries(), owner, digest@, excl) == r->Some_0 as int
                && r->Some_0 < self.files@.len(),
            r is None ==> dup_idx_excl(self.entries(), owner, digest@, excl) == -1,
    {
        proof {
            lemma_dup_idx_excl(self.entries(), owner, digest@, excl);
        }
        let n = self.files.len();
        let mut j: usize = 0;
        while j < n
            invariant
                j <= n,
                n == self.files@.len(),
                forall|k: int|
                    0 <= k < j ==> !((#[trigger] self.entries()[k]).kind == FileType::File
                        && self.entries()[k].owner_id == owner && self.entries()[k].content_hash
                        == Some(digest@) && self.entries()[k].id != excl),
            decreases n - j,
        {
            proof {
                assert(self.entries()[j as int] == self.files@[j as int]@);
            }
            let e = &self.files[j];
            let hash_matches: bool = match &e.content_hash {
                Some(h) => str_eq(h.as_str(), digest),
                None => false,
            };
            if matches!(e.kind, FileType::File) && e.owner_id == owner && hash_matches && e.id
                != excl {
                proof {
                    lemma_dup_idx_excl(self.entries(), owner, digest@, excl);
                }
                return Some(j);
            }
            j = j + 1;
        }
        None
    }

    /// The asynchronous pass over one uploaded row: records the digest of
    /// its bytes and, when another row of the same owner already carries
    /// identical content, repoints the row at that canonical blob. The
    /// pass never fails the caller: a vanished or unusable row is
    /// reported and nothing is changed.
    pub fn deduplicate(&mut self, file_id: u64, digest: &str, now: i64) -> (r: DedupOutcome)
        requires
            old(self).wf(),
        ensures
            final(self).wf(),
            final(self).next_id == old(self).next_id,
            final(self).grant_views() == old(self).grant_views(),
            final(self).entries() =~= dedup_transition(old(self).entries(), file_id, digest@, now),
            ({
                let es = old(self).entries();
                let i = entry_idx(es, file_id);
                if i < 0 {
                    r == DedupOutcome::Gone && *final(self) == *old(self)
                } else if es[i].kind != FileType::File {
                    r == DedupOutcome::Skipped && *final(self) == *old(self)
                } else {
                    let c = dup_idx_excl(es, es[i].owner_id, digest@, file_id);
                    if c >= 0 {
                        &&& final(self).entries() =~= with_counts(
                            es.update(i, merged_row(es[i], es[c], digest@, now)),
                        )
                        &&& r matches DedupOutcome::Merged { delete_candidate }
                        &&& (r matches DedupOutcome::Merged { delete_candidate } ==> {
                            &&& (delete_candidate is Some <==> !storage_taken(
                                final(self).entries(),
                                es[i].storage_path,
                            ))
                            &&& (delete_candidate is Some ==> delete_candidate->0@
                                == es[i].storage_path)
                        })
                    } else if es[i].content_hash == Some(digest@) || count_sharers(
                        es,
                        es[i].storage_path,
                    ) <= 1 {
                        &&& final(self).entries() =~= with_counts(
                            es.update(i, hashed_row(es[i], digest@, now)),
                        )
                        &&& r == DedupOutcome::HashRecorded
                    } else {
                        r == DedupOutcome::Skipped && *final(self) == *old(self)
                    }
                }
            }),
    {
        let ghost es = old(self).entries();
        proof {
            lemma_entry_idx(es, file_id);
        }
        let i = match self.find_index(file_id) {
            Some(i) => i,
            None => {
                return DedupOutcome::Gone;
            },
        };
        proof {
            assert(self.entries()[i as int] == self.files@[i as int]@);
        }
        if !matches!(self.files[i].kind, FileType::File) {
            return DedupOutcome::Skipped;
        }
        let owner = self.files[i].owner_id;

        let canon = self.find_dup_excl(owner, digest, file_id);
        proof {
            lemma_dup_idx_excl(es, owner, digest@, file_id);
        }

        let nlen = self.files.len();
        match canon {
            Some(c) => {
                proof {
                    assert(self.entries()[c as int] == self.files@[c as int]@);
                }
                let old_loc = self.files[i].storage_path.clone();
                let mut e = self.files[i].clone();
                e.storage_path = self.files[c].storage_path.clone();
                e.content_hash = Some(digest.to_owned());
                e.updated_at = now;
                let ghost ev = e@;
                self.files[i] = e;
                proof {
                    let mid = self.entries();
                    assert(mid.len() == nlen as int);
                    assert(mid =~= es.update(i as int, ev));
                    assert(ev == merged_row(es[i as int], es[c as int], digest@, now));
                    assert forall|a: int, b: int|
                        0 <= a < mid.len() && 0 <= b < mid.len() && (#[trigger] mid[a]).kind
                            == FileType::File && (#[trigger] mid[b]).kind == FileType::File
                            && mid[a].storage_path == mid[b].storage_path implies mid[
                    a].content_hash == mid[b].content_hash by {
                        if a == i as int && b != i as int {
                            assert(es[b].content_hash == es[c as int].content_hash);
                        } else if b == i as int && a != i as int {
                            assert(es[a].content_hash == es[c as int].content_hash);
                        }
                    }
                    lemma_with_counts_wf(mid);
                }
                self.refresh_ref_counts();
                let delete_candidate: Option<String> = if !self.storage_taken_exec(
                    old_loc.as_str(),
                ) {
                    Some(old_loc)
                } else {
                    None
                };
                DedupOutcome::Merged { delete_candidate }
            },
            None => {
                let cnt = self.count_sharers_exec(self.files[i].storage_path.as_str());
                let already: bool = match &self.files[i].content_hash {
                    Some(h) => str_eq(h.as_str(), digest),
                    None => false,
                };
                if already || cnt <= 1 {
                    let mut e = self.files[i].clone();
                    e.content_hash = Some(digest.to_owned());
                    e.updated_at = now;
                    let ghost ev = e@;
                    self.files[i] = e;
                    proof {
                        let mid = self.entries();
                        assert(mid.len() == nlen as int);
                        assert(mid =~= es.update(i as int, ev));
                        assert(ev == hashed_row(es[i as int], digest@, now));
                        assert forall|a: int, b: int|
                            0 <= a < mid.len() && 0 <= b < mid.len() && (#[trigger] mid[a]).kind
                                == FileType::File && (#[trigger] mid[b]).kind == FileType::File
                                && mid[a].storage_path == mid[b].storage_path implies mid[
                        a].content_hash == mid[b].content_hash by {
                            if already {
                                assert(Some(digest@) == es[i as int].content_hash);
                            } else {
                                if a == i as int && b != i as int && mid[a].storage_path
                                    == mid[b].storage_path {
                                    lemma_count_two(es, es[i as int].storage_path, i as int, b);
                                } else if b == i as int && a != i as int && mid[a].storage_path
                                    == mid[b].storage_path {
                                    lemma_count_two(es, es[i as int].storage_path, i as int, a);
                                }
                            }
                        }
                        lemma_with_counts_wf(mid);
                    }
                    self.refresh_ref_counts();
                    DedupOutcome::HashRecorded
                } else {
                    DedupOutcome::Skipped
                }
            },
        }
    }
}


/// Does row `e` lie in the subtree of `owner` rooted at path `p`?
pub open spec fn in_region(e: EntryV, owner: u64, p: Seq<char>) -> bool {
    e.owner_id == owner && (e.path == p || crate::paths::descends_from(e.path, p))
}

/// The rows outside the subtree: what a cascade delete keeps.
pub open spec fn remove_region(es: Seq<EntryV>, owner: u64, p: Seq<char>) -> Seq<EntryV>
    decreases es.len(),
{
    if es.len() == 0 {
        Seq::empty()
    } else {
        let rest = remove_region(es.drop_last(), owner, p);
        if in_region(es.last(), owner, p) {
            rest
        } else {
            rest.push(es.last())
        }
    }
}

/// The rows inside the subtree: what a cascade delete removes.
pub open spec fn region_rows(es: Seq<EntryV>, owner: u64, p: Seq<char>) -> Seq<EntryV>
    decreases es.len(),
{
    if es.len() == 0 {
        Seq::empty()
    } else {
        let rest = region_rows(es.drop_last(), owner, p);
        if in_region(es.last(), owner, p) {
            rest.push(es.last())
        } else {
            rest
        }
    }
}

/// Splitting off a subtree keeps row-level invariants on the kept rows,
/// and every kept row is one of the original rows, outside the subtree.
pub proof fn lemma_remove_region_wf(es: Seq<EntryV>, owner: u64, p: Seq<char>)
    requires
        crate::entry::ids_unique(es),
        crate::entry::paths_unique(es),
        crate::entry::shapes_ok(es),
        crate::entry::hashes_consistent(es),
    ensures
        ({
            let rr = remove_region(es, owner, p);
            &&& rr.len() <= es.len()
            &&& crate::entry::ids_unique(rr)
            &&& crate::entry::paths_unique(rr)
            &&& crate::entry::shapes_ok(rr)
            &&& crate::entry::hashes_consistent(rr)
            &&& forall|a: int|
                0 <= a < rr.len() ==> !in_region(#[trigger] rr[a], owner, p) && exists|j: int|
                    0 <= j < es.len() && rr[a] == #[trigger] es[j]
        }),
    decreases es.len(),
{
    if es.len() > 0 {
        let d = es.drop_last();
        let l = es.last();
        lemma_remove_region_wf(d, owner, p);
        let rd = remove_region(d, owner, p);
        assert forall|a: int| 0 <= a < rd.len() implies exists|j: int|
            0 <= j < es.len() && #[trigger] rd[a] == es[j] by {
            let j = choose|j: int| 0 <= j < d.len() && rd[a] == #[trigger] d[j];
            assert(rd[a] == es[j]);
        }
        if !in_region(l, owner, p) {
            let rr = remove_region(es, owner, p);
            assert(rr =~= rd.push(l));
            assert forall|a: int, b: int| 0 <= a < b < rr.len() implies #[trigger] rr[a].id
                != #[trigger] rr[b].id by {
                if b == rr.len() - 1 {
                    let j = choose|j: int| 0 <= j < d.len() && rr[a] == #[trigger] d[j];
                    assert(es[j].id != es[es.len() - 1].id);
                }
            }
            assert forall|a: int, b: int| 0 <= a < b < rr.len() implies !((#[trigger] rr[a]).owner_id
                == (#[trigger] rr[b]).owner_id && rr[a].path == rr[b].path) by {
                if b == rr.len() - 1 {
                    let j = choose|j: int| 0 <= j < d.len() && rr[a] == #[trigger] d[j];
                    assert(!(es[j].owner_id == es[es.len() - 1].owner_id && es[j].path
                        == es[es.len() - 1].path));
                }
            }
            assert forall|a: int, b: int|
                0 <= a < rr.len() && 0 <= b < rr.len() && (#[trigger] rr[a]).kind == FileType::File
                    && (#[trigger] rr[b]).kind == FileType::File && rr[a].storage_path
                    == rr[b].storage_path implies rr[a].content_hash == rr[b].content_hash by {
                let ja = choose|j: int| 0 <= j < es.len() && rr[a] == #[trigger] es[j];
                let jb = choose|j: int| 0 <= j < es.len() && rr[b] == #[trigger] es[j];
                assert(es[ja].content_hash == es[jb].content_hash);
            }
            assert forall|a: int| 0 <= a < rr.len() implies crate::entry::entry_shape_ok(
                #[trigger] rr[a],
            ) by {
                let j = choose|j: int| 0 <= j < es.len() && rr[a] == #[trigger] es[j];
            }
        }
    }
}

/// One scan step of the subtree split.
pub proof fn lemma_region_take_step(es: Seq<EntryV>, owner: u64, p: Seq<char>, i: int)
    requires
        0 <= i < es.len(),
    ensures
        remove_region(es.take(i + 1), owner, p) == if in_region(es[i], owner, p) {
            remove_region(es.take(i), owner, p)
        } else {
            remove_region(es.take(i), owner, p).push(es[i])
        },
        region_rows(es.take(i + 1), owner, p) == if in_region(es[i], owner, p) {
            region_rows(es.take(i), owner, p).push(es[i])
        } else {
            region_rows(es.take(i), owner, p)
        },
{
    assert(es.take(i + 1).drop_last() =~= es.take(i));
    assert(es.take(i + 1).last() == es[i]);
}

impl Store {
}

/// May the physical location of removed row `w` be deleted from disk?
/// Folder directories always; file blobs only once nothing references them.
pub open spec fn orphanable(es: Seq<EntryV>, w: EntryV) -> bool {
    w.kind == FileType::Folder || !storage_taken(es, w.storage_path)
}

/// Does the list of locations contain `loc`?
pub open spec fn listed(out: Seq<String>, loc: Seq<char>) -> bool {
    exists|t: int| 0 <= t < out.len() && (#[trigger] out[t])@ == loc
}

/// The ghost views of a row vector.
pub open spec fn views_of(v: Seq<FileEntry>) -> Seq<EntryV> {
    v.map_values(|x: FileEntry| x@)
}

/// Every reported location belongs to a removed row whose location may
/// now be deleted.
pub open spec fn orphans_from(es: Seq<EntryV>, reg: Seq<EntryV>, out: Seq<String>) -> bool {
    forall|t: int|
        0 <= t < out.len() ==> exists|y: int|
            0 <= y < reg.len() && (#[trigger] out[t])@ == (#[trigger] reg[y]).storage_path
                && orphanable(es, reg[y])
}

/// Every removed row (up to `upto`) whose location may now be deleted is
/// reported.
pub open spec fn orphans_cover(es: Seq<EntryV>, reg: Seq<EntryV>, out: Seq<String>, upto: int) -> bool {
    forall|y: int|
        0 <= y < upto && orphanable(es, #[trigger] reg[y]) ==> listed(out, reg[y].storage_path)
}

impl Store {
    /// The physical locations of the given removed rows that nothing in
    /// the store references any more (folder locations unconditionally).
    fn collect_orphans(&self, removed: &Vec<FileEntry>) -> (out: Vec<String>)
        ensures
            orphans_from(self.entries(), views_of(removed@), out@),
            orphans_cover(self.entries(), views_of(removed@), out@, removed@.len() as int),
    {
        let ghost reg = views_of(removed@);
        let m = removed.len();
        let mut out: Vec<String> = Vec::new();
        let mut w: usize = 0;
        while w < m
            invariant
                m == removed@.len(),
                reg == views_of(removed@),
                reg.len() == m as int,
                w <= m,
                orphans_from(self.entries(), reg, out@),
                orphans_cover(self.entries(), reg, out@, w as int),
            decreases m - w,
        {
            proof {
                assert(reg[w as int] == removed@[w as int]@);
            }
            let keep_loc: bool = if matches!(removed[w].kind, FileType::Folder) {
                true
            } else {
                !self.storage_taken_exec(removed[w].storage_path.as_str())
            };
            let ghost out_prev = out@;
            if keep_loc {
                let loc = removed[w].storage_path.clone();
                out.push(loc);
                proof {
                    assert(out@.drop_last() =~= out_prev);
                    assert(out@[out@.len() - 1]@ == reg[w as int].storage_path);
                    assert(orphanable(self.entries(), reg[w as int]));
                    assert forall|y: int|
                        0 <= y < w as int + 1 && orphanable(
                            self.entries(),
                            #[trigger] reg[y],
                        ) implies listed(out@, reg[y].storage_path) by {
                        if y < w as int {
                            let u = choose|u: int|
                                0 <= u < out_prev.len() && (#[trigger] out_prev[u])@
                                    == reg[y].storage_path;
                            assert(out@[u] == out_prev[u]);
                        } else {
                            assert((out@[out@.len() - 1])@ == reg[y].storage_path);
                        }
                    }
                    assert forall|t: int| 0 <= t < out@.len() implies exists|y: int|
                        0 <= y < reg.len() && (#[trigger] out@[t])@ == (
                        #[trigger] reg[y]).storage_path && orphanable(self.entries(), reg[y]) by {
                        if t < out_prev.len() {
                            assert(out@[t] == out_prev[t]);
                            assert(exists|y: int|
                                0 <= y < reg.len() && (#[trigger] out_prev[t])@ == (
                                #[trigger] reg[y]).storage_path && orphanable(
                                    self.entries(),
                                    reg[y],
                                ));
                        } else {
                            assert((out@[t])@ == reg[w as int].storage_path);
                        }
                    }
                }
            } else {
                proof {
                    assert(!orphanable(self.entries(), reg[w as int]));
                }
            }
            w = w + 1;
        }
        out
    }

    /// Removes the folder row at index `i` and every row in its logical
    /// subtree, reporting which physical locations lost their last
    /// reference.
    fn delete_folder_cascade(&mut self, i: usize) -> (out: Vec<String>)
        requires
            old(self).wf(),
            i < old(self).files@.len(),
            old(self).entries()[i as int].kind == FileType::Folder,
        ensures
            final(self).wf(),
            final(self).next_id == old(self).next_id,
            final(self).grant_views() == old(self).grant_views(),
            ({
                let es = old(self).entries();
                let owner = es[i as int].owner_id;
                let p = es[i as int].path;
                let reg = region_rows(es, owner, p);
                &&& final(self).entries() =~= with_counts(remove_region(es, owner, p))
                &&& orphans_from(final(self).entries(), reg, out@)
                &&& orphans_cover(final(self).entries(), reg, out@, reg.len() as int)
            }),
    {
        let ghost es = old(self).entries();
        let owner = self.files[i].owner_id;
        let pth = self.files[i].path.clone();
        let ghost pv = pth@;
        proof {
            assert(self.entries()[i as int] == self.files@[i as int]@);
        }
        let n = self.files.len();
        let mut kept: Vec<FileEntry> = Vec::new();
        let mut removed: Vec<FileEntry> = Vec::new();
        let mut j: usize = 0;
        proof {
            assert(es.take(0) =~= Seq::<EntryV>::empty());
        }
        while j < n
            invariant
                es == self.entries(),
                pv == pth@,
                j <= n,
                n == self.files@.len(),
                views_of(kept@) =~= remove_region(es.take(j as int), owner, pv),
                views_of(removed@) =~= region_rows(es.take(j as int), owner, pv),
            decreases n - j,
        {
            proof {
                assert(self.entries()[j as int] == self.files@[j as int]@);
                lemma_region_take_step(es, owner, pv, j as int);
            }
            let e = self.files[j].clone();
            let member: bool = e.owner_id == owner && (str_eq(e.path.as_str(), pth.as_str())
                || crate::paths::is_descendant_path(e.path.as_str(), pth.as_str()));
            if member {
                removed.push(e);
                proof {
                    assert(views_of(removed@) =~= region_rows(
                        es.take(j as int),
                        owner,
                        pv,
                    ).push(es[j as int]));
                }
            } else {
                kept.push(e);
                proof {
                    assert(views_of(kept@) =~= remove_region(
                        es.take(j as int),
                        owner,
                        pv,
                    ).push(es[j as int]));
                }
            }
            j = j + 1;
        }
        proof {
            assert(es.take(n as int) =~= es);
        }
        self.files = kept;
        let nlen = self.files.len();
        let ghost mid = self.entries();
        proof {
            assert(mid.len() == nlen as int);
            assert(mid =~= remove_region(es, owner, pv));
            lemma_remove_region_wf(es, owner, pv);
            lemma_with_counts_wf(mid);
        }
        self.refresh_ref_counts();
        proof {
            assert forall|a: int| 0 <= a < self.entries().len() implies (
            #[trigger] self.entries()[a]).id < self.next_id by {
                assert(self.entries()[a].id == mid[a].id);
                let y = choose|y: int| 0 <= y < es.len() && #[trigger] mid[a] == es[y];
            }
        }
        let ghost reg = region_rows(es, owner, pv);
        proof {
            assert(views_of(removed@) =~= reg);
        }
        let out = self.collect_orphans(&removed);
        out
    }

    /// Deletes the row with id `file_id` for `user_id` acting under
    /// `role`; a folder takes its whole subtree of rows with it. Returns
    /// the physical locations whose last reference just went away (and,
    /// for folders, the directories themselves): exactly those may now be
    /// removed from disk.
    pub fn delete_file(&mut self, user_id: u64, role: Role, file_id: u64) -> (r: Result<
        Vec<String>,
        FsError,
    >)
        requires
            old(self).wf(),
        ensures
            final(self).wf(),
            final(self).next_id == old(self).next_id,
            final(self).grant_views() == old(self).grant_views(),
            ({
                let es = old(self).entries();
                let gs = old(self).grant_views();
                let i = entry_idx(es, file_id);
                let permitted = i >= 0 && crate::store::has_right(
                    gs,
                    user_id,
                    role,
                    es[i],
                    Permission::Delete,
                );
                &&& ((r is Err && r->Err_0 == FsError::NotFound) <==> i < 0)
                &&& ((r is Err && r->Err_0 == FsError::PermissionDenied) <==> (i >= 0
                    && !permitted))
                &&& ((r is Ok) <==> permitted)
                &&& (r is Err ==> *final(self) == *old(self))
                &&& ((r is Ok && es[i].kind == FileType::File) ==> {
                    let loc = es[i].storage_path;
                    &&& final(self).entries() =~= with_counts(es.remove(i))
                    &&& r->Ok_0@.len() <= 1
                    &&& (r->Ok_0@.len() == 1 <==> !storage_taken(final(self).entries(), loc))
                    &&& (r->Ok_0@.len() == 1 ==> r->Ok_0@[0]@ == loc)
                })
                &&& ((r is Ok && es[i].kind == FileType::Folder) ==> {
                    let owner = es[i].owner_id;
                    let p = es[i].path;
                    let reg = region_rows(es, owner, p);
                    &&& final(self).entries() =~= with_counts(remove_region(es, owner, p))
                    &&& orphans_from(final(self).entries(), reg, r->Ok_0@)
                    &&& orphans_cover(final(self).entries(), reg, r->Ok_0@, reg.len() as int)
                })
            }),
    {
        let ghost es = old(self).entries();
        proof {
            lemma_entry_idx(es, file_id);
        }
        let i = match self.find_index(file_id) {
            Some(i) => i,
            None => {
                return Err(FsError::NotFound);
            },
        };
        proof {
            assert(self.entries()[i as int] == self.files@[i as int]@);
        }
        let (_, _, can_delete) = self.get_file_permissions(user_id, role, &self.files[i]);
        if !can_delete {
            return Err(FsError::PermissionDenied);
        }
        if matches!(self.files[i].kind, FileType::File) {
            let removed = self.files.remove(i);
            let nlen0 = self.files.len();
            let ghost mid = self.entries();
            proof {
                assert(mid.len() == nlen0 as int);
                assert(mid =~= es.remove(i as int));
                assert forall|a: int| 0 <= a < mid.len() implies #[trigger] mid[a] == es[
                    if a < i as int {
                        a
                    } else {
                        a + 1
                    }
                ] by {}
                assert forall|a: int, b: int| 0 <= a < b < mid.len() implies #[trigger] mid[a].id
                    != #[trigger] mid[b].id by {
                    let oa: int = if a < i as int { a } else { a + 1 };
                    let ob: int = if b < i as int { b } else { b + 1 };
                    assert(mid[a] == es[oa] && mid[b] == es[ob]);
                }
                assert forall|a: int, b: int| 0 <= a < b < mid.len() implies !((
                #[trigger] mid[a]).owner_id == (#[trigger] mid[b]).owner_id && mid[a].path
                    == mid[b].path) by {
                    let oa: int = if a < i as int { a } else { a + 1 };
                    let ob: int = if b < i as int { b } else { b + 1 };
                    assert(mid[a] == es[oa] && mid[b] == es[ob]);
                }
                assert forall|a: int, b: int|
                    0 <= a < mid.len() && 0 <= b < mid.len() && (#[trigger] mid[a]).kind
                        == FileType::File && (#[trigger] mid[b]).kind == FileType::File
                        && mid[a].storage_path == mid[b].storage_path implies mid[a].content_hash
                    == mid[b].content_hash by {
                    let oa: int = if a < i as int { a } else { a + 1 };
                    let ob: int = if b < i as int { b } else { b + 1 };
                    assert(mid[a] == es[oa] && mid[b] == es[ob]);
                }
                assert forall|a: int| 0 <= a < mid.len() implies crate::entry::entry_shape_ok(
                    #[trigger] mid[a],
                ) by {
                    let oa: int = if a < i as int { a } else { a + 1 };
                    assert(mid[a] == es[oa]);
                }
                lemma_with_counts_wf(mid);
            }
            self.refresh_ref_counts();
            proof {
                assert forall|a: int| 0 <= a < self.entries().len() implies (
                #[trigger] self.entries()[a]).id < self.next_id by {
                    assert(self.entries()[a].id == mid[a].id);
                }
            }
            let mut out: Vec<String> = Vec::new();
            if !self.storage_taken_exec(removed.storage_path.as_str()) {
                out.push(removed.storage_path);
            }
            return Ok(out);
        }
        let out = self.delete_folder_cascade(i);
        Ok(out)
    }
}

} // verus!
