//! Read-side views of the namespace: directory listings with the
//! caller's effective rights, and size totals over selected subtrees.

use vstd::prelude::*;

use crate::batch::count_files;
use crate::batch::sum_file_sizes;
use crate::content::region_rows;
use crate::content::views_of;
use crate::decimal::int_str;
use crate::decimal::i64_to_string;
use crate::entry::EntryV;
use crate::entry::GrantV;
use crate::errors::FsError;
use crate::models::FileItem;
use crate::models::FileListResponse;
use crate::models::CalculateSizeResponse;
use crate::models::FileType;
use crate::models::Permission;
use crate::models::Role;
use crate::paths::canonical_path_of;
use crate::paths::dir_canon;
use crate::paths::path_rejected;
use crate::store::Store;
use crate::store::effective_rights_spec;
use crate::store::entry_idx;
use crate::store::has_right;
use crate::store::lemma_entry_idx;
use crate::strutil::str_eq;

verus! {

/// Is the row at `x` part of the listing of `owner`'s directory `cp`,
/// as seen by the actor? Only readable rows are listed.
pub open spec fn list_sel(
    es: Seq<EntryV>,
    gs: Seq<GrantV>,
    actor: u64,
    role: Role,
    owner: u64,
    cp: Seq<char>,
    x: int,
) -> bool {
    &&& 0 <= x < es.len()
    &&& es[x].owner_id == owner
    &&& es[x].parent_path == cp
    &&& effective_rights_spec(gs, actor, role, es[x]).0
}

/// One listed item carries exactly the row's attributes and the actor's
/// effective rights on it.
pub open spec fn item_matches(it: FileItem, e: EntryV, gs: Seq<GrantV>, actor: u64, role: Role) -> bool {
    &&& it.id == e.id
    &&& it.name@ == e.name
    &&& it.path@ == e.path
    &&& it.file_type == e.kind
    &&& it.size_bytes == e.size_bytes
    &&& (match it.mime_type {
        Some(m) => e.mime_type == Some(m@),
        None => e.mime_type is None,
    })
    &&& it.created_at@ == int_str(e.created_at as int)
    &&& it.updated_at@ == int_str(e.updated_at as int)
    &&& (it.can_read, it.can_write, it.can_delete) == effective_rights_spec(gs, actor, role, e)
    &&& it.is_owner == (e.owner_id == actor)
}

/// The item at `t` reflects a selected row.
pub open spec fn listed_item_ok(
    es: Seq<EntryV>,
    gs: Seq<GrantV>,
    actor: u64,
    role: Role,
    owner: u64,
    cp: Seq<char>,
    items: Seq<FileItem>,
    t: int,
) -> bool {
    exists|x: int|
        list_sel(es, gs, actor, role, owner, cp, x) && item_matches(
            items[t],
            #[trigger] es[x],
            gs,
            actor,
            role,
        )
}

/// Every listed item reflects a selected row.
pub open spec fn listing_sound(
    es: Seq<EntryV>,
    gs: Seq<GrantV>,
    actor: u64,
    role: Role,
    owner: u64,
    cp: Seq<char>,
    items: Seq<FileItem>,
) -> bool {
    forall|t: int|
        0 <= t < items.len() ==> #[trigger] listed_item_ok(es, gs, actor, role, owner, cp, items, t)
}

/// Every selected row appears in the listing.
pub open spec fn listing_complete(
    es: Seq<EntryV>,
    gs: Seq<GrantV>,
    actor: u64,
    role: Role,
    owner: u64,
    cp: Seq<char>,
    items: Seq<FileItem>,
) -> bool {
    forall|x: int|
        list_sel(es, gs, actor, role, owner, cp, x) ==> exists|t: int|
            0 <= t < items.len() && (#[trigger] items[t]).id == es[x].id
}

impl Store {
    /// Lists the entries directly under `path` in `owner_id`'s tree, as
    /// seen by the actor: each readable row with the actor's effective
    /// rights on it. Only administrators may list another user's tree.
    pub fn list_files(&self, user_id: u64, role: Role, owner_id: u64, path: &str) -> (r: Result<
        FileListResponse,
        FsError,
    >)
        ensures
            ({
                let es = self.entries();
                let gs = self.grant_views();
                if role != Role::Admin && owner_id != user_id {
                    r == Result::<FileListResponse, FsError>::Err(FsError::PermissionDenied)
                } else if path_rejected(path@) {
                    r == Result::<FileListResponse, FsError>::Err(FsError::PathTraversal)
                } else {
                    let cp = dir_canon(canonical_path_of(path@));
                    &&& r is Ok
                    &&& r->Ok_0.current_path@ == cp
                    &&& listing_sound(es, gs, user_id, role, owner_id, cp, r->Ok_0.files@)
                    &&& listing_complete(es, gs, user_id, role, owner_id, cp, r->Ok_0.files@)
                }
            }),
    {
        let ghost es = self.entries();
        let ghost gs = self.grant_views();
        if !matches!(role, Role::Admin) && owner_id != user_id {
            return Err(FsError::PermissionDenied);
        }
        let clean = match crate::paths::sanitize_path(path) {
            Ok(p) => p,
            Err(e) => {
                return Err(e);
            },
        };
        let cp = crate::paths::canon_dir(clean.as_str());
        let ghost cpv = cp@;
        let n = self.files.len();
        let mut items: Vec<FileItem> = Vec::new();
        let mut x: usize = 0;
        while x < n
            invariant
                es == self.entries(),
                gs == self.grant_views(),
                cpv == cp@,
                x <= n,
                n == self.files@.len(),
                forall|t: int|
                    0 <= t < items@.len() ==> #[trigger] listed_item_ok(
                        es,
                        gs,
                        user_id,
                        role,
                        owner_id,
                        cpv,
                        items@,
                        t,
                    ),
                forall|y: int|
                    0 <= y < x && list_sel(es, gs, user_id, role, owner_id, cpv, y) ==> exists|
                        t: int,
                    |
                        0 <= t < items@.len() && (#[trigger] items@[t]).id == es[y].id,
            decreases n - x,
        {
            proof {
                assert(self.entries()[x as int] == self.files@[x as int]@);
            }
            let ghost items_prev = items@;
            let e = &self.files[x];
            if e.owner_id == owner_id && str_eq(e.parent_path.as_str(), cp.as_str()) {
                let (can_read, can_write, can_delete) = self.get_file_permissions(
                    user_id,
                    role,
                    e,
                );
                if can_read {
                    let it = FileItem {
                        id: e.id,
                        name: e.name.clone(),
                        path: e.path.clone(),
                        file_type: e.kind,
                        size_bytes: e.size_bytes,
                        mime_type: match &e.mime_type {
                            Some(m) => Some(m.clone()),
                            None => None,
                        },
                        created_at: i64_to_string(e.created_at),
                        updated_at: i64_to_string(e.updated_at),
                        can_read,
                        can_write,
                        can_delete,
                        is_owner: e.owner_id == user_id,
                    };
                    items.push(it);
                    proof {
                        assert(items@.drop_last() =~= items_prev);
                        assert(item_matches(
                            items@[items@.len() - 1],
                            es[x as int],
                            gs,
                            user_id,
                            role,
                        ));
                        assert(list_sel(es, gs, user_id, role, owner_id, cpv, x as int));
                        assert forall|y: int|
                            0 <= y < x as int + 1 && list_sel(
                                es,
                                gs,
                                user_id,
                                role,
                                owner_id,
                                cpv,
                                y,
                            ) implies exists|t: int|
                            0 <= t < items@.len() && (#[trigger] items@[t]).id == es[y].id by {
                            if y < x as int {
                                let t = choose|t: int|
                                    0 <= t < items_prev.len() && (#[trigger] items_prev[t]).id
                                        == es[y].id;
                                assert(items@[t] == items_prev[t]);
                            } else {
                                assert(items@[items@.len() - 1].id == es[y].id);
                            }
                        }
                        assert forall|t: int| 0 <= t < items@.len() implies #[trigger] listed_item_ok(
                            es,
                            gs,
                            user_id,
                            role,
                            owner_id,
                            cpv,
                            items@,
                            t,
                        ) by {
                            if t < items_prev.len() {
                                assert(items@[t] == items_prev[t]);
                                assert(listed_item_ok(
                                    es,
                                    gs,
                                    user_id,
                                    role,
                                    owner_id,
                                    cpv,
                                    items_prev,
                                    t,
                                ));
                                let y = choose|y: int|
                                    list_sel(es, gs, user_id, role, owner_id, cpv, y)
                                        && item_matches(
                                        items_prev[t],
                                        #[trigger] es[y],
                                        gs,
                                        user_id,
                                        role,
                                    );
                                assert(item_matches(items@[t], es[y], gs, user_id, role));
                            } else {
                                assert(item_matches(items@[t], es[x as int], gs, user_id, role));
                            }
                        }
                    }
                }
            }
            x = x + 1;
        }
        proof {
            assert(listing_sound(es, gs, user_id, role, owner_id, cpv, items@));
            assert(listing_complete(es, gs, user_id, role, owner_id, cpv, items@));
        }
        Ok(FileListResponse { files: items, current_path: cp })
    }
}


/// What one requested id contributes to a size calculation: nothing when
/// the row is missing or unreadable; a file's size; or a folder's
/// summed subtree file sizes and counts.
pub open spec fn size_triple(
    es: Seq<EntryV>,
    gs: Seq<GrantV>,
    actor: u64,
    role: Role,
    rid: u64,
) -> (nat, nat, nat) {
    let i = entry_idx(es, rid);
    if i < 0 {
        (0nat, 0nat, 0nat)
    } else if !has_right(gs, actor, role, es[i], Permission::Read) {
        (0nat, 0nat, 0nat)
    } else if es[i].kind == FileType::File {
        (
            match es[i].size_bytes {
                Some(s) => s as nat,
                None => 0nat,
            },
            1nat,
            0nat,
        )
    } else {
        let reg = region_rows(es, es[i].owner_id, es[i].path);
        (sum_file_sizes(reg), count_files(reg), 1nat)
    }
}

/// The total contribution of a list of requested ids.
pub open spec fn size_accum(
    es: Seq<EntryV>,
    gs: Seq<GrantV>,
    actor: u64,
    role: Role,
    ids: Seq<u64>,
) -> (nat, nat, nat)
    decreases ids.len(),
{
    if ids.len() == 0 {
        (0nat, 0nat, 0nat)
    } else {
        let h = size_triple(es, gs, actor, role, ids[0]);
        let t = size_accum(es, gs, actor, role, ids.drop_first());
        ((h.0 + t.0) as nat, (h.1 + t.1) as nat, (h.2 + t.2) as nat)
    }
}

/// At most as many file rows as rows.
pub proof fn lemma_count_files_le(fs: Seq<EntryV>)
    ensures
        count_files(fs) <= fs.len(),
    decreases fs.len(),
{
    if fs.len() > 0 {
        lemma_count_files_le(fs.drop_last());
    }
}

/// Adds without wrapping at the platform word size.
fn saturating_add_usize(a: usize, b: usize) -> (r: usize)
    ensures
        r as nat == if a + b <= usize::MAX {
            (a + b) as nat
        } else {
            usize::MAX as nat
        },
{
    if usize::MAX - a < b {
        usize::MAX
    } else {
        a + b
    }
}

/// Number of file rows among the given rows.
fn count_files_exec(files: &Vec<crate::entry::FileEntry>) -> (r: usize)
    ensures
        r as nat == count_files(views_of(files@)),
{
    let n = files.len();
    let mut c: usize = 0;
    let mut i: usize = 0;
    proof {
        assert(views_of(files@.take(0)) =~= Seq::<EntryV>::empty());
    }
    while i < n
        invariant
            i <= n,
            c <= i,
            n == files@.len(),
            c as nat == count_files(views_of(files@.take(i as int))),
        decreases n - i,
    {
        proof {
            assert(views_of(files@.take(i as int + 1)).drop_last() =~= views_of(
                files@.take(i as int),
            ));
            assert(views_of(files@.take(i as int + 1)).last() == files@[i as int]@);
        }
        if matches!(files[i].kind, FileType::File) {
            c = c + 1;
        }
        i = i + 1;
    }
    proof {
        assert(files@.take(n as int) =~= files@);
    }
    c
}

impl Store {
    /// Sums what the requested ids select, as seen by the actor: files
    /// add their size; folders add their subtrees' file sizes and counts;
    /// missing or unreadable rows are skipped. Sums are capped at the
    /// integer limits.
    pub fn calculate_size(&self, user_id: u64, role: Role, file_ids: &Vec<u64>) -> (r:
        CalculateSizeResponse)
        ensures
            ({
                let acc = size_accum(
                    self.entries(),
                    self.grant_views(),
                    user_id,
                    role,
                    file_ids@,
                );
                &&& r.total_size_bytes as nat == (if acc.0 <= u64::MAX {
                    acc.0
                } else {
                    u64::MAX as nat
                })
                &&& r.file_count as nat == (if acc.1 <= usize::MAX {
                    acc.1
                } else {
                    usize::MAX as nat
                })
                &&& r.folder_count as nat == (if acc.2 <= usize::MAX {
                    acc.2
                } else {
                    usize::MAX as nat
                })
            }),
    {
        let ghost es = self.entries();
        let ghost gs = self.grant_views();
        let ghost idsv = file_ids@;
        let m = file_ids.len();
        let mut total: u64 = 0;
        let mut file_count: usize = 0;
        let mut folder_count: usize = 0;
        let mut k: usize = 0;
        let ghost full = size_accum(es, gs, user_id, role, idsv);
        let ghost mut pref: (nat, nat, nat) = (0nat, 0nat, 0nat);
        proof {
            assert(idsv.skip(0) =~= idsv);
        }
        while k < m
            invariant
                es == self.entries(),
                gs == self.grant_views(),
                idsv == file_ids@,
                k <= m,
                m == idsv.len(),
                full == size_accum(es, gs, user_id, role, idsv),
                full.0 == pref.0 + size_accum(es, gs, user_id, role, idsv.skip(k as int)).0,
                full.1 == pref.1 + size_accum(es, gs, user_id, role, idsv.skip(k as int)).1,
                full.2 == pref.2 + size_accum(es, gs, user_id, role, idsv.skip(k as int)).2,
                total as nat == (if pref.0 <= u64::MAX {
                    pref.0
                } else {
                    u64::MAX as nat
                }),
                file_count as nat == (if pref.1 <= usize::MAX {
                    pref.1
                } else {
                    usize::MAX as nat
                }),
                folder_count as nat == (if pref.2 <= usize::MAX {
                    pref.2
                } else {
                    usize::MAX as nat
                }),
            decreases m - k,
        {
            proof {
                assert(idsv.skip(k as int)[0] == idsv[k as int]);
                assert(idsv.skip(k as int).drop_first() =~= idsv.skip(k as int + 1));
                lemma_entry_idx(es, idsv[k as int]);
            }
            let ghost h = size_triple(es, gs, user_id, role, idsv[k as int]);
            let rid = file_ids[k];
            match self.find_index(rid) {
                None => {
                    proof {
                        assert(h == (0nat, 0nat, 0nat));
                    }
                },
                Some(i) => {
                    proof {
                        assert(self.entries()[i as int] == self.files@[i as int]@);
                    }
                    let (can_read, _, _) = self.get_file_permissions(
                        user_id,
                        role,
                        &self.files[i],
                    );
                    if !can_read {
                        proof {
                            assert(h == (0nat, 0nat, 0nat));
                        }
                    } else if matches!(self.files[i].kind, FileType::File) {
                        let sz: u64 = match self.files[i].size_bytes {
                            Some(s) => s,
                            None => 0,
                        };
                        total = crate::batch::saturating_add_u64(total, sz);
                        file_count = saturating_add_usize(file_count, 1);
                    } else {
                        let owner = self.files[i].owner_id;
                        let region = self.get_folder_files_recursive(
                            self.files[i].path.as_str(),
                            owner,
                        );
                        let folder_total = crate::batch::calculate_folder_size(&region);
                        let folder_files = count_files_exec(&region);
                        proof {
                            assert(views_of(region@) == region_rows(
                                es,
                                owner,
                                es[i as int].path,
                            ));
                        }
                        total = crate::batch::saturating_add_u64(total, folder_total);
                        file_count = saturating_add_usize(file_count, folder_files);
                        folder_count = saturating_add_usize(folder_count, 1);
                    }
                },
            }
            proof {
                pref = ((pref.0 + h.0) as nat, (pref.1 + h.1) as nat, (pref.2 + h.2) as nat);
            }
            k = k + 1;
        }
        proof {
            assert(idsv.skip(m as int) =~= Seq::<u64>::empty());
        }
        CalculateSizeResponse { total_size_bytes: total, file_count, folder_count }
    }
}


} // verus!
