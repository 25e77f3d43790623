//! The namespace store: every row of every owner, with the operations
//! that the request handlers drive. Each operation keeps the store
//! invariants: unique ids, per-owner unique logical paths, parent links
//! consistent with paths, reference counts equal to the number of rows
//! sharing a blob, and digest-consistent sharing.

use vstd::prelude::*;

use crate::entry::EntryV;
use crate::entry::FileEntry;
use crate::entry::GrantV;
use crate::entry::PermissionGrant;
use crate::entry::count_sharers;
use crate::entry::entry_shape_ok;
use crate::entry::grants_unique;
use crate::entry::hashes_consistent;
use crate::entry::ids_unique;
use crate::entry::lemma_count_congruent;
use crate::entry::lemma_count_le_len;
use crate::entry::lemma_count_pos;
use crate::entry::lemma_count_push;
use crate::entry::lemma_count_take_all;
use crate::entry::lemma_count_take_step;
use crate::entry::lemma_count_zero;
use crate::entry::paths_unique;
use crate::entry::refs_consistent;
use crate::entry::shapes_ok;
use crate::entry::shares_loc;
use crate::errors::FsError;
use crate::models::FileType;
use crate::models::Permission;
use crate::models::Role;
use crate::strutil::str_eq;

verus! {

/// The persistent state: namespace rows, ACL rows, and the id counter.
pub struct Store {
    pub files: Vec<FileEntry>,
    pub grants: Vec<PermissionGrant>,
    pub next_id: u64,
}

/// Index of the first row with id `id`, or `-1`.
pub open spec fn entry_idx(es: Seq<EntryV>, id: u64) -> int
    decreases es.len(),
{
    if es.len() == 0 {
        -1
    } else if es[0].id == id {
        0
    } else {
        let r = entry_idx(es.drop_first(), id);
        if r < 0 {
            -1
        } else {
            r + 1
        }
    }
}

/// What `entry_idx` finds: the first matching row, if any.
pub proof fn lemma_entry_idx(es: Seq<EntryV>, id: u64)
    ensures
        -1 <= entry_idx(es, id) < es.len(),
        entry_idx(es, id) >= 0 ==> es[entry_idx(es, id)].id == id,
        forall|k: int|
            0 <= k < es.len() && k < entry_idx(es, id) ==> (#[trigger] es[k]).id != id,
        entry_idx(es, id) == -1 ==> forall|k: int|
            0 <= k < es.len() ==> (#[trigger] es[k]).id != id,
    decreases es.len(),
{
    if es.len() > 0 && es[0].id != id {
        lemma_entry_idx(es.drop_first(), id);
        assert forall|k: int| 1 <= k < es.len() implies #[trigger] es[k]
            == es.drop_first()[k - 1] by {}
    }
}

/// Index of the first ACL row for `(file_id, user_id)`, or `-1`.
pub open spec fn grant_idx(gs: Seq<GrantV>, file_id: u64, user_id: u64) -> int
    decreases gs.len(),
{
    if gs.len() == 0 {
        -1
    } else if gs[0].file_id == file_id && gs[0].user_id == user_id {
        0
    } else {
        let r = grant_idx(gs.drop_first(), file_id, user_id);
        if r < 0 {
            -1
        } else {
            r + 1
        }
    }
}

/// What `grant_idx` finds.
pub proof fn lemma_grant_idx(gs: Seq<GrantV>, file_id: u64, user_id: u64)
    ensures
        -1 <= grant_idx(gs, file_id, user_id) < gs.len(),
        grant_idx(gs, file_id, user_id) >= 0 ==> gs[grant_idx(gs, file_id, user_id)].file_id
            == file_id && gs[grant_idx(gs, file_id, user_id)].user_id == user_id,
        forall|k: int|
            0 <= k < gs.len() && k < grant_idx(gs, file_id, user_id) ==> !((#[trigger] gs[k]).file_id
                == file_id && gs[k].user_id == user_id),
        grant_idx(gs, file_id, user_id) == -1 ==> forall|k: int|
            0 <= k < gs.len() ==> !((#[trigger] gs[k]).file_id == file_id && gs[k].user_id
                == user_id),
    decreases gs.len(),
{
    if gs.len() > 0 && !(gs[0].file_id == file_id && gs[0].user_id == user_id) {
        lemma_grant_idx(gs.drop_first(), file_id, user_id);
        assert forall|k: int| 1 <= k < gs.len() implies #[trigger] gs[k]
            == gs.drop_first()[k - 1] by {}
    }
}

/// The three effective rights of an actor on a row: administrators and
/// owners hold all rights; otherwise the stored grant booleans; no
/// grant, no rights.
pub open spec fn effective_rights_spec(gs: Seq<GrantV>, actor: u64, role: Role, e: EntryV) -> (
    bool,
    bool,
    bool,
) {
    if role == Role::Admin {
        (true, true, true)
    } else if e.owner_id == actor {
        (true, true, true)
    } else {
        let gi = grant_idx(gs, e.id, actor);
        if gi < 0 {
            (false, false, false)
        } else {
            (gs[gi].can_read, gs[gi].can_write, gs[gi].can_delete)
        }
    }
}

/// One selected right out of the three.
pub open spec fn has_right(gs: Seq<GrantV>, actor: u64, role: Role, e: EntryV, p: Permission) -> bool {
    match p {
        Permission::Read => effective_rights_spec(gs, actor, role, e).0,
        Permission::Write => effective_rights_spec(gs, actor, role, e).1,
        Permission::Delete => effective_rights_spec(gs, actor, role, e).2,
    }
}

/// The permission answer for an id: administrators pass outright; a
/// missing row surfaces `NotFound`; otherwise the row's effective right.
pub open spec fn check_permission_spec(
    es: Seq<EntryV>,
    gs: Seq<GrantV>,
    actor: u64,
    role: Role,
    file_id: u64,
    p: Permission,
) -> Result<bool, FsError> {
    if role == Role::Admin {
        Result::Ok(true)
    } else {
        let i = entry_idx(es, file_id);
        if i < 0 {
            Result::Err(FsError::NotFound)
        } else {
            Result::Ok(has_right(gs, actor, role, es[i], p))
        }
    }
}

impl Store {
    /// The rows as ghost views.
    pub open spec fn entries(&self) -> Seq<EntryV> {
        self.files@.map_values(|e: FileEntry| e@)
    }

    /// The ACL rows as ghost views.
    pub open spec fn grant_views(&self) -> Seq<GrantV> {
        self.grants@.map_values(|g: PermissionGrant| g@)
    }

    /// The store invariants.
    pub open spec fn wf(&self) -> bool {
        &&& ids_unique(self.entries())
        &&& paths_unique(self.entries())
        &&& shapes_ok(self.entries())
        &&& refs_consistent(self.entries())
        &&& hashes_consistent(self.entries())
        &&& grants_unique(self.grant_views())
        &&& forall|i: int|
            0 <= i < self.entries().len() ==> (#[trigger] self.entries()[i]).id < self.next_id
    }

    /// An empty store.
    pub fn new() -> (r: Store)
        ensures
            r.wf(),
            r.entries() =~= Seq::<EntryV>::empty(),
            r.grant_views() =~= Seq::<GrantV>::empty(),
    {
        Store { files: Vec::new(), grants: Vec::new(), next_id: 1 }
    }

    /// Index of the row with this id, if it exists.
    pub(crate) fn find_index(&self, file_id: u64) -> (r: Option<usize>)
        ensures
            r is Some ==> entry_idx(self.entries(), file_id) == r->Some_0 as int && r->Some_0
                < self.files@.len(),
            r is None ==> entry_idx(self.entries(), file_id) == -1,
    {
        proof {
            lemma_entry_idx(self.entries(), file_id);
        }
        let n = self.files.len();
        let mut i: usize = 0;
        while i < n
            invariant
                i <= n,
                n == self.files@.len(),
                forall|k: int| 0 <= k < i ==> (#[trigger] self.entries()[k]).id != file_id,
            decreases n - i,
        {
            if self.files[i].id == file_id {
                proof {
                    assert(self.entries()[i as int] == self.files@[i as int]@);
                    lemma_entry_idx(self.entries(), file_id);
                }
                return Some(i);
            }
            i = i + 1;
        }
        None
    }

    /// Index of the ACL row for `(file_id, user_id)`, if present.
    pub(crate) fn find_grant(&self, file_id: u64, user_id: u64) -> (r: Option<usize>)
        ensures
            r is Some ==> grant_idx(self.grant_views(), file_id, user_id) == r->Some_0 as int
                && r->Some_0 < self.grants@.len(),
            r is None ==> grant_idx(self.grant_views(), file_id, user_id) == -1,
    {
        proof {
            lemma_grant_idx(self.grant_views(), file_id, user_id);
        }
        let n = self.grants.len();
        let mut i: usize = 0;
        while i < n
            invariant
                i <= n,
                n == self.grants@.len(),
                forall|k: int|
                    0 <= k < i ==> !((#[trigger] self.grant_views()[k]).file_id == file_id
                        && self.grant_views()[k].user_id == user_id),
            decreases n - i,
        {
            if self.grants[i].file_id == file_id && self.grants[i].user_id == user_id {
                proof {
                    assert(self.grant_views()[i as int] == self.grants@[i as int]@);
                    lemma_grant_idx(self.grant_views(), file_id, user_id);
                }
                return Some(i);
            }
            i = i + 1;
        }
        None
    }

    /// The row with this id, if it exists.
    pub fn get_entry(&self, file_id: u64) -> (r: Option<&FileEntry>)
        ensures
            r is Some ==> entry_idx(self.entries(), file_id) >= 0 && r->Some_0@ == self.entries()[
                entry_idx(self.entries(), file_id)],
            r is None ==> entry_idx(self.entries(), file_id) == -1,
    {
        match self.find_index(file_id) {
            Some(i) => Some(&self.files[i]),
            None => None,
        }
    }

    /// The effective (read, write, delete) rights of `user_id` acting
    /// under `role` on the given row.
    pub fn get_file_permissions(&self, user_id: u64, role: Role, file: &FileEntry) -> (r: (
        bool,
        bool,
        bool,
    ))
        ensures
            r == effective_rights_spec(self.grant_views(), user_id, role, file@),
    {
        if matches!(role, Role::Admin) {
            return (true, true, true);
        }
        if file.owner_id == user_id {
            return (true, true, true);
        }
        match self.find_grant(file.id, user_id) {
            Some(gi) => {
                let g = &self.grants[gi];
                (g.can_read, g.can_write, g.can_delete)
            },
            None => (false, false, false),
        }
    }

    /// Does `user_id` (acting under `role`) hold the given right on the
    /// row with id `file_id`? A missing row surfaces `NotFound` (except
    /// to administrators, who hold every right outright).
    pub fn check_permission(&self, user_id: u64, role: Role, file_id: u64, permission: Permission)
        -> (r: Result<bool, FsError>)
        ensures
            r == check_permission_spec(
                self.entries(),
                self.grant_views(),
                user_id,
                role,
                file_id,
                permission,
            ),
    {
        if matches!(role, Role::Admin) {
            return Ok(true);
        }
        let file = match self.find_index(file_id) {
            Some(i) => &self.files[i],
            None => {
                return Err(FsError::NotFound);
            },
        };
        let (can_read, can_write, can_delete) = self.get_file_permissions(user_id, role, file);
        match permission {
            Permission::Read => Ok(can_read),
            Permission::Write => Ok(can_write),
            Permission::Delete => Ok(can_delete),
        }
    }

    /// Creates or updates the ACL row for `(req file, req user)`.
    /// Only administrators may grant; the grant stores exactly the three
    /// requested booleans and who granted them.
    pub fn grant_permission(
        &mut self,
        actor: u64,
        role: Role,
        file_id: u64,
        user_id: u64,
        can_read: bool,
        can_write: bool,
        can_delete: bool,
        now: i64,
    ) -> (r: Result<(), FsError>)
        requires
            old(self).wf(),
            old(self).next_id < u64::MAX,
        ensures
            final(self).wf(),
            r is Err <==> role != Role::Admin,
            r is Err ==> r->Err_0 == FsError::PermissionDenied && *final(self) == *old(self),
            r is Ok ==> final(self).entries() == old(self).entries(),
            r is Ok ==> {
                let gi = grant_idx(old(self).grant_views(), file_id, user_id);
                if gi >= 0 {
                    final(self).grant_views() =~= old(self).grant_views().update(
                        gi,
                        GrantV {
                            can_read,
                            can_write,
                            can_delete,
                            granted_by: actor,
                            ..old(self).grant_views()[gi]
                        },
                    )
                } else {
                    final(self).grant_views() =~= old(self).grant_views().push(
                        GrantV {
                            id: old(self).next_id,
                            file_id,
                            user_id,
                            can_read,
                            can_write,
                            can_delete,
                            granted_by: actor,
                            created_at: now,
                        },
                    )
                }
            },
    {
        if !matches!(role, Role::Admin) {
            return Err(FsError::PermissionDenied);
        }
        proof {
            lemma_grant_idx(old(self).grant_views(), file_id, user_id);
        }
        match self.find_grant(file_id, user_id) {
            Some(gi) => {
                self.grants[gi].can_read = can_read;
                self.grants[gi].can_write = can_write;
                self.grants[gi].can_delete = can_delete;
                self.grants[gi].granted_by = actor;
                proof {
                    assert(self.grant_views() =~= old(self).grant_views().update(
                        gi as int,
                        GrantV {
                            can_read,
                            can_write,
                            can_delete,
                            granted_by: actor,
                            ..old(self).grant_views()[gi as int]
                        },
                    ));
                    assert(self.entries() =~= old(self).entries());
                }
                Ok(())
            },
            None => {
                let g = PermissionGrant {
                    id: self.next_id,
                    file_id,
                    user_id,
                    can_read,
                    can_write,
                    can_delete,
                    granted_by: actor,
                    created_at: now,
                };
                self.next_id = self.next_id + 1;
                self.grants.push(g);
                proof {
                    assert(self.grant_views() =~= old(self).grant_views().push(g@));
                    assert(self.entries() =~= old(self).entries());
                }
                Ok(())
            },
        }
    }

    /// Removes the ACL row for `(file_id, user_id)`, if any.
    /// Only administrators may revoke.
    pub fn revoke_permission(&mut self, actor: u64, role: Role, file_id: u64, user_id: u64) -> (r:
        Result<(), FsError>)
        requires
            old(self).wf(),
        ensures
            final(self).wf(),
            r is Err <==> role != Role::Admin,
            r is Err ==> r->Err_0 == FsError::PermissionDenied && *final(self) == *old(self),
            r is Ok ==> final(self).entries() == old(self).entries(),
            r is Ok ==> {
                let gi = grant_idx(old(self).grant_views(), file_id, user_id);
                if gi >= 0 {
                    final(self).grant_views() =~= old(self).grant_views().remove(gi)
                } else {
                    final(self).grant_views() =~= old(self).grant_views()
                }
            },
    {
        if !matches!(role, Role::Admin) {
            return Err(FsError::PermissionDenied);
        }
        proof {
            lemma_grant_idx(old(self).grant_views(), file_id, user_id);
        }
        let _ = actor;
        match self.find_grant(file_id, user_id) {
            Some(gi) => {
                self.grants.remove(gi);
                proof {
                    let gvs = self.grant_views();
                    let ogs = old(self).grant_views();
                    assert(gvs =~= ogs.remove(gi as int));
                    assert(self.entries() =~= old(self).entries());
                    assert forall|i: int, j: int| 0 <= i < j < gvs.len() implies !((
                    #[trigger] gvs[i]).file_id == (#[trigger] gvs[j]).file_id && gvs[i].user_id
                        == gvs[j].user_id) by {
                        let oi: int = if i < gi as int {
                            i
                        } else {
                            i + 1
                        };
                        let oj: int = if j < gi as int {
                            j
                        } else {
                            j + 1
                        };
                        assert(gvs[i] == ogs[oi]);
                        assert(gvs[j] == ogs[oj]);
                    }
                }
                Ok(())
            },
            None => Ok(()),
        }
    }
}


/// Is some row of `owner` already at logical path `p`?
pub open spec fn path_taken(es: Seq<EntryV>, owner: u64, p: Seq<char>) -> bool {
    exists|i: int| 0 <= i < es.len() && (#[trigger] es[i]).owner_id == owner && es[i].path == p
}

/// Does some file row reference the blob at `loc`?
pub open spec fn storage_taken(es: Seq<EntryV>, loc: Seq<char>) -> bool {
    exists|i: int| 0 <= i < es.len() && shares_loc(#[trigger] es[i], loc)
}

/// Every row with its reference count set to the number of rows sharing
/// its blob (zero for folders).
pub open spec fn with_counts(es: Seq<EntryV>) -> Seq<EntryV> {
    Seq::new(
        es.len(),
        |i: int|
            EntryV {
                ref_count: if es[i].kind == FileType::File {
                    count_sharers(es, es[i].storage_path) as u64
                } else {
                    0
                },
                ..es[i]
            },
    )
}

impl Store {
    /// Number of file rows referencing the blob at `loc`.
    pub fn count_sharers_exec(&self, loc: &str) -> (r: u64)
        ensures
            r as nat == count_sharers(self.entries(), loc@),
    {
        let ghost es = self.entries();
        let n = self.files.len();
        let mut c: u64 = 0;
        let mut i: usize = 0;
        proof {
            assert(es.take(0) =~= Seq::<EntryV>::empty());
        }
        while i < n
            invariant
                i <= n,
                n == self.files@.len(),
                es == self.entries(),
                c <= i,
                c as nat == count_sharers(es.take(i as int), loc@),
            decreases n - i,
        {
            proof {
                lemma_count_take_step(es, loc@, i as int);
                assert(self.entries()[i as int] == self.files@[i as int]@);
            }
            let e = &self.files[i];
            if matches!(e.kind, FileType::File) && str_eq(e.storage_path.as_str(), loc) {
                c = c + 1;
            }
            i = i + 1;
        }
        proof {
            lemma_count_take_all(es, loc@);
        }
        c
    }

    /// Is some row of `owner` already at logical path `p`?
    pub fn path_taken_exec(&self, owner: u64, p: &str) -> (r: bool)
        ensures
            r == path_taken(self.entries(), owner, p@),
    {
        let n = self.files.len();
        let mut i: usize = 0;
        while i < n
            invariant
                i <= n,
                n == self.files@.len(),
                forall|k: int|
                    0 <= k < i ==> !((#[trigger] self.entries()[k]).owner_id == owner
                        && self.entries()[k].path == p@),
            decreases n - i,
        {
            proof {
                assert(self.entries()[i as int] == self.files@[i as int]@);
            }
            let e = &self.files[i];
            if e.owner_id == owner && str_eq(e.path.as_str(), p) {
                return true;
            }
            i = i + 1;
        }
        false
    }

    /// Does some file row reference the blob at `loc`?
    pub fn storage_taken_exec(&self, loc: &str) -> (r: bool)
        ensures
            r == storage_taken(self.entries(), loc@),
    {
        let n = self.files.len();
        let mut i: usize = 0;
        while i < n
            invariant
                i <= n,
                n == self.files@.len(),
                forall|k: int| 0 <= k < i ==> !shares_loc(#[trigger] self.entries()[k], loc@),
            decreases n - i,
        {
            proof {
                assert(self.entries()[i as int] == self.files@[i as int]@);
            }
            let e = &self.files[i];
            if matches!(e.kind, FileType::File) && str_eq(e.storage_path.as_str(), loc) {
                return true;
            }
            i = i + 1;
        }
        false
    }

    /// Recomputes every row's reference count from the blob sharing that
    /// the rows themselves exhibit.
    pub(crate) fn refresh_ref_counts(&mut self)
        ensures
            final(self).next_id == old(self).next_id,
            final(self).grant_views() == old(self).grant_views(),
            final(self).entries() =~= with_counts(old(self).entries()),
            refs_consistent(final(self).entries()),
    {
        let ghost es0 = self.entries();
        let n = self.files.len();
        let mut counts: Vec<u64> = Vec::new();
        let mut i: usize = 0;
        while i < n
            invariant
                i <= n,
                n == self.files@.len(),
                es0 == self.entries(),
                counts@.len() == i as int,
                forall|j: int|
                    0 <= j < i ==> counts@[j] as nat == (if es0[j].kind == FileType::File {
                        count_sharers(es0, (#[trigger] es0[j]).storage_path)
                    } else {
                        0
                    }),
            decreases n - i,
        {
            proof {
                assert(self.entries()[i as int] == self.files@[i as int]@);
            }
            let c: u64 = if matches!(self.files[i].kind, FileType::File) {
                self.count_sharers_exec(self.files[i].storage_path.as_str())
            } else {
                0
            };
            counts.push(c);
            i = i + 1;
        }
        let mut k: usize = 0;
        while k < n
            invariant
                k <= n,
                n == self.files@.len(),
                counts@.len() == n as int,
                self.next_id == old(self).next_id,
                self.grant_views() == old(self).grant_views(),
                self.entries().len() == es0.len(),
                es0 == old(self).entries(),
                forall|j: int|
                    0 <= j < k ==> #[trigger] self.entries()[j] == with_counts(es0)[j],
                forall|j: int|
                    k <= j < n ==> #[trigger] self.entries()[j] == es0[j],
                forall|j: int|
                    0 <= j < n ==> counts@[j] as nat == (if es0[j].kind == FileType::File {
                        count_sharers(es0, (#[trigger] es0[j]).storage_path)
                    } else {
                        0
                    }),
            decreases n - k,
        {
            let ghost pre = *self;
            proof {
                assert forall|j: int| 0 <= j < n implies #[trigger] pre.entries()[j]
                    == pre.files@[j]@ by {}
                assert(count_sharers(es0, es0[k as int].storage_path) <= es0.len()) by {
                    lemma_count_le_len(es0, es0[k as int].storage_path);
                }
            }
            let mut e = self.files[k].clone();
            proof {
                assert(pre.entries()[k as int] == es0[k as int]);
                assert(pre.files@[k as int]@ == es0[k as int]);
                assert(e@ == pre.files@[k as int]@);
                assert(e@.id == es0[k as int].id);
            }
            e.ref_count = counts[k];
            let ghost ev = e@;
            proof {
                assert(ev.id == e@.id);
            }
            self.files[k] = e;
            proof {
                assert forall|j: int| 0 <= j < n implies #[trigger] self.entries()[j]
                    == self.files@[j]@ by {}
                assert(es0.len() == n as int);
                assert(self.entries()[k as int] == ev);
                assert(ev.id == es0[k as int].id);
                assert(ev.ref_count == counts@[k as int]);
                assert(with_counts(es0)[k as int].id == es0[k as int].id);
                assert(with_counts(es0)[k as int].ref_count == (if es0[k as int].kind
                    == FileType::File {
                    count_sharers(es0, es0[k as int].storage_path) as u64
                } else {
                    0u64
                }));
                assert(self.entries()[k as int] == with_counts(es0)[k as int]);
                assert forall|j: int| 0 <= j < n && j != k implies #[trigger] self.entries()[j]
                    == pre.entries()[j] by {
                    assert(self.files@[j] == pre.files@[j]);
                }
            }
            k = k + 1;
        }
        proof {
            assert(self.entries() =~= with_counts(es0));
            assert forall|x: int|
                0 <= x < self.entries().len() && (#[trigger] self.entries()[x]).kind
                    == FileType::File implies self.entries()[x].ref_count == count_sharers(
                self.entries(),
                self.entries()[x].storage_path,
            ) by {
                lemma_count_le_len(es0, es0[x].storage_path);
                lemma_count_congruent(
                    self.entries(),
                    es0,
                    self.entries()[x].storage_path,
                    es0[x].storage_path,
                );
            }
        }
    }
}


/// Recomputing reference counts keeps every other invariant and
/// establishes count consistency.
pub proof fn lemma_with_counts_wf(es: Seq<EntryV>)
    requires
        es.len() < 0x10000000000000000,
        ids_unique(es),
        paths_unique(es),
        shapes_ok(es),
        hashes_consistent(es),
    ensures
        with_counts(es).len() == es.len(),
        forall|i: int|
            0 <= i < es.len() ==> #[trigger] with_counts(es)[i] == (EntryV {
                ref_count: if es[i].kind == FileType::File {
                    count_sharers(es, es[i].storage_path) as u64
                } else {
                    0
                },
                ..es[i]
            }),
        ids_unique(with_counts(es)),
        paths_unique(with_counts(es)),
        shapes_ok(with_counts(es)),
        hashes_consistent(with_counts(es)),
        refs_consistent(with_counts(es)),
{
    let w = with_counts(es);
    assert forall|i: int| 0 <= i < es.len() implies entry_shape_ok(#[trigger] w[i]) by {
        assert(entry_shape_ok(es[i]));
    }
    assert forall|i: int|
        0 <= i < w.len() && (#[trigger] w[i]).kind == FileType::File implies w[i].ref_count
        == count_sharers(w, w[i].storage_path) by {
        lemma_count_le_len(es, es[i].storage_path);
        lemma_count_congruent(w, es, w[i].storage_path, es[i].storage_path);
    }
}

} // verus!
