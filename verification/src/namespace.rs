//! Namespace-tree mutations: rename, move and copy, cascading over a
//! folder's whole subtree. A cascade rewrites logical paths by prefix,
//! repoints the physical locations that lie under the moved directory
//! (all sharers of a blob move together), and refuses destinations whose
//! logical or physical region is already occupied.

use vstd::prelude::*;

use crate::entry::EntryV;
use crate::entry::entry_shape_ok;
use crate::entry::FileEntry;
use crate::entry::count_sharers;
use crate::entry::lemma_count_congruent;
use crate::entry::shares_loc;
use crate::errors::FsError;
use crate::models::FileType;
use crate::models::Permission;
use crate::models::Role;
use crate::paths::descends_from;
use crate::paths::dir_of;
use crate::paths::is_descendant_path;
use crate::paths::is_dir_path;
use crate::paths::lemma_replace_prefix_injective;
use crate::paths::rebase_path;
use crate::paths::replace_prefix;
use crate::paths::valid_entry_path;
use crate::store::Store;
use crate::store::entry_idx;
use crate::store::lemma_entry_idx;
use crate::strutil::str_eq;

verus! {

/// Is `s` the path `p` itself or inside its subtree?
pub open spec fn under_eq(s: Seq<char>, p: Seq<char>) -> bool {
    s == p || descends_from(s, p)
}

/// Is row `e` logically carried along when `owner`'s subtree at `oldp`
/// relocates?
pub open spec fn log_moved(e: EntryV, owner: u64, oldp: Seq<char>) -> bool {
    e.owner_id == owner && under_eq(e.path, oldp)
}

/// Is row `e` physically carried along when the directory at `old_s`
/// relocates? (Every sharer of a blob under it, whoever owns the row.)
pub open spec fn phys_moved(e: EntryV, old_s: Seq<char>) -> bool {
    under_eq(e.storage_path, old_s)
}

/// A location mapped through the physical relocation.
pub open spec fn smap(s: Seq<char>, old_s: Seq<char>, new_s: Seq<char>) -> Seq<char> {
    if under_eq(s, old_s) {
        replace_prefix(s, old_s, new_s)
    } else {
        s
    }
}

/// The logical destination region is free: no unmoved row of the owner
/// sits at `newp` or below it.
pub open spec fn dest_clear(es: Seq<EntryV>, owner: u64, oldp: Seq<char>, newp: Seq<char>) -> bool {
    forall|j: int|
        0 <= j < es.len() && (#[trigger] es[j]).owner_id == owner && !log_moved(es[j], owner, oldp)
            ==> !under_eq(es[j].path, newp)
}

/// The physical destination region is free: no unmoved row references a
/// location at `new_s` or below it.
pub open spec fn phys_clear(es: Seq<EntryV>, old_s: Seq<char>, new_s: Seq<char>) -> bool {
    forall|j: int|
        0 <= j < es.len() && !phys_moved(#[trigger] es[j], old_s) ==> !under_eq(
            es[j].storage_path,
            new_s,
        )
}

/// One row after the relocation.
pub open spec fn relocate_row(
    e: EntryV,
    owner: u64,
    oldp: Seq<char>,
    newp: Seq<char>,
    new_name: Seq<char>,
    new_parent: Seq<char>,
    old_s: Seq<char>,
    new_s: Seq<char>,
    now: i64,
) -> EntryV {
    let lm = log_moved(e, owner, oldp);
    let pm = phys_moved(e, old_s);
    let is_root = e.owner_id == owner && e.path == oldp;
    EntryV {
        name: if is_root {
            new_name
        } else {
            e.name
        },
        path: if lm {
            replace_prefix(e.path, oldp, newp)
        } else {
            e.path
        },
        parent_path: if is_root {
            new_parent
        } else if lm {
            replace_prefix(e.parent_path, oldp, newp)
        } else {
            e.parent_path
        },
        storage_path: if pm {
            replace_prefix(e.storage_path, old_s, new_s)
        } else {
            e.storage_path
        },
        updated_at: if lm || pm {
            now
        } else {
            e.updated_at
        },
        ..e
    }
}

/// Every row after the relocation.
pub open spec fn relocate_all(
    es: Seq<EntryV>,
    owner: u64,
    oldp: Seq<char>,
    newp: Seq<char>,
    new_name: Seq<char>,
    new_parent: Seq<char>,
    old_s: Seq<char>,
    new_s: Seq<char>,
    now: i64,
) -> Seq<EntryV> {
    Seq::new(
        es.len(),
        |j: int| relocate_row(es[j], owner, oldp, newp, new_name, new_parent, old_s, new_s, now),
    )
}

/// A location inside the moved region maps under the destination; the
/// mapping never identifies distinct locations (given clear regions).
pub proof fn lemma_smap_inj(s1: Seq<char>, s2: Seq<char>, old_s: Seq<char>, new_s: Seq<char>)
    requires
        !under_eq(s1, old_s) ==> !under_eq(s1, new_s),
        !under_eq(s2, old_s) ==> !under_eq(s2, new_s),
    ensures
        (smap(s1, old_s, new_s) == smap(s2, old_s, new_s)) <==> (s1 == s2),
{
    if under_eq(s1, old_s) {
        lemma_smap_under(s1, old_s, new_s);
    }
    if under_eq(s2, old_s) {
        lemma_smap_under(s2, old_s, new_s);
    }
    if under_eq(s1, old_s) && under_eq(s2, old_s) && s1 != s2 {
        lemma_under_eq_prefix(s1, old_s);
        lemma_under_eq_prefix(s2, old_s);
        lemma_replace_prefix_injective(s1, s2, old_s, new_s);
        assert(replace_prefix(s1, old_s, new_s) != replace_prefix(s2, old_s, new_s));
    }
}

/// A location under the source maps to one under the destination.
pub proof fn lemma_smap_under(s: Seq<char>, old_s: Seq<char>, new_s: Seq<char>)
    requires
        under_eq(s, old_s),
    ensures
        under_eq(replace_prefix(s, old_s, new_s), new_s),
        s == old_s ==> replace_prefix(s, old_s, new_s) == new_s,
{
    let r = replace_prefix(s, old_s, new_s);
    if s == old_s {
        assert(r =~= new_s);
    } else {
        assert(r.subrange(0, new_s.len() as int) =~= new_s);
        assert(r[new_s.len() as int] == s[old_s.len() as int]);
    }
}

/// A subrange-prefix fact needed before rewriting a path.
pub proof fn lemma_under_eq_prefix(s: Seq<char>, p: Seq<char>)
    requires
        under_eq(s, p),
    ensures
        p.len() <= s.len(),
        s.subrange(0, p.len() as int) == p,
{
    if s == p {
        assert(s.subrange(0, p.len() as int) =~= p);
    }
}

impl Store {
    /// Is the logical destination region of a relocation free?
    fn dest_clear_exec(&self, owner: u64, oldp: &str, newp: &str) -> (r: bool)
        ensures
            r == dest_clear(self.entries(), owner, oldp@, newp@),
    {
        let n = self.files.len();
        let mut j: usize = 0;
        while j < n
            invariant
                j <= n,
                n == self.files@.len(),
                forall|q: int|
                    0 <= q < j && (#[trigger] self.entries()[q]).owner_id == owner && !log_moved(
                        self.entries()[q],
                        owner,
                        oldp@,
                    ) ==> !under_eq(self.entries()[q].path, newp@),
            decreases n - j,
        {
            proof {
                assert(self.entries()[j as int] == self.files@[j as int]@);
            }
            let e = &self.files[j];
            if e.owner_id == owner {
                let lm: bool = str_eq(e.path.as_str(), oldp) || is_descendant_path(
                    e.path.as_str(),
                    oldp,
                );
                let hits: bool = str_eq(e.path.as_str(), newp) || is_descendant_path(
                    e.path.as_str(),
                    newp,
                );
                if !lm && hits {
                    return false;
                }
            }
            j = j + 1;
        }
        true
    }

    /// Is the physical destination region of a relocation free?
    fn phys_clear_exec(&self, old_s: &str, new_s: &str) -> (r: bool)
        ensures
            r == phys_clear(self.entries(), old_s@, new_s@),
    {
        let n = self.files.len();
        let mut j: usize = 0;
        while j < n
            invariant
                j <= n,
                n == self.files@.len(),
                forall|q: int|
                    0 <= q < j && !phys_moved(#[trigger] self.entries()[q], old_s@) ==> !under_eq(
                        self.entries()[q].storage_path,
                        new_s@,
                    ),
            decreases n - j,
        {
            proof {
                assert(self.entries()[j as int] == self.files@[j as int]@);
            }
            let e = &self.files[j];
            let pm: bool = str_eq(e.storage_path.as_str(), old_s) || is_descendant_path(
                e.storage_path.as_str(),
                old_s,
            );
            let hits: bool = str_eq(e.storage_path.as_str(), new_s) || is_descendant_path(
                e.storage_path.as_str(),
                new_s,
            );
            if !pm && hits {
                return false;
            }
            j = j + 1;
        }
        true
    }
}


impl Store {
    /// Applies a relocation of the subtree rooted at row `i` to the
    /// logical destination `newp` (renamed to `new_name` under
    /// `new_parent`) and the physical destination `new_storage`, after
    /// confirming both destination regions are free.
    #[verifier::rlimit(100)]
    fn relocate_subtree(
        &mut self,
        i: usize,
        new_name: &str,
        new_parent: &str,
        newp: &str,
        new_storage: &str,
        now: i64,
    ) -> (ok: bool)
        requires
            old(self).wf(),
            i < old(self).files@.len(),
            valid_entry_path(newp@),
            is_dir_path(new_parent@),
            dir_of(newp@) == new_parent@,
        ensures
            final(self).wf(),
            final(self).next_id == old(self).next_id,
            final(self).grant_views() == old(self).grant_views(),
            ({
                let es = old(self).entries();
                let e = es[i as int];
                &&& ok == (dest_clear(es, e.owner_id, e.path, newp@) && phys_clear(
                    es,
                    e.storage_path,
                    new_storage@,
                ))
                &&& (!ok ==> *final(self) == *old(self))
                &&& (ok ==> final(self).entries() =~= relocate_all(
                    es,
                    e.owner_id,
                    e.path,
                    newp@,
                    new_name@,
                    new_parent@,
                    e.storage_path,
                    new_storage@,
                    now,
                ))
            }),
    {
        let ghost es = old(self).entries();
        proof {
            assert(self.entries()[i as int] == self.files@[i as int]@);
        }
        let owner = self.files[i].owner_id;
        let oldp = self.files[i].path.clone();
        let olds = self.files[i].storage_path.clone();
        if !self.dest_clear_exec(owner, oldp.as_str(), newp) {
            return false;
        }
        if !self.phys_clear_exec(olds.as_str(), new_storage) {
            return false;
        }
        let ghost opv = oldp@;
        let ghost osv = olds@;
        let ghost target = relocate_all(
            es,
            owner,
            opv,
            newp@,
            new_name@,
            new_parent@,
            osv,
            new_storage@,
            now,
        );
        proof {
            assert(entry_shape_ok(es[i as int]));
        }
        let n = self.files.len();
        let mut k: usize = 0;
        while k < n
            invariant
                es == old(self).entries(),
                old(self).wf(),
                opv == oldp@,
                osv == olds@,
                valid_entry_path(opv),
                valid_entry_path(newp@),
                is_dir_path(new_parent@),
                dir_of(newp@) == new_parent@,
                owner == es[i as int].owner_id && i < n,
                opv == es[i as int].path,
                target == relocate_all(
                    es,
                    owner,
                    opv,
                    newp@,
                    new_name@,
                    new_parent@,
                    osv,
                    new_storage@,
                    now,
                ),
                k <= n,
                n == self.files@.len(),
                self.files@.len() == es.len(),
                self.next_id == old(self).next_id,
                self.grant_views() == old(self).grant_views(),
                forall|j: int| 0 <= j < k ==> #[trigger] self.entries()[j] == target[j],
                forall|j: int| k <= j < n ==> #[trigger] self.entries()[j] == es[j],
            decreases n - k,
        {
            let ghost pre = *self;
            proof {
                assert forall|j: int| 0 <= j < n implies #[trigger] pre.entries()[j]
                    == pre.files@[j]@ by {}
            }
            let mut e = self.files[k].clone();
            let lm: bool = e.owner_id == owner && (str_eq(e.path.as_str(), oldp.as_str())
                || is_descendant_path(e.path.as_str(), oldp.as_str()));
            let pm: bool = str_eq(e.storage_path.as_str(), olds.as_str()) || is_descendant_path(
                e.storage_path.as_str(),
                olds.as_str(),
            );
            let is_root: bool = e.owner_id == owner && str_eq(e.path.as_str(), oldp.as_str());
            proof {
                assert(pre.entries()[k as int] == es[k as int]);
                assert(e@ == es[k as int]);
                assert(lm == log_moved(es[k as int], owner, opv));
                assert(pm == phys_moved(es[k as int], osv));
                assert(is_root == (es[k as int].owner_id == owner && es[k as int].path == opv));
                if lm && !is_root {
                    assert(entry_shape_ok(es[k as int]));
                    assert(descends_from(es[k as int].path, opv));
                    crate::paths::lemma_dir_of_rebase(es[k as int].path, opv, newp@);
                }
            }
            if is_root {
                e.name = new_name.to_owned();
            }
            if lm {
                let np = rebase_path(e.path.as_str(), oldp.as_str(), newp);
                if is_root {
                    e.parent_path = new_parent.to_owned();
                } else {
                    proof {
                        crate::namespace::lemma_under_eq_prefix(es[k as int].parent_path, opv);
                    }
                    e.parent_path = rebase_path(e.parent_path.as_str(), oldp.as_str(), newp);
                }
                e.path = np;
            }
            if pm {
                e.storage_path = rebase_path(e.storage_path.as_str(), olds.as_str(), new_storage);
            }
            if lm || pm {
                e.updated_at = now;
            }
            let ghost ev = e@;
            self.files[k] = e;
            proof {
                assert forall|j: int| 0 <= j < n implies #[trigger] self.entries()[j]
                    == self.files@[j]@ by {}
                assert(ev == relocate_row(
                    es[k as int],
                    owner,
                    opv,
                    newp@,
                    new_name@,
                    new_parent@,
                    osv,
                    new_storage@,
                    now,
                ));
                assert(self.entries()[k as int] == target[k as int]);
                assert forall|j: int| 0 <= j < n && j != k implies #[trigger] self.entries()[j]
                    == pre.entries()[j] by {
                    assert(self.files@[j] == pre.files@[j]);
                }
            }
            k = k + 1;
        }
        proof {
            let ne = self.entries();
            assert(ne =~= target);
            assert forall|j: int| 0 <= j < es.len() implies #[trigger] ne[j] == relocate_row(
                es[j],
                owner,
                opv,
                newp@,
                new_name@,
                new_parent@,
                osv,
                new_storage@,
                now,
            ) by {}
            // ids are untouched
            assert forall|a: int, b: int| 0 <= a < b < ne.len() implies #[trigger] ne[a].id
                != #[trigger] ne[b].id by {
                assert(ne[a].id == es[a].id && ne[b].id == es[b].id);
            }
            // per-owner paths stay unique: moved paths land inside the
            // cleared destination region, unmoved ones stay outside it
            assert forall|a: int, b: int| 0 <= a < b < ne.len() implies !((#[trigger] ne[a]).owner_id
                == (#[trigger] ne[b]).owner_id && ne[a].path == ne[b].path) by {
                if ne[a].owner_id == ne[b].owner_id {
                    let la = log_moved(es[a], owner, opv);
                    let lb = log_moved(es[b], owner, opv);
                    if la {
                        lemma_under_eq_prefix(es[a].path, opv);
                        lemma_smap_under(es[a].path, opv, newp@);
                    }
                    if lb {
                        lemma_under_eq_prefix(es[b].path, opv);
                        lemma_smap_under(es[b].path, opv, newp@);
                    }
                    if la && lb {
                        if es[a].path != es[b].path {
                            lemma_replace_prefix_injective(es[a].path, es[b].path, opv, newp@);
                        } else {
                            assert(false);
                        }
                    }
                }
            }
            // shapes: rewritten paths are well formed and parents follow
            assert forall|j: int| 0 <= j < ne.len() implies entry_shape_ok(#[trigger] ne[j]) by {
                assert(entry_shape_ok(es[j]));
                if log_moved(es[j], owner, opv) {
                    assert(entry_shape_ok(es[i as int]));
                    crate::paths::lemma_rebase_valid(es[j].path, opv, newp@);
                    if es[j].owner_id == owner && es[j].path == opv {
                        lemma_smap_under(es[j].path, opv, newp@);
                    } else {
                        crate::paths::lemma_dir_of_rebase(es[j].path, opv, newp@);
                    }
                }
            }
            // blob sharing is preserved: the location mapping is injective
            assert forall|a: int, b: int|
                0 <= a < ne.len() && 0 <= b < ne.len() && (#[trigger] ne[a]).kind == FileType::File
                    && (#[trigger] ne[b]).kind == FileType::File && ne[a].storage_path
                    == ne[b].storage_path implies ne[a].content_hash == ne[b].content_hash by {
                lemma_smap_inj(es[a].storage_path, es[b].storage_path, osv, new_storage@);
                assert(ne[a].storage_path == smap(es[a].storage_path, osv, new_storage@));
                assert(ne[b].storage_path == smap(es[b].storage_path, osv, new_storage@));
            }
            assert forall|x: int|
                0 <= x < ne.len() && (#[trigger] ne[x]).kind == FileType::File implies ne[
            x].ref_count == count_sharers(ne, ne[x].storage_path) by {
                assert forall|j: int| 0 <= j < ne.len() implies shares_loc(
                    #[trigger] ne[j],
                    ne[x].storage_path,
                ) == shares_loc(es[j], es[x].storage_path) by {
                    lemma_smap_inj(es[j].storage_path, es[x].storage_path, osv, new_storage@);
                    assert(ne[j].storage_path == smap(es[j].storage_path, osv, new_storage@));
                    assert(ne[x].storage_path == smap(es[x].storage_path, osv, new_storage@));
                }
                lemma_count_congruent(ne, es, ne[x].storage_path, es[x].storage_path);
            }
        }
        true
    }
}



impl Store {
    /// Renames the row with id `file_id` (and, for a folder, relocates
    /// its whole subtree) to `new_name` within its parent directory.
    /// Renaming onto an occupied logical or physical destination is
    /// rejected with `Conflict` and nothing changes.
    pub fn rename_file(
        &mut self,
        user_id: u64,
        role: Role,
        file_id: u64,
        new_name: &str,
        storage_root: &str,
        now: i64,
    ) -> (r: Result<(), FsError>)
        requires
            old(self).wf(),
        ensures
            final(self).wf(),
            final(self).next_id == old(self).next_id,
            final(self).grant_views() == old(self).grant_views(),
            ({
                let es = old(self).entries();
                let gs = old(self).grant_views();
                if !crate::paths::valid_name(new_name@) {
                    r == Result::<(), FsError>::Err(FsError::PathTraversal) && *final(self) == *old(
                        self,
                    )
                } else {
                    let i = entry_idx(es, file_id);
                    if i < 0 {
                        r == Result::<(), FsError>::Err(FsError::NotFound) && *final(self) == *old(
                            self,
                        )
                    } else if !crate::store::has_right(gs, user_id, role, es[i], Permission::Write) {
                        r == Result::<(), FsError>::Err(FsError::PermissionDenied) && *final(self)
                            == *old(self)
                    } else {
                        let e = es[i];
                        let newp = crate::paths::join_spec(dir_of(e.path), new_name@);
                        let news = crate::paths::physical_of(storage_root@, e.owner_id, newp);
                        if newp == e.path {
                            r == Result::<(), FsError>::Ok(()) && *final(self) == *old(self)
                        } else if !(dest_clear(es, e.owner_id, e.path, newp) && phys_clear(
                            es,
                            e.storage_path,
                            news,
                        )) {
                            r == Result::<(), FsError>::Err(FsError::Conflict) && *final(self)
                                == *old(self)
                        } else {
                            r == Result::<(), FsError>::Ok(()) && final(self).entries()
                                =~= relocate_all(
                                es,
                                e.owner_id,
                                e.path,
                                newp,
                                new_name@,
                                dir_of(e.path),
                                e.storage_path,
                                news,
                                now,
                            )
                        }
                    }
                }
            }),
    {
        let ghost es = old(self).entries();
        if !crate::content::check_name(new_name) {
            return Err(FsError::PathTraversal);
        }
        proof {
            lemma_entry_idx(es, file_id);
        }
        let i = match self.find_index(file_id) {
            Some(i) => i,
            None => {
                return Err(FsError::NotFound);
            },
        };
        proof {
            assert(self.entries()[i as int] == self.files@[i as int]@);
        }
        let (_, can_write, _) = self.get_file_permissions(user_id, role, &self.files[i]);
        if !can_write {
            return Err(FsError::PermissionDenied);
        }
        proof {
            assert(entry_shape_ok(es[i as int]));
            crate::paths::lemma_dir_of_valid(es[i as int].path);
        }
        let parent = self.files[i].parent_path.clone();
        let newp = crate::paths::join_under(parent.as_str(), new_name);
        proof {
            crate::paths::lemma_join_valid(parent@, new_name@);
            crate::paths::lemma_dir_of_join(parent@, new_name@);
        }
        if str_eq(newp.as_str(), self.files[i].path.as_str()) {
            return Ok(());
        }
        let owner = self.files[i].owner_id;
        let news = crate::paths::physical_location(storage_root, owner, newp.as_str());
        if self.relocate_subtree(i, new_name, parent.as_str(), newp.as_str(), news.as_str(), now) {
            Ok(())
        } else {
            Err(FsError::Conflict)
        }
    }

    /// Moves the row with id `file_id` (and, for a folder, its whole
    /// subtree) under the destination directory, keeping its name. An
    /// occupied logical or physical destination is rejected with
    /// `Conflict` and nothing changes.
    pub fn move_file(
        &mut self,
        user_id: u64,
        role: Role,
        file_id: u64,
        destination_path: &str,
        storage_root: &str,
        now: i64,
    ) -> (r: Result<(), FsError>)
        requires
            old(self).wf(),
        ensures
            final(self).wf(),
            final(self).next_id == old(self).next_id,
            final(self).grant_views() == old(self).grant_views(),
            ({
                let es = old(self).entries();
                let gs = old(self).grant_views();
                if crate::paths::path_rejected(destination_path@) {
                    r == Result::<(), FsError>::Err(FsError::PathTraversal) && *final(self) == *old(
                        self,
                    )
                } else {
                    let i = entry_idx(es, file_id);
                    if i < 0 {
                        r == Result::<(), FsError>::Err(FsError::NotFound) && *final(self) == *old(
                            self,
                        )
                    } else if !crate::store::has_right(gs, user_id, role, es[i], Permission::Write) {
                        r == Result::<(), FsError>::Err(FsError::PermissionDenied) && *final(self)
                            == *old(self)
                    } else {
                        let e = es[i];
                        let dest = crate::paths::dir_canon(
                            crate::paths::canonical_path_of(destination_path@),
                        );
                        let newp = crate::paths::join_spec(dest, e.name);
                        let news = crate::paths::physical_of(storage_root@, e.owner_id, newp);
                        if !crate::paths::valid_name(e.name) {
                            r == Result::<(), FsError>::Err(FsError::Inconsistent) && *final(self)
                                == *old(self)
                        } else if newp == e.path {
                            r == Result::<(), FsError>::Ok(()) && *final(self) == *old(self)
                        } else if !(dest_clear(es, e.owner_id, e.path, newp) && phys_clear(
                            es,
                            e.storage_path,
                            news,
                        )) {
                            r == Result::<(), FsError>::Err(FsError::Conflict) && *final(self)
                                == *old(self)
                        } else {
                            r == Result::<(), FsError>::Ok(()) && final(self).entries()
                                =~= relocate_all(
                                es,
                                e.owner_id,
                                e.path,
                                newp,
                                e.name,
                                dest,
                                e.storage_path,
                                news,
                                now,
                            )
                        }
                    }
                }
            }),
    {
        let ghost es = old(self).entries();
        let dest_norm = match crate::paths::sanitize_path(destination_path) {
            Ok(p) => p,
            Err(e) => {
                return Err(e);
            },
        };
        proof {
            lemma_entry_idx(es, file_id);
        }
        let i = match self.find_index(file_id) {
            Some(i) => i,
            None => {
                return Err(FsError::NotFound);
            },
        };
        proof {
            assert(self.entries()[i as int] == self.files@[i as int]@);
        }
        let (_, can_write, _) = self.get_file_permissions(user_id, role, &self.files[i]);
        if !can_write {
            return Err(FsError::PermissionDenied);
        }
        proof {
            assert(entry_shape_ok(es[i as int]));
        }
        let name = self.files[i].name.clone();
        if !crate::content::check_name(name.as_str()) {
            return Err(FsError::Inconsistent);
        }
        let dest = crate::paths::canon_dir(dest_norm.as_str());
        let newp = crate::paths::join_under(dest.as_str(), name.as_str());
        proof {
            crate::paths::lemma_join_valid(dest@, name@);
            crate::paths::lemma_dir_of_join(dest@, name@);
        }
        if str_eq(newp.as_str(), self.files[i].path.as_str()) {
            return Ok(());
        }
        let owner = self.files[i].owner_id;
        let news = crate::paths::physical_location(storage_root, owner, newp.as_str());
        if self.relocate_subtree(i, name.as_str(), dest.as_str(), newp.as_str(), news.as_str(), now)
             {
            Ok(())
        } else {
            Err(FsError::Conflict)
        }
    }
}



/// One copied row: the source row re-rooted under the copy destination,
/// owned by the copier, with fresh derived storage and one reference.
pub open spec fn copied_row(
    e: EntryV,
    owner_new: u64,
    oldp: Seq<char>,
    newp: Seq<char>,
    cand: Seq<char>,
    dest: Seq<char>,
    root: Seq<char>,
    id: u64,
    now: i64,
) -> EntryV {
    let is_root = e.path == oldp;
    let np = replace_prefix(e.path, oldp, newp);
    EntryV {
        id,
        owner_id: owner_new,
        name: if is_root {
            cand
        } else {
            e.name
        },
        path: np,
        parent_path: if is_root {
            dest
        } else {
            replace_prefix(e.parent_path, oldp, newp)
        },
        kind: e.kind,
        mime_type: e.mime_type,
        size_bytes: e.size_bytes,
        storage_path: crate::paths::physical_of(root, owner_new, np),
        content_hash: e.content_hash,
        ref_count: if e.kind == FileType::File {
            1
        } else {
            0
        },
        created_at: now,
        updated_at: now,
    }
}

/// The block of rows a folder copy appends, ids counted from `base_id`.
pub open spec fn copy_rows(
    reg: Seq<EntryV>,
    owner_new: u64,
    oldp: Seq<char>,
    newp: Seq<char>,
    cand: Seq<char>,
    dest: Seq<char>,
    root: Seq<char>,
    base_id: u64,
    now: i64,
) -> Seq<EntryV> {
    Seq::new(
        reg.len(),
        |t: int|
            copied_row(reg[t], owner_new, oldp, newp, cand, dest, root, (base_id + t) as u64, now),
    )
}

/// The copier has no row at or below the copy destination.
pub open spec fn copy_dest_clear(es: Seq<EntryV>, owner_new: u64, newp: Seq<char>) -> bool {
    forall|j: int|
        0 <= j < es.len() && (#[trigger] es[j]).owner_id == owner_new ==> !under_eq(
            es[j].path,
            newp,
        )
}

/// No row references a location at or below the copy's physical root.
pub open spec fn copy_phys_clear(es: Seq<EntryV>, new_s: Seq<char>) -> bool {
    forall|j: int| 0 <= j < es.len() ==> !under_eq((#[trigger] es[j]).storage_path, new_s)
}

/// Concatenations with one left part agree only on equal right parts.
pub proof fn lemma_append_left_cancel(a: Seq<char>, b: Seq<char>, c: Seq<char>)
    requires
        a + b == a + c,
    ensures
        b == c,
{
    assert((a + b).len() == a.len() + b.len());
    assert((a + c).len() == a.len() + c.len());
    assert(b.len() == c.len());
    assert forall|k: int| 0 <= k < b.len() implies b[k] == c[k] by {
        assert(b[k] == (a + b)[a.len() + k]);
        assert(c[k] == (a + c)[a.len() + k]);
    }
    assert(b =~= c);
}

impl Store {
    /// Has the copier no row at or below the copy destination?
    fn copy_dest_clear_exec(&self, owner_new: u64, newp: &str) -> (r: bool)
        ensures
            r == copy_dest_clear(self.entries(), owner_new, newp@),
    {
        let n = self.files.len();
        let mut j: usize = 0;
        while j < n
            invariant
                j <= n,
                n == self.files@.len(),
                forall|q: int|
                    0 <= q < j && (#[trigger] self.entries()[q]).owner_id == owner_new
                        ==> !under_eq(self.entries()[q].path, newp@),
            decreases n - j,
        {
            proof {
                assert(self.entries()[j as int] == self.files@[j as int]@);
            }
            let e = &self.files[j];
            if e.owner_id == owner_new && (str_eq(e.path.as_str(), newp) || is_descendant_path(
                e.path.as_str(),
                newp,
            )) {
                return false;
            }
            j = j + 1;
        }
        true
    }

    /// Does no row reference a location at or below the copy's physical
    /// root?
    fn copy_phys_clear_exec(&self, new_s: &str) -> (r: bool)
        ensures
            r == copy_phys_clear(self.entries(), new_s@),
    {
        let n = self.files.len();
        let mut j: usize = 0;
        while j < n
            invariant
                j <= n,
                n == self.files@.len(),
                forall|q: int|
                    0 <= q < j ==> !under_eq(
                        (#[trigger] self.entries()[q]).storage_path,
                        new_s@,
                    ),
            decreases n - j,
        {
            proof {
                assert(self.entries()[j as int] == self.files@[j as int]@);
            }
            let e = &self.files[j];
            if str_eq(e.storage_path.as_str(), new_s) || is_descendant_path(
                e.storage_path.as_str(),
                new_s,
            ) {
                return false;
            }
            j = j + 1;
        }
        true
    }

    /// Creates a folder named `name` under the requested directory for
    /// `user_id`. An occupied logical path is rejected with `Conflict`.
    pub fn create_folder(
        &mut self,
        user_id: u64,
        parent_raw: &str,
        name: &str,
        storage_root: &str,
        now: i64,
    ) -> (r: Result<u64, FsError>)
        requires
            old(self).wf(),
            old(self).next_id < u64::MAX,
        ensures
            final(self).wf(),
            final(self).grant_views() == old(self).grant_views(),
            ({
                let es = old(self).entries();
                if !crate::paths::valid_name(name@) || crate::paths::path_rejected(parent_raw@) {
                    r == Result::<u64, FsError>::Err(FsError::PathTraversal) && *final(self) == *old(
                        self,
                    )
                } else {
                    let parent = crate::paths::dir_canon(
                        crate::paths::canonical_path_of(parent_raw@),
                    );
                    let p = crate::paths::join_spec(parent, name@);
                    if crate::store::path_taken(es, user_id, p) {
                        r == Result::<u64, FsError>::Err(FsError::Conflict) && *final(self) == *old(
                            self,
                        )
                    } else {
                        &&& r == Result::<u64, FsError>::Ok(old(self).next_id)
                        &&& final(self).next_id == old(self).next_id + 1
                        &&& final(self).entries() =~= es.push(
                            EntryV {
                                id: old(self).next_id,
                                owner_id: user_id,
                                name: name@,
                                path: p,
                                parent_path: parent,
                                kind: FileType::Folder,
                                mime_type: None,
                                size_bytes: None,
                                storage_path: crate::paths::physical_of(
                                    storage_root@,
                                    user_id,
                                    p,
                                ),
                                content_hash: None,
                                ref_count: 0,
                                created_at: now,
                                updated_at: now,
                            },
                        )
                    }
                }
            }),
    {
        let ghost es = old(self).entries();
        if !crate::content::check_name(name) {
            return Err(FsError::PathTraversal);
        }
        let parent_norm = match crate::paths::sanitize_path(parent_raw) {
            Ok(p) => p,
            Err(e) => {
                return Err(e);
            },
        };
        let parent = crate::paths::canon_dir(parent_norm.as_str());
        let p = crate::paths::join_under(parent.as_str(), name);
        proof {
            crate::paths::lemma_join_valid(parent@, name@);
            crate::paths::lemma_dir_of_join(parent@, name@);
        }
        if self.path_taken_exec(user_id, p.as_str()) {
            return Err(FsError::Conflict);
        }
        let loc = crate::paths::physical_location(storage_root, user_id, p.as_str());
        let id = self.next_id;
        let e = FileEntry {
            id,
            owner_id: user_id,
            name: name.to_owned(),
            path: p,
            parent_path: parent,
            kind: FileType::Folder,
            mime_type: None,
            size_bytes: None,
            storage_path: loc,
            content_hash: None,
            ref_count: 0,
            created_at: now,
            updated_at: now,
        };
        let ghost ev = e@;
        self.files.push(e);
        self.next_id = self.next_id + 1;
        proof {
            let ne = self.entries();
            assert(ne =~= es.push(ev));
            assert forall|a: int| 0 <= a < es.len() implies #[trigger] ne[a] == es[a] by {}
            assert(ne[es.len() as int] == ev);
            assert forall|a: int, b: int| 0 <= a < b < ne.len() implies !((#[trigger] ne[a]).owner_id
                == (#[trigger] ne[b]).owner_id && ne[a].path == ne[b].path) by {
                if b == es.len() as int {
                    if ne[a].owner_id == user_id && ne[a].path == ev.path {
                        assert(crate::store::path_taken(es, user_id, ev.path));
                    }
                }
            }
            assert forall|x: int|
                0 <= x < ne.len() && (#[trigger] ne[x]).kind == FileType::File implies ne[
            x].ref_count == count_sharers(ne, ne[x].storage_path) by {
                crate::entry::lemma_count_push(es, ev, ne[x].storage_path);
            }
        }
        Ok(id)
    }
}



impl Store {
    /// Builds the rows a copy of the subtree at row `i` appends, ids
    /// counted from the store's next id.
    #[verifier::rlimit(100)]
    fn build_copy_block(
        &self,
        i: usize,
        owner_new: u64,
        oldp: &str,
        newp: &str,
        cand: &str,
        dest: &str,
        storage_root: &str,
        now: i64,
    ) -> (fresh: Vec<FileEntry>)
        requires
            self.wf(),
            i < self.files@.len(),
            oldp@ == self.entries()[i as int].path,
            valid_entry_path(newp@),
            is_dir_path(dest@),
            dir_of(newp@) == dest@,
            self.next_id + self.files@.len() < u64::MAX,
        ensures
            crate::content::views_of(fresh@) =~= copy_rows(
                crate::content::region_rows(
                    self.entries(),
                    self.entries()[i as int].owner_id,
                    self.entries()[i as int].path,
                ),
                owner_new,
                self.entries()[i as int].path,
                newp@,
                cand@,
                dest@,
                storage_root@,
                self.next_id,
                now,
            ),
            fresh@.len() <= self.files@.len(),
    {
        let ghost es = self.entries();
        proof {
            assert(self.entries()[i as int] == self.files@[i as int]@);
            assert(entry_shape_ok(es[i as int]));
        }
        let owner = self.files[i].owner_id;
        let ghost opv = oldp@;
        let base_id = self.next_id;
        let n = self.files.len();
        let mut fresh: Vec<FileEntry> = Vec::new();
        let mut j: usize = 0;
        proof {
            assert(es.take(0) =~= Seq::<EntryV>::empty());
        }
        while j < n
            invariant
                es == self.entries(),
                self.wf(),
                opv == oldp@,
                valid_entry_path(opv),
                valid_entry_path(newp@),
                is_dir_path(dest@),
                dir_of(newp@) == dest@,
                owner == es[i as int].owner_id && i < n,
                opv == es[i as int].path,
                j <= n,
                n == self.files@.len(),
                n == es.len(),
                base_id == self.next_id,
                base_id + n < u64::MAX,
                fresh@.len() == crate::content::region_rows(es.take(j as int), owner, opv).len(),
                fresh@.len() <= j as int,
                crate::content::views_of(fresh@) =~= copy_rows(
                    crate::content::region_rows(es.take(j as int), owner, opv),
                    owner_new,
                    opv,
                    newp@,
                    cand@,
                    dest@,
                    storage_root@,
                    base_id,
                    now,
                ),
            decreases n - j,
        {
            proof {
                assert(self.entries()[j as int] == self.files@[j as int]@);
                crate::content::lemma_region_take_step(es, owner, opv, j as int);
            }
            let e = self.files[j].clone();
            let member: bool = e.owner_id == owner && (str_eq(e.path.as_str(), oldp)
                || is_descendant_path(e.path.as_str(), oldp));
            if member {
                let is_root: bool = str_eq(e.path.as_str(), oldp);
                proof {
                    assert(entry_shape_ok(es[j as int]));
                    if !is_root {
                        crate::paths::lemma_dir_of_rebase(es[j as int].path, opv, newp@);
                        lemma_under_eq_prefix(es[j as int].parent_path, opv);
                    }
                }
                let np = rebase_path(e.path.as_str(), oldp, newp);
                let nparent: String = if is_root {
                    dest.to_owned()
                } else {
                    rebase_path(e.parent_path.as_str(), oldp, newp)
                };
                let nname: String = if is_root {
                    cand.to_owned()
                } else {
                    e.name.clone()
                };
                let nloc = crate::paths::physical_location(storage_root, owner_new, np.as_str());
                let nid = base_id + (fresh.len() as u64);
                let ne = FileEntry {
                    id: nid,
                    owner_id: owner_new,
                    name: nname,
                    path: np,
                    parent_path: nparent,
                    kind: e.kind,
                    mime_type: e.mime_type,
                    size_bytes: e.size_bytes,
                    storage_path: nloc,
                    content_hash: e.content_hash,
                    ref_count: if matches!(e.kind, FileType::File) {
                        1
                    } else {
                        0
                    },
                    created_at: now,
                    updated_at: now,
                };
                let ghost nev = ne@;
                fresh.push(ne);
                proof {
                    let regj = crate::content::region_rows(es.take(j as int), owner, opv);
                    assert(nev == copied_row(
                        es[j as int],
                        owner_new,
                        opv,
                        newp@,
                        cand@,
                        dest@,
                        storage_root@,
                        (base_id + regj.len()) as u64,
                        now,
                    ));
                    assert(crate::content::views_of(fresh@) =~= copy_rows(
                        regj,
                        owner_new,
                        opv,
                        newp@,
                        cand@,
                        dest@,
                        storage_root@,
                        base_id,
                        now,
                    ).push(nev));
                    assert(crate::content::views_of(fresh@) =~= copy_rows(
                        regj.push(es[j as int]),
                        owner_new,
                        opv,
                        newp@,
                        cand@,
                        dest@,
                        storage_root@,
                        base_id,
                        now,
                    ));
                }
            }
            j = j + 1;
        }
        proof {
            assert(es.take(n as int) =~= es);
        }
        fresh
    }
}

impl Store {
    /// Copies the row with id `file_id` (a folder: its whole subtree) to
    /// the destination directory under a freshly disambiguated name. A
    /// copy duplicates bytes: every copied row is owned by the copier,
    /// points at fresh derived storage, and starts its own reference
    /// accounting.
    #[verifier::rlimit(100)]
    pub fn copy_file(
        &mut self,
        user_id: u64,
        role: Role,
        file_id: u64,
        destination_path: &str,
        storage_root: &str,
        now: i64,
    ) -> (r: Result<u64, FsError>)
        requires
            old(self).wf(),
            old(self).next_id + old(self).files@.len() < u64::MAX,
        ensures
            final(self).wf(),
            final(self).grant_views() == old(self).grant_views(),
            ({
                let es = old(self).entries();
                let gs = old(self).grant_views();
                if crate::paths::path_rejected(destination_path@) {
                    r == Result::<u64, FsError>::Err(FsError::PathTraversal) && *final(self) == *old(
                        self,
                    )
                } else {
                    let i = entry_idx(es, file_id);
                    if i < 0 {
                        r == Result::<u64, FsError>::Err(FsError::NotFound) && *final(self) == *old(
                            self,
                        )
                    } else if !crate::store::has_right(gs, user_id, role, es[i], Permission::Read) {
                        r == Result::<u64, FsError>::Err(FsError::PermissionDenied) && *final(self)
                            == *old(self)
                    } else {
                        let e = es[i];
                        let dest = crate::paths::dir_canon(
                            crate::paths::canonical_path_of(destination_path@),
                        );
                        let ff = crate::content::first_free_k(es, user_id, dest, e.name, 0);
                        if !crate::paths::valid_name(e.name) {
                            r == Result::<u64, FsError>::Err(FsError::Inconsistent) && *final(self)
                                == *old(self)
                        } else if ff < 0 {
                            r == Result::<u64, FsError>::Err(FsError::AlreadyExists) && *final(self)
                                == *old(self)
                        } else {
                            let cand = crate::content::cand_name(e.name, ff as nat);
                            let newp = crate::paths::join_spec(dest, cand);
                            let news = crate::paths::physical_of(storage_root@, user_id, newp);
                            if !(copy_dest_clear(es, user_id, newp) && copy_phys_clear(es, news)) {
                                r == Result::<u64, FsError>::Err(FsError::Conflict) && *final(self)
                                    == *old(self)
                            } else {
                                let reg = crate::content::region_rows(es, e.owner_id, e.path);
                                &&& r == Result::<u64, FsError>::Ok(old(self).next_id)
                                &&& final(self).next_id == old(self).next_id + reg.len()
                                &&& final(self).entries() =~= crate::store::with_counts(
                                    es + copy_rows(
                                        reg,
                                        user_id,
                                        e.path,
                                        newp,
                                        cand,
                                        dest,
                                        storage_root@,
                                        old(self).next_id,
                                        now,
                                    ),
                                )
                            }
                        }
                    }
                }
            }),
    {
        let ghost es = old(self).entries();
        let dest_norm = match crate::paths::sanitize_path(destination_path) {
            Ok(p) => p,
            Err(e) => {
                return Err(e);
            },
        };
        proof {
            lemma_entry_idx(es, file_id);
        }
        let i = match self.find_index(file_id) {
            Some(i) => i,
            None => {
                return Err(FsError::NotFound);
            },
        };
        proof {
            assert(self.entries()[i as int] == self.files@[i as int]@);
        }
        let (can_read, _, _) = self.get_file_permissions(user_id, role, &self.files[i]);
        if !can_read {
            return Err(FsError::PermissionDenied);
        }
        proof {
            assert(entry_shape_ok(es[i as int]));
        }
        let src_name = self.files[i].name.clone();
        if !crate::content::check_name(src_name.as_str()) {
            return Err(FsError::Inconsistent);
        }
        let cand = match self.generate_unique_filename(
            src_name.as_str(),
            user_id,
            destination_path,
        ) {
            Ok(c) => c,
            Err(e) => {
                proof {
                    if e == FsError::PathTraversal {
                        assert(false);
                    }
                }
                return Err(e);
            },
        };
        let dest = crate::paths::canon_dir(dest_norm.as_str());
        let newp = crate::paths::join_under(dest.as_str(), cand.as_str());
        let ghost ff = crate::content::first_free_k(es, user_id, dest@, src_name@, 0);
        proof {
            crate::content::lemma_first_free_k(es, user_id, dest@, src_name@, 0);
            crate::content::lemma_cand_name_valid(src_name@, ff as nat);
            crate::paths::lemma_join_valid(dest@, cand@);
            crate::paths::lemma_dir_of_join(dest@, cand@);
        }
        let news = crate::paths::physical_location(storage_root, user_id, newp.as_str());
        if !self.copy_dest_clear_exec(user_id, newp.as_str()) {
            return Err(FsError::Conflict);
        }
        if !self.copy_phys_clear_exec(news.as_str()) {
            return Err(FsError::Conflict);
        }

        // build the copied block outside the store, then append it
        let owner = self.files[i].owner_id;
        let oldp = self.files[i].path.clone();
        let ghost opv = oldp@;
        let ghost reg = crate::content::region_rows(es, owner, opv);
        let base_id = self.next_id;
        let ghost block = copy_rows(
            reg,
            user_id,
            opv,
            newp@,
            cand@,
            dest@,
            storage_root@,
            base_id,
            now,
        );
        let mut fresh = self.build_copy_block(
            i,
            user_id,
            oldp.as_str(),
            newp.as_str(),
            cand.as_str(),
            dest.as_str(),
            storage_root,
            now,
        );
        proof {
            assert(crate::content::views_of(fresh@) =~= block);
        }
        let copied = fresh.len();
        let first_id = self.next_id;
        self.files.append(&mut fresh);
        let total_rows = self.files.len();
        self.next_id = self.next_id + (copied as u64);
        proof {
            lemma_copy_block_wf(es, reg, user_id, opv, newp@, cand@, dest@, storage_root@, base_id, now);
            let mid = self.entries();
            assert(mid.len() == total_rows as int);
            assert(mid =~= es + block);
            crate::store::lemma_with_counts_wf(mid);
        }
        self.refresh_ref_counts();
        proof {
            assert forall|a: int| 0 <= a < self.entries().len() implies (
            #[trigger] self.entries()[a]).id < self.next_id by {
                assert(self.entries()[a].id == (es + block)[a].id);
            }
        }
        Ok(first_id)
    }
}



/// Rows of a subtree region: each is one of the store's rows, owned by
/// the subtree's owner, inside the subtree, well shaped, with pairwise
/// distinct paths.
pub proof fn lemma_region_rows_props(es: Seq<EntryV>, owner: u64, p: Seq<char>)
    requires
        crate::entry::ids_unique(es),
        crate::entry::paths_unique(es),
        crate::entry::shapes_ok(es),
        crate::entry::hashes_consistent(es),
    ensures
        ({
            let reg = crate::content::region_rows(es, owner, p);
            &&& reg.len() <= es.len()
            &&& forall|t: int|
                0 <= t < reg.len() ==> crate::content::in_region(#[trigger] reg[t], owner, p)
                    && entry_shape_ok(reg[t]) && exists|j: int| 0 <= j < es.len() && reg[t] == #[trigger] es[j]
            &&& forall|t1: int, t2: int|
                0 <= t1 < t2 < reg.len() ==> (#[trigger] reg[t1]).path != (#[trigger] reg[t2]).path
        }),
    decreases es.len(),
{
    if es.len() > 0 {
        let d = es.drop_last();
        let l = es.last();
        lemma_region_rows_props(d, owner, p);
        let rd = crate::content::region_rows(d, owner, p);
        assert forall|t: int| 0 <= t < rd.len() implies exists|j: int|
            0 <= j < es.len() && #[trigger] rd[t] == es[j] by {
            let j = choose|j: int| 0 <= j < d.len() && rd[t] == #[trigger] d[j];
            assert(rd[t] == es[j]);
        }
        if crate::content::in_region(l, owner, p) {
            let reg = crate::content::region_rows(es, owner, p);
            assert(reg =~= rd.push(l));
            assert forall|t1: int, t2: int| 0 <= t1 < t2 < reg.len() implies (
            #[trigger] reg[t1]).path != (#[trigger] reg[t2]).path by {
                if t2 == reg.len() - 1 {
                    let j = choose|j: int| 0 <= j < d.len() && reg[t1] == #[trigger] d[j];
                    assert(!(es[j].owner_id == es[es.len() - 1].owner_id && es[j].path
                        == es[es.len() - 1].path));
                }
            }
        }
    }
}

/// Appending a copied block keeps every row-level invariant: fresh ids,
/// fresh per-owner paths inside the cleared destination, well-shaped
/// rewritten rows, and fresh storage locations.
#[verifier::rlimit(100)]
pub proof fn lemma_copy_block_wf(
    es: Seq<EntryV>,
    reg: Seq<EntryV>,
    owner_new: u64,
    oldp: Seq<char>,
    newp: Seq<char>,
    cand: Seq<char>,
    dest: Seq<char>,
    root: Seq<char>,
    base_id: u64,
    now: i64,
)
    requires
        crate::entry::ids_unique(es),
        crate::entry::paths_unique(es),
        crate::entry::shapes_ok(es),
        crate::entry::hashes_consistent(es),
        forall|x: int| 0 <= x < es.len() ==> (#[trigger] es[x]).id < base_id,
        base_id + es.len() < u64::MAX,
        exists|o: u64| reg == crate::content::region_rows(es, o, oldp),
        valid_entry_path(oldp),
        valid_entry_path(newp),
        is_dir_path(dest),
        dir_of(newp) == dest,
        copy_dest_clear(es, owner_new, newp),
        copy_phys_clear(es, crate::paths::physical_of(root, owner_new, newp)),
    ensures
        ({
            let block = copy_rows(reg, owner_new, oldp, newp, cand, dest, root, base_id, now);
            let mid = es + block;
            &&& crate::entry::ids_unique(mid)
            &&& crate::entry::paths_unique(mid)
            &&& crate::entry::shapes_ok(mid)
            &&& crate::entry::hashes_consistent(mid)
            &&& forall|a: int|
                0 <= a < mid.len() ==> (#[trigger] mid[a]).id < base_id + reg.len()
        }),
{
    let o = choose|o: u64| reg == crate::content::region_rows(es, o, oldp);
    lemma_region_rows_props(es, o, oldp);
    let block = copy_rows(reg, owner_new, oldp, newp, cand, dest, root, base_id, now);
    let mid = es + block;
    let el = es.len() as int;
    let news = crate::paths::physical_of(root, owner_new, newp);
    assert(reg.len() <= es.len());
    assert forall|t: int| 0 <= t < block.len() implies #[trigger] block[t] == copied_row(
        reg[t],
        owner_new,
        oldp,
        newp,
        cand,
        dest,
        root,
        (base_id + t) as u64,
        now,
    ) by {}
    // paths of copied rows lie under the destination
    assert forall|t: int| 0 <= t < block.len() implies under_eq(
        (#[trigger] block[t]).path,
        newp,
    ) by {
        lemma_under_eq_prefix(reg[t].path, oldp);
        lemma_smap_under(reg[t].path, oldp, newp);
    }
    // and their storages under the destination's physical root
    assert forall|t: int| 0 <= t < block.len() implies under_eq(
        (#[trigger] block[t]).storage_path,
        news,
    ) by {
        let np = replace_prefix(reg[t].path, oldp, newp);
        lemma_under_eq_prefix(reg[t].path, oldp);
        lemma_smap_under(reg[t].path, oldp, newp);
        if np == newp {
            assert(block[t].storage_path == news);
        } else {
            assert(np.subrange(0, newp.len() as int) == newp);
            let aa = crate::paths::user_storage_of(root, owner_new);
            assert(block[t].storage_path =~= news + np.subrange(
                newp.len() as int,
                np.len() as int,
            )) by {
                assert(block[t].storage_path =~= aa + np);
                assert(news =~= aa + newp);
            }
            assert(block[t].storage_path.subrange(0, news.len() as int) =~= news);
            assert(block[t].storage_path[news.len() as int] == np[newp.len() as int]);
        }
    }
    assert forall|a: int, b: int| 0 <= a < b < mid.len() implies #[trigger] mid[a].id
        != #[trigger] mid[b].id by {
        if a < el && b >= el {
            assert(mid[a].id < base_id && mid[b].id == base_id + (b - el));
        } else if a >= el {
            assert(mid[a].id == base_id + (a - el) && mid[b].id == base_id + (b - el));
        }
    }
    assert forall|a: int, b: int| 0 <= a < b < mid.len() implies !((#[trigger] mid[a]).owner_id
        == (#[trigger] mid[b]).owner_id && mid[a].path == mid[b].path) by {
        if a < el && b >= el {
            if mid[a].owner_id == owner_new {
                assert(!under_eq(es[a].path, newp));
                assert(under_eq(mid[b].path, newp));
            }
        } else if a >= el {
            let p1 = reg[a - el].path;
            let p2 = reg[b - el].path;
            assert(p1 != p2);
            lemma_under_eq_prefix(p1, oldp);
            lemma_under_eq_prefix(p2, oldp);
            lemma_replace_prefix_injective(p1, p2, oldp, newp);
        }
    }
    assert forall|a: int| 0 <= a < mid.len() implies entry_shape_ok(#[trigger] mid[a]) by {
        if a >= el {
            let src = reg[a - el];
            assert(entry_shape_ok(src));
            assert(under_eq(src.path, oldp));
            crate::paths::lemma_rebase_valid(src.path, oldp, newp);
            if src.path == oldp {
                assert(replace_prefix(src.path, oldp, newp) =~= newp);
                assert(mid[a].path == newp);
            } else {
                crate::paths::lemma_dir_of_rebase(src.path, oldp, newp);
            }
        }
    }
    assert forall|a: int, b: int|
        0 <= a < mid.len() && 0 <= b < mid.len() && (#[trigger] mid[a]).kind == FileType::File && (
        #[trigger] mid[b]).kind == FileType::File && mid[a].storage_path == mid[b].storage_path
        implies mid[a].content_hash == mid[b].content_hash by {
        if a < el && b >= el {
            assert(!under_eq(es[a].storage_path, news));
            assert(under_eq(mid[b].storage_path, news));
        } else if b < el && a >= el {
            assert(!under_eq(es[b].storage_path, news));
            assert(under_eq(mid[a].storage_path, news));
        } else if a >= el && b >= el && a != b {
            let p1 = reg[a - el].path;
            let p2 = reg[b - el].path;
            let np1 = replace_prefix(p1, oldp, newp);
            let np2 = replace_prefix(p2, oldp, newp);
            assert(p1 != p2);
            lemma_under_eq_prefix(p1, oldp);
            lemma_under_eq_prefix(p2, oldp);
            lemma_replace_prefix_injective(p1, p2, oldp, newp);
            let aa = crate::paths::user_storage_of(root, owner_new);
            assert(mid[a].storage_path =~= aa + np1);
            assert(mid[b].storage_path =~= aa + np2);
            lemma_append_left_cancel(aa, np1, np2);
            assert(false);
        }
    }
    assert forall|a: int| 0 <= a < mid.len() implies (#[trigger] mid[a]).id < base_id
        + reg.len() by {
        if a >= el {
            assert(mid[a].id == base_id + (a - el));
        }
    }
}


} // verus!
