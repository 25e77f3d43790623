//! Batch download support: expanding requested ids into a permission-
//! checked flat set of files, size accounting and limits, the single-file
//! fast path, and the archive built from the collected set.

use vstd::prelude::*;

use crate::archive::zip_append_bytes;
use crate::archive::zip_builder_new;
use crate::archive::zip_compressed;
use crate::archive::zip_encoding;
use crate::archive::zip_entries;
use crate::archive::zip_finish;
use crate::archive::zip_start_entry;
use crate::content::region_rows;
use crate::content::lemma_region_take_step;
use crate::content::views_of;
use crate::entry::EntryV;
use crate::entry::FileEntry;
use crate::errors::FsError;
use crate::models::FileType;
use crate::models::Permission;
use crate::models::Role;
use crate::paths::descends_from;
use crate::paths::is_descendant_path;
use crate::store::entry_idx;
use crate::store::has_right;
use crate::store::lemma_entry_idx;
use crate::store::Store;
use crate::strutil::has_prefix;
use crate::strutil::str_eq;

verus! {

/// The flat result of expanding a batch request.
#[derive(Debug)]
pub struct CollectedFiles {
    /// Every file to download, each at most once.
    pub files: Vec<FileEntry>,
    /// For files collected out of a requested folder: the file id and the
    /// name and logical path of that folder, so the archive can rebuild
    /// `<folder name>/<relative path>` entries.
    pub folder_roots: Vec<(u64, String, String)>,
}

/// Sum of the sizes of the given rows (absent sizes count zero).
pub open spec fn sum_sizes(fs: Seq<EntryV>) -> nat
    decreases fs.len(),
{
    if fs.len() == 0 {
        0
    } else {
        sum_sizes(fs.drop_last()) + match fs.last().size_bytes {
            Some(s) => s as nat,
            None => 0nat,
        }
    }
}

/// Sum of the sizes of the file rows among the given rows.
pub open spec fn sum_file_sizes(fs: Seq<EntryV>) -> nat
    decreases fs.len(),
{
    if fs.len() == 0 {
        0
    } else {
        sum_file_sizes(fs.drop_last()) + if fs.last().kind == FileType::File {
            match fs.last().size_bytes {
                Some(s) => s as nat,
                None => 0nat,
            }
        } else {
            0nat
        }
    }
}

/// Number of file rows among the given rows.
pub open spec fn count_files(fs: Seq<EntryV>) -> nat
    decreases fs.len(),
{
    if fs.len() == 0 {
        0
    } else {
        count_files(fs.drop_last()) + if fs.last().kind == FileType::File {
            1nat
        } else {
            0nat
        }
    }
}

/// Adds without wrapping: the sum, capped at the largest `u64`.
pub fn saturating_add_u64(a: u64, b: u64) -> (r: u64)
    ensures
        r as nat == if a + b <= u64::MAX {
            (a + b) as nat
        } else {
            u64::MAX as nat
        },
{
    if u64::MAX - a < b {
        u64::MAX
    } else {
        a + b
    }
}

/// Total size of a set of collected files, capped at the largest `u64`.
pub fn calculate_total_size(files: &Vec<FileEntry>) -> (r: u64)
    ensures
        r as nat == if sum_sizes(views_of(files@)) <= u64::MAX {
            sum_sizes(views_of(files@))
        } else {
            u64::MAX as nat
        },
{
    let n = files.len();
    let mut total: u64 = 0;
    let mut i: usize = 0;
    proof {
        assert(views_of(files@).take(0) =~= Seq::<EntryV>::empty());
        assert(views_of(files@.take(0)) =~= Seq::<EntryV>::empty());
    }
    while i < n
        invariant
            i <= n,
            n == files@.len(),
            total as nat == if sum_sizes(views_of(files@.take(i as int))) <= u64::MAX {
                sum_sizes(views_of(files@.take(i as int)))
            } else {
                u64::MAX as nat
            },
        decreases n - i,
    {
        proof {
            assert(views_of(files@.take(i as int + 1)).drop_last() =~= views_of(
                files@.take(i as int),
            ));
            assert(views_of(files@.take(i as int + 1)).last() == files@[i as int]@);
        }
        let add: u64 = match files[i].size_bytes {
            Some(s) => s,
            None => 0,
        };
        total = saturating_add_u64(total, add);
        i = i + 1;
    }
    proof {
        assert(files@.take(n as int) =~= files@);
    }
    total
}

/// Total size of the file rows in a folder enumeration, capped at the
/// largest `u64`.
pub fn calculate_folder_size(files: &Vec<FileEntry>) -> (r: u64)
    ensures
        r as nat == if sum_file_sizes(views_of(files@)) <= u64::MAX {
            sum_file_sizes(views_of(files@))
        } else {
            u64::MAX as nat
        },
{
    let n = files.len();
    let mut total: u64 = 0;
    let mut i: usize = 0;
    proof {
        assert(views_of(files@.take(0)) =~= Seq::<EntryV>::empty());
    }
    while i < n
        invariant
            i <= n,
            n == files@.len(),
            total as nat == if sum_file_sizes(views_of(files@.take(i as int))) <= u64::MAX {
                sum_file_sizes(views_of(files@.take(i as int)))
            } else {
                u64::MAX as nat
            },
        decreases n - i,
    {
        proof {
            assert(views_of(files@.take(i as int + 1)).drop_last() =~= views_of(
                files@.take(i as int),
            ));
            assert(views_of(files@.take(i as int + 1)).last() == files@[i as int]@);
        }
        let add: u64 = if matches!(files[i].kind, FileType::File) {
            match files[i].size_bytes {
                Some(s) => s,
                None => 0,
            }
        } else {
            0
        };
        total = saturating_add_u64(total, add);
        i = i + 1;
    }
    proof {
        assert(files@.take(n as int) =~= files@);
    }
    total
}

/// Enforces the batch size limit: fails with `TooLarge` exactly when the
/// total exceeds the configured maximum.
pub fn verify_size_limit(total_size: u64, max_size: u64) -> (r: Result<(), FsError>)
    ensures
        r is Err <==> total_size > max_size,
        r is Err ==> r->Err_0 == FsError::TooLarge,
{
    if total_size > max_size {
        Err(FsError::TooLarge)
    } else {
        Ok(())
    }
}

/// The compression policy: deflate the archive exactly when the batch is
/// larger than the threshold.
pub fn should_compress_batch(total_size: u64, compression_threshold: u64) -> (r: bool)
    ensures
        r == (total_size > compression_threshold),
{
    total_size > compression_threshold
}

impl Store {
    /// Every row of `user_id` lying in the subtree rooted at
    /// `folder_path` (the root row itself included), in store order.
    pub fn get_folder_files_recursive(&self, folder_path: &str, user_id: u64) -> (r: Vec<
        FileEntry,
    >)
        ensures
            views_of(r@) =~= region_rows(self.entries(), user_id, folder_path@),
    {
        let ghost es = self.entries();
        let n = self.files.len();
        let mut out: Vec<FileEntry> = Vec::new();
        let mut j: usize = 0;
        proof {
            assert(es.take(0) =~= Seq::<EntryV>::empty());
        }
        while j < n
            invariant
                es == self.entries(),
                j <= n,
                n == self.files@.len(),
                views_of(out@) =~= region_rows(es.take(j as int), user_id, folder_path@),
            decreases n - j,
        {
            proof {
                assert(self.entries()[j as int] == self.files@[j as int]@);
                lemma_region_take_step(es, user_id, folder_path@, j as int);
            }
            let e = self.files[j].clone();
            let member: bool = e.owner_id == user_id && (str_eq(e.path.as_str(), folder_path)
                || is_descendant_path(e.path.as_str(), folder_path));
            if member {
                out.push(e);
                proof {
                    assert(views_of(out@) =~= region_rows(es.take(j as int), user_id, folder_path@)
                        .push(es[j as int]));
                }
            }
            j = j + 1;
        }
        proof {
            assert(es.take(n as int) =~= es);
        }
        out
    }

    /// The single-file fast path: when exactly one id was requested and
    /// it names a readable file, that file is handed back so the caller
    /// can stream its raw bytes instead of building an archive.
    pub fn try_single_file_download(&self, file_ids: &Vec<u64>, user_id: u64, role: Role) -> (r:
        Result<Option<FileEntry>, FsError>)
        ensures
            ({
                let es = self.entries();
                let gs = self.grant_views();
                if file_ids@.len() != 1 {
                    r == Result::<Option<FileEntry>, FsError>::Ok(None)
                } else {
                    let i = entry_idx(es, file_ids@[0]);
                    if i < 0 {
                        r == Result::<Option<FileEntry>, FsError>::Err(FsError::NotFound)
                    } else if es[i].kind != FileType::File {
                        r == Result::<Option<FileEntry>, FsError>::Ok(None)
                    } else if !has_right(gs, user_id, role, es[i], Permission::Read) {
                        r == Result::<Option<FileEntry>, FsError>::Err(FsError::PermissionDenied)
                    } else {
                        r is Ok && r->Ok_0 is Some && r->Ok_0->Some_0@ == es[i]
                    }
                }
            }),
    {
        if file_ids.len() != 1 {
            return Ok(None);
        }
        let id = file_ids[0];
        let i = match self.find_index(id) {
            Some(i) => i,
            None => {
                return Err(FsError::NotFound);
            },
        };
        proof {
            assert(self.entries()[i as int] == self.files@[i as int]@);
        }
        if !matches!(self.files[i].kind, FileType::File) {
            return Ok(None);
        }
        let (can_read, _, _) = self.get_file_permissions(user_id, role, &self.files[i]);
        if !can_read {
            return Err(FsError::PermissionDenied);
        }
        Ok(Some(self.files[i].clone()))
    }
}


/// Does requested id `rid` name the row at index `x` directly?
pub open spec fn direct_selects(es: Seq<EntryV>, rid: u64, x: int) -> bool {
    entry_idx(es, rid) == x
}

/// Does requested id `rid` name a folder whose subtree holds the row at
/// index `x`?
pub open spec fn folder_selects(es: Seq<EntryV>, rid: u64, x: int) -> bool {
    let ri = entry_idx(es, rid);
    &&& ri >= 0
    &&& es[ri].kind == FileType::Folder
    &&& 0 <= x < es.len()
    &&& es[x].owner_id == es[ri].owner_id
    &&& descends_from(es[x].path, es[ri].path)
}

/// Is the file row at index `x` part of what the request asks for?
pub open spec fn belongs(es: Seq<EntryV>, ids: Seq<u64>, x: int) -> bool {
    &&& 0 <= x < es.len()
    &&& es[x].kind == FileType::File
    &&& exists|k: int|
        0 <= k < ids.len() && (direct_selects(es, #[trigger] ids[k], x) || folder_selects(
            es,
            ids[k],
            x,
        ))
}

/// The first error the permission gate hits scanning the requested ids in
/// order: a missing row, or a row the actor may not read.
pub open spec fn batch_gate(
    es: Seq<EntryV>,
    gs: Seq<crate::entry::GrantV>,
    actor: u64,
    role: Role,
    ids: Seq<u64>,
) -> Option<FsError>
    decreases ids.len(),
{
    if ids.len() == 0 {
        None
    } else {
        let i = entry_idx(es, ids[0]);
        if i < 0 {
            Some(FsError::NotFound)
        } else if !has_right(gs, actor, role, es[i], Permission::Read) {
            Some(FsError::PermissionDenied)
        } else {
            batch_gate(es, gs, actor, role, ids.drop_first())
        }
    }
}

/// Is some collected file carrying this id?
pub open spec fn id_in_files(fs: Seq<FileEntry>, id: u64) -> bool {
    exists|t: int| 0 <= t < fs.len() && (#[trigger] fs[t])@.id == id
}

/// One root note is sound: it names a requested folder row and a
/// collected file inside that folder's subtree.
pub open spec fn root_note_ok(
    es: Seq<EntryV>,
    ids: Seq<u64>,
    fs: Seq<FileEntry>,
    rt: (u64, String, String),
) -> bool {
    exists|k: int|
        0 <= k < ids.len() && {
            let ri = entry_idx(es, #[trigger] ids[k]);
            &&& ri >= 0
            &&& es[ri].kind == FileType::Folder
            &&& rt.1@ == es[ri].name
            &&& rt.2@ == es[ri].path
            &&& folder_selects(es, ids[k], entry_idx(es, rt.0))
            &&& id_in_files(fs, rt.0)
        }
}

/// The collected file at position `t` is a real store row that the
/// request selects.
pub open spec fn file_sound_at(es: Seq<EntryV>, ids: Seq<u64>, fs: Seq<FileEntry>, t: int) -> bool {
    exists|x: int| belongs(es, ids, x) && fs[t]@ == #[trigger] es[x]
}

/// Every collected file is a real store row that the request selects.
pub open spec fn files_sound(es: Seq<EntryV>, ids: Seq<u64>, fs: Seq<FileEntry>) -> bool {
    forall|t: int| 0 <= t < fs.len() ==> #[trigger] file_sound_at(es, ids, fs, t)
}

/// A row is collected exactly when the request selects it.
pub open spec fn files_complete(es: Seq<EntryV>, ids: Seq<u64>, fs: Seq<FileEntry>) -> bool {
    forall|x: int|
        0 <= x < es.len() ==> (belongs(es, ids, x) <==> id_in_files(fs, (#[trigger] es[x]).id))
}

/// No file is collected twice.
pub open spec fn files_distinct(fs: Seq<FileEntry>) -> bool {
    forall|t1: int, t2: int|
        0 <= t1 < t2 < fs.len() ==> (#[trigger] fs[t1])@.id != (#[trigger] fs[t2])@.id
}

/// Every root note is sound.
pub open spec fn roots_sound(
    es: Seq<EntryV>,
    ids: Seq<u64>,
    fs: Seq<FileEntry>,
    roots: Seq<(u64, String, String)>,
) -> bool {
    forall|u: int| 0 <= u < roots.len() ==> root_note_ok(es, ids, fs, #[trigger] roots[u])
}

/// Every file selected through a folder has a root note.
pub open spec fn roots_cover(
    es: Seq<EntryV>,
    ids: Seq<u64>,
    roots: Seq<(u64, String, String)>,
) -> bool {
    forall|x: int|
        0 <= x < es.len() && (#[trigger] es[x]).kind == FileType::File && (exists|k: int|
            0 <= k < ids.len() && folder_selects(es, #[trigger] ids[k], x)) ==> exists|u: int|
            0 <= u < roots.len() && (#[trigger] roots[u]).0 == es[x].id
}

impl Store {
    /// Scans the requested ids for the selection status of row `x`:
    /// whether the row is part of the request, and (when a requested
    /// folder holds it) one such folder request.
    fn select_info(&self, file_ids: &Vec<u64>, x: usize) -> (r: (bool, Option<usize>))
        requires
            x < self.files@.len(),
        ensures
            r.0 == belongs(self.entries(), file_ids@, x as int),
            r.1 is Some ==> r.1->Some_0 < file_ids@.len() && folder_selects(
                self.entries(),
                file_ids@[r.1->Some_0 as int],
                x as int,
            ) && self.entries()[x as int].kind == FileType::File,
            (self.entries()[x as int].kind == FileType::File && exists|k: int|
                0 <= k < file_ids@.len() && folder_selects(
                    self.entries(),
                    #[trigger] file_ids@[k],
                    x as int,
                )) ==> r.1 is Some,
    {
        let ghost es = self.entries();
        proof {
            assert(self.entries()[x as int] == self.files@[x as int]@);
        }
        if !matches!(self.files[x].kind, FileType::File) {
            return (false, None);
        }
        let m = file_ids.len();
        let mut k: usize = 0;
        let mut selected: bool = false;
        let mut froot: Option<usize> = None;
        while k < m
            invariant
                es == self.entries(),
                x < self.files@.len(),
                k <= m,
                m == file_ids@.len(),
                es[x as int].kind == FileType::File,
                selected == exists|q: int|
                    0 <= q < k && (direct_selects(es, #[trigger] file_ids@[q], x as int)
                        || folder_selects(es, file_ids@[q], x as int)),
                froot is Some ==> froot->Some_0 < m && folder_selects(
                    es,
                    file_ids@[froot->Some_0 as int],
                    x as int,
                ),
                (exists|q: int|
                    0 <= q < k && folder_selects(es, #[trigger] file_ids@[q], x as int)) ==> froot
                    is Some,
            decreases m - k,
        {
            let rid = file_ids[k];
            proof {
                lemma_entry_idx(es, rid);
            }
            match self.find_index(rid) {
                None => {},
                Some(ri) => {
                    proof {
                        assert(self.entries()[ri as int] == self.files@[ri as int]@);
                    }
                    if ri == x {
                        selected = true;
                    }
                    if matches!(self.files[ri].kind, FileType::Folder) && self.files[x].owner_id
                        == self.files[ri].owner_id && is_descendant_path(
                        self.files[x].path.as_str(),
                        self.files[ri].path.as_str(),
                    ) {
                        selected = true;
                        if matches!(froot, Option::None) {
                            froot = Some(k);
                        }
                    }
                },
            }
            k = k + 1;
        }
        (selected, froot)
    }

    /// Expands the requested ids into the flat set of files to download:
    /// every requested file, and every file inside a requested folder's
    /// subtree, each exactly once. Fails fast when a requested id is
    /// missing (`NotFound`) or not readable by the actor
    /// (`PermissionDenied`); no partial result is returned.
    pub fn collect_files_to_download(&self, file_ids: &Vec<u64>, user_id: u64, role: Role) -> (r:
        Result<CollectedFiles, FsError>)
        requires
            self.wf(),
        ensures
            ({
                let es = self.entries();
                let gs = self.grant_views();
                let gate = batch_gate(es, gs, user_id, role, file_ids@);
                &&& (r is Err <==> gate is Some)
                &&& (r is Err ==> r->Err_0 == gate->0)
                &&& (r is Ok ==> {
                    let c = r->Ok_0;
                    &&& files_complete(es, file_ids@, c.files@)
                    &&& files_sound(es, file_ids@, c.files@)
                    &&& files_distinct(c.files@)
                    &&& roots_sound(es, file_ids@, c.files@, c.folder_roots@)
                    &&& roots_cover(es, file_ids@, c.folder_roots@)
                })
            }),
    {
        let ghost es = self.entries();
        let ghost gs = self.grant_views();
        let ghost idsv = file_ids@;

        // gate: every requested id must exist and be readable
        proof {
            assert(idsv.skip(0) =~= idsv);
        }
        let m = file_ids.len();
        let mut k: usize = 0;
        while k < m
            invariant
                es == self.entries(),
                gs == self.grant_views(),
                idsv == file_ids@,
                k <= m,
                m == idsv.len(),
                batch_gate(es, gs, user_id, role, idsv) == batch_gate(
                    es,
                    gs,
                    user_id,
                    role,
                    idsv.skip(k as int),
                ),
            decreases m - k,
        {
            proof {
                lemma_entry_idx(es, idsv[k as int]);
                assert(idsv.skip(k as int)[0] == idsv[k as int]);
                assert(idsv.skip(k as int).drop_first() =~= idsv.skip(k as int + 1));
            }
            let rid = file_ids[k];
            let i = match self.find_index(rid) {
                Some(i) => i,
                None => {
                    return Err(FsError::NotFound);
                },
            };
            proof {
                assert(self.entries()[i as int] == self.files@[i as int]@);
            }
            let (can_read, _, _) = self.get_file_permissions(user_id, role, &self.files[i]);
            if !can_read {
                return Err(FsError::PermissionDenied);
            }
            k = k + 1;
        }
        proof {
            assert(idsv.skip(m as int) =~= Seq::<u64>::empty());
        }

        // collect: scan the store in order, keeping every selected file
        let n = self.files.len();
        let mut files: Vec<FileEntry> = Vec::new();
        let mut folder_roots: Vec<(u64, String, String)> = Vec::new();
        let mut x: usize = 0;
        while x < n
            invariant
                es == self.entries(),
                crate::entry::ids_unique(es),
                idsv == file_ids@,
                x <= n,
                n == self.files@.len(),
                forall|t: int|
                    0 <= t < files@.len() ==> exists|y: int|
                        0 <= y < x && belongs(es, idsv, y) && (#[trigger] files@[t])@ == es[y],
                forall|t1: int, t2: int|
                    0 <= t1 < t2 < files@.len() ==> (#[trigger] files@[t1])@.id != (
                    #[trigger] files@[t2])@.id,
                forall|y: int|
                    0 <= y < x && belongs(es, idsv, y) ==> id_in_files(
                        files@,
                        (#[trigger] es[y]).id,
                    ),
                forall|u: int|
                    0 <= u < folder_roots@.len() ==> root_note_ok(
                        es,
                        idsv,
                        files@,
                        #[trigger] folder_roots@[u],
                    ),
                forall|y: int|
                    0 <= y < x && (#[trigger] es[y]).kind == FileType::File && (exists|k: int|
                        0 <= k < idsv.len() && folder_selects(es, #[trigger] idsv[k], y)) ==> exists|
                        u: int,
                    |
                        0 <= u < folder_roots@.len() && (#[trigger] folder_roots@[u]).0 == es[y].id,
            decreases n - x,
        {
            proof {
                assert(self.entries()[x as int] == self.files@[x as int]@);
            }
            let ghost files_prev = files@;
            let ghost roots_prev = folder_roots@;
            let (selected, froot) = self.select_info(file_ids, x);
            if selected {
                files.push(self.files[x].clone());
                proof {
                    assert(files@.drop_last() =~= files_prev);
                    assert forall|t: int| 0 <= t < files_prev.len() implies (
                    #[trigger] files_prev[t])@.id != es[x as int].id by {
                        let y = choose|y: int|
                            0 <= y < x && belongs(es, idsv, y) && (files_prev[t])@ == #[trigger] es[
                                y
                            ];
                        assert(es[y].id != es[x as int].id);
                    }
                }
                match froot {
                    Some(kf) => {
                        proof {
                            lemma_entry_idx(es, idsv[kf as int]);
                        }
                        let ri = match self.find_index(file_ids[kf]) {
                            Some(ri) => ri,
                            None => {
                                proof {
                                    assert(false);
                                }
                                return Err(FsError::Inconsistent);
                            },
                        };
                        proof {
                            assert(self.entries()[ri as int] == self.files@[ri as int]@);
                        }
                        folder_roots.push(
                            (self.files[x].id, self.files[ri].name.clone(), self.files[
                                ri
                            ].path.clone()),
                        );
                        proof {
                            assert(folder_roots@.drop_last() =~= roots_prev);
                            assert(id_in_files(files@, es[x as int].id)) by {
                                assert(files@[files@.len() - 1]@.id == es[x as int].id);
                            }
                            assert(entry_idx(es, es[x as int].id) == x as int) by {
                                lemma_entry_idx(es, es[x as int].id);
                                let ix = entry_idx(es, es[x as int].id);
                                if ix != x as int {
                                    assert(es[ix].id == es[x as int].id);
                                    assert(false);
                                }
                            }
                            assert(root_note_ok(
                                es,
                                idsv,
                                files@,
                                folder_roots@[folder_roots@.len() - 1],
                            )) by {
                                let rt = folder_roots@[folder_roots@.len() - 1];
                                assert(0 <= kf as int && (kf as int) < idsv.len() && {
                                    let ri2 = entry_idx(es, idsv[kf as int]);
                                    &&& ri2 >= 0
                                    &&& es[ri2].kind == FileType::Folder
                                    &&& rt.1@ == es[ri2].name
                                    &&& rt.2@ == es[ri2].path
                                    &&& folder_selects(es, idsv[kf as int], entry_idx(es, rt.0))
                                    &&& id_in_files(files@, rt.0)
                                });
                            }
                            assert forall|u: int| 0 <= u < folder_roots@.len() implies root_note_ok(
                                es,
                                idsv,
                                files@,
                                #[trigger] folder_roots@[u],
                            ) by {
                                if u < roots_prev.len() {
                                    assert(folder_roots@[u] == roots_prev[u]);
                                    assert(root_note_ok(es, idsv, files_prev, roots_prev[u]));
                                    let kk = choose|kk: int|
                                        0 <= kk < idsv.len() && {
                                            let ri2 = entry_idx(es, #[trigger] idsv[kk]);
                                            &&& ri2 >= 0
                                            &&& es[ri2].kind == FileType::Folder
                                            &&& roots_prev[u].1@ == es[ri2].name
                                            &&& roots_prev[u].2@ == es[ri2].path
                                            &&& folder_selects(
                                                es,
                                                idsv[kk],
                                                entry_idx(es, roots_prev[u].0),
                                            )
                                            &&& id_in_files(files_prev, roots_prev[u].0)
                                        };
                                    assert(id_in_files(files@, roots_prev[u].0)) by {
                                        let t = choose|t: int|
                                            0 <= t < files_prev.len() && (
                                            #[trigger] files_prev[t])@.id == roots_prev[u].0;
                                        assert(files@[t] == files_prev[t]);
                                    }
                                }
                            }
                        }
                    },
                    None => {
                        proof {
                            assert forall|u: int| 0 <= u < folder_roots@.len() implies root_note_ok(
                                es,
                                idsv,
                                files@,
                                #[trigger] folder_roots@[u],
                            ) by {
                                assert(root_note_ok(es, idsv, files_prev, folder_roots@[u]));
                                let dummy = choose|kk: int|
                                    0 <= kk < idsv.len() && {
                                        let ri2 = entry_idx(es, #[trigger] idsv[kk]);
                                        &&& ri2 >= 0
                                        &&& es[ri2].kind == FileType::Folder
                                        &&& folder_roots@[u].1@ == es[ri2].name
                                        &&& folder_roots@[u].2@ == es[ri2].path
                                        &&& folder_selects(
                                            es,
                                            idsv[kk],
                                            entry_idx(es, folder_roots@[u].0),
                                        )
                                        &&& id_in_files(files_prev, folder_roots@[u].0)
                                    };
                                assert(id_in_files(files@, folder_roots@[u].0)) by {
                                    let t = choose|t: int|
                                        0 <= t < files_prev.len() && (#[trigger] files_prev[t])@.id
                                            == folder_roots@[u].0;
                                    assert(files@[t] == files_prev[t]);
                                }
                            }
                        }
                    },
                }
            }
            proof {
                assert forall|y: int| 0 <= y < x as int + 1 && belongs(es, idsv, y) implies id_in_files(
                    files@,
                    (#[trigger] es[y]).id,
                ) by {
                    if y < x as int {
                        assert(id_in_files(files_prev, es[y].id));
                        let t = choose|t: int|
                            0 <= t < files_prev.len() && (#[trigger] files_prev[t])@.id == es[y].id;
                        assert(files@[t] == files_prev[t]);
                    } else {
                        assert(files@[files@.len() - 1]@.id == es[x as int].id);
                    }
                }
            }
            x = x + 1;
        }
        proof {
            assert forall|x2: int|
                0 <= x2 < es.len() && id_in_files(files@, (#[trigger] es[x2]).id) implies belongs(
                es,
                idsv,
                x2,
            ) by {
                let t = choose|t: int|
                    0 <= t < files@.len() && (#[trigger] files@[t])@.id == es[x2].id;
                let y = choose|y: int|
                    0 <= y < n && belongs(es, idsv, y) && (files@[t])@ == #[trigger] es[y];
                assert(es[y].id == es[x2].id);
                if y != x2 {
                    assert(false);
                }
            }
        }
        proof {
            assert(es.len() == n as int);
            assert(files_sound(es, idsv, files@)) by {
                assert forall|t: int| 0 <= t < files@.len() implies #[trigger] file_sound_at(
                    es,
                    idsv,
                    files@,
                    t,
                ) by {
                    let y = choose|y: int|
                        0 <= y < n && belongs(es, idsv, y) && (files@[t])@ == #[trigger] es[y];
                    assert(belongs(es, idsv, y) && files@[t]@ == es[y]);
                }
            }
            assert(files_complete(es, idsv, files@));
            assert(files_distinct(files@));
            assert(roots_sound(es, idsv, files@, folder_roots@));
            assert(roots_cover(es, idsv, folder_roots@));
        }
        Ok(CollectedFiles { files, folder_roots })
    }
}



/// First root note for a file id, or `-1`.
pub open spec fn root_for(roots: Seq<(u64, String, String)>, id: u64) -> int
    decreases roots.len(),
{
    if roots.len() == 0 {
        -1
    } else if roots[0].0 == id {
        0
    } else {
        let r = root_for(roots.drop_first(), id);
        if r < 0 {
            -1
        } else {
            r + 1
        }
    }
}

/// What `root_for` finds.
pub proof fn lemma_root_for(roots: Seq<(u64, String, String)>, id: u64)
    ensures
        -1 <= root_for(roots, id) < roots.len(),
        root_for(roots, id) >= 0 ==> roots[root_for(roots, id)].0 == id,
        forall|k: int|
            0 <= k < roots.len() && k < root_for(roots, id) ==> (#[trigger] roots[k]).0 != id,
        root_for(roots, id) == -1 ==> forall|k: int|
            0 <= k < roots.len() ==> (#[trigger] roots[k]).0 != id,
    decreases roots.len(),
{
    if roots.len() > 0 && roots[0].0 != id {
        lemma_root_for(roots.drop_first(), id);
        assert forall|k: int| 1 <= k < roots.len() implies #[trigger] roots[k]
            == roots.drop_first()[k - 1] by {}
    }
}

/// First index at or after `i` holding a character other than `/`.
pub open spec fn lead_slashes(p: Seq<char>, i: int) -> int
    decreases p.len() - i,
{
    if i < 0 || i >= p.len() {
        p.len() as int
    } else if p[i] == '/' {
        lead_slashes(p, i + 1)
    } else {
        i
    }
}

/// The archive-relative text of a collected file's path under its root
/// folder: the folder path prefix dropped, leading separators trimmed.
pub open spec fn rel_under(p: Seq<char>, fp: Seq<char>) -> Seq<char> {
    let base = if fp.is_prefix_of(p) {
        p.subrange(fp.len() as int, p.len() as int)
    } else {
        p
    };
    base.subrange(lead_slashes(base, 0), base.len() as int)
}

/// The archive entry path of a collected file: under its requested
/// folder's name when a root note exists, else its bare name.
pub open spec fn batch_entry_name(e: EntryV, roots: Seq<(u64, String, String)>) -> Seq<char> {
    let ri = root_for(roots, e.id);
    if ri < 0 {
        e.name
    } else {
        roots[ri].1@ + seq!['/'] + rel_under(e.path, roots[ri].2@)
    }
}

/// The archive entries of a collected batch: one per file, in order,
/// holding the file's bytes under its entry path.
pub open spec fn batch_entries(
    fs: Seq<FileEntry>,
    roots: Seq<(u64, String, String)>,
    cs: Seq<Vec<u8>>,
) -> Seq<(Seq<char>, Seq<u8>)> {
    Seq::new(fs.len(), |i: int| (batch_entry_name(fs[i]@, roots), cs[i]@))
}

/// Builds the archive entry path of one collected file.
fn build_batch_entry_name(e: &FileEntry, roots: &Vec<(u64, String, String)>) -> (r: String)
    ensures
        r@ == batch_entry_name(e@, roots@),
{
    proof {
        lemma_root_for(roots@, e@.id);
    }
    let m = roots.len();
    let mut u: usize = 0;
    while u < m
        invariant
            u <= m,
            m == roots@.len(),
            forall|k: int| 0 <= k < u ==> (#[trigger] roots@[k]).0 != e@.id,
        decreases m - u,
    {
        if roots[u].0 == e.id {
            proof {
                lemma_root_for(roots@, e@.id);
            }
            let fp: &String = &roots[u].2;
            let p: &String = &e.path;
            let base: &str = if has_prefix(p.as_str(), fp.as_str()) {
                p.as_str().substring_char(fp.as_str().unicode_len(), p.as_str().unicode_len())
            } else {
                p.as_str()
            };
            let ghost bv = base@;
            let bn = base.unicode_len();
            let mut s: usize = 0;
            while s < bn && base.get_char(s) == '/'
                invariant
                    bv == base@,
                    s <= bn,
                    bn == bv.len(),
                    lead_slashes(bv, 0) == lead_slashes(bv, s as int),
                decreases bn - s,
            {
                s = s + 1;
            }
            proof {
                assert(lead_slashes(bv, 0) == s as int);
            }
            let rel = base.substring_char(s, bn);
            let mut out: String = roots[u].1.clone();
            out.push('/');
            out.append(rel);
            proof {
                assert(out@ =~= roots@[u as int].1@ + seq!['/'] + rel_under(
                    e@.path,
                    roots@[u as int].2@,
                ));
            }
            return out;
        }
        u = u + 1;
    }
    e.name.clone()
}

/// Checks that the actor may read every collected file: administrators
/// and owners pass, others need a read grant; the first unreadable file
/// fails the whole batch.
pub fn verify_download_permissions(
    store: &Store,
    files: &Vec<FileEntry>,
    user_id: u64,
    role: Role,
) -> (r: Result<bool, FsError>)
    ensures
        r is Ok <==> (forall|t: int|
            0 <= t < files@.len() ==> has_right(
                store.grant_views(),
                user_id,
                role,
                (#[trigger] files@[t])@,
                Permission::Read,
            )),
        r is Ok ==> r->Ok_0 == true,
        r is Err ==> r->Err_0 == FsError::PermissionDenied,
{
    let n = files.len();
    let mut t: usize = 0;
    while t < n
        invariant
            t <= n,
            n == files@.len(),
            forall|q: int|
                0 <= q < t ==> has_right(
                    store.grant_views(),
                    user_id,
                    role,
                    (#[trigger] files@[q])@,
                    Permission::Read,
                ),
        decreases n - t,
    {
        let (can_read, _, _) = store.get_file_permissions(user_id, role, &files[t]);
        if !can_read {
            return Err(FsError::PermissionDenied);
        }
        t = t + 1;
    }
    Ok(true)
}

/// Streams a collected batch into one archive: each file's bytes under
/// its entry path, deflated or stored per the compression choice.
/// `contents[i]` must hold the bytes of `files[i]`. The writer accepts
/// the run exactly when every step does; stored (uncompressed) batches
/// are always accepted while each content stays within the large-file
/// bound.
pub fn create_batch_download_zip(
    files: &Vec<FileEntry>,
    folder_roots: &Vec<(u64, String, String)>,
    contents: &Vec<Vec<u8>>,
    should_compress: bool,
) -> (r: Result<Vec<u8>, FsError>)
    requires
        contents@.len() == files@.len(),
    ensures
        r is Ok <==> crate::archive::archive_steps_ok(
            Seq::<(Seq<char>, Seq<u8>)>::empty(),
            batch_entries(files@, folder_roots@, contents@),
            should_compress,
        ),
        r is Ok ==> r->Ok_0@ == zip_encoding(
            batch_entries(files@, folder_roots@, contents@),
            should_compress,
        ) && r->Ok_0@.len() > 0,
        r is Err ==> r->Err_0 == FsError::StorageIO,
        (!should_compress && forall|t: int|
            0 <= t < contents@.len() ==> (#[trigger] contents@[t])@.len()
                <= crate::archive::ZIP_ENTRY_MAX) ==> r is Ok,
{
    let ghost full = batch_entries(files@, folder_roots@, contents@);
    let mut z = zip_builder_new(should_compress);
    let n = files.len();
    let mut i: usize = 0;
    proof {
        assert(full.subrange(0, 0) =~= Seq::<(Seq<char>, Seq<u8>)>::empty());
        assert(full.skip(0) =~= full);
    }
    while i < n
        invariant
            full == batch_entries(files@, folder_roots@, contents@),
            i <= n,
            n == files@.len(),
            contents@.len() == n as int,
            zip_compressed(z) == should_compress,
            zip_entries(z) =~= full.subrange(0, i as int),
            crate::archive::archive_steps_ok(
                Seq::<(Seq<char>, Seq<u8>)>::empty(),
                full,
                should_compress,
            ) <==> crate::archive::archive_steps_ok(
                zip_entries(z),
                full.skip(i as int),
                should_compress,
            ),
        decreases n - i,
    {
        proof {
            assert(full.skip(i as int)[0] == full[i as int]);
            assert(full.skip(i as int).drop_first() =~= full.skip(i as int + 1));
        }
        let ghost before = zip_entries(z);
        let name = build_batch_entry_name(&files[i], folder_roots);
        proof {
            assert(full[i as int] == (name@, contents@[i as int]@));
        }
        if !zip_start_entry(&mut z, name.as_str()) {
            proof {
                assert(!crate::archive::zip_start_ok(before, should_compress, name@));
                assert(!crate::archive::archive_steps_ok(
                    before,
                    full.skip(i as int),
                    should_compress,
                ));
                if !should_compress {
                    // only an oversized previous entry can refuse the start
                    assert(before.len() > 0 && before.last().1.len()
                        > crate::archive::ZIP_ENTRY_MAX);
                    assert(before.last() == full[i as int - 1]);
                    assert(contents@[i as int - 1]@.len() > crate::archive::ZIP_ENTRY_MAX);
                }
            }
            return Err(FsError::StorageIO);
        }
        if !zip_append_bytes(&mut z, contents[i].as_slice()) {
            proof {
                assert(!crate::archive::zip_append_ok(
                    before.push((name@, Seq::<u8>::empty())),
                    should_compress,
                    contents@[i as int]@,
                ));
                assert(!crate::archive::archive_steps_ok(
                    before,
                    full.skip(i as int),
                    should_compress,
                ));
                // only oversized content can refuse the append
                assert(contents@[i as int]@.len() > crate::archive::ZIP_ENTRY_MAX);
            }
            return Err(FsError::StorageIO);
        }
        proof {
            assert(zip_entries(z) =~= before.push((name@, Seq::<u8>::empty())).update(
                before.len() as int,
                (name@, Seq::<u8>::empty() + contents@[i as int]@),
            ));
            assert(Seq::<u8>::empty() + contents@[i as int]@ =~= contents@[i as int]@);
            assert(zip_entries(z) =~= before.push(full[i as int]));
            assert(zip_entries(z) =~= full.subrange(0, i as int + 1));
        }
        i = i + 1;
    }
    proof {
        assert(full.subrange(0, n as int) =~= full);
        assert(full.skip(n as int) =~= Seq::<(Seq<char>, Seq<u8>)>::empty());
    }
    let ghost closing = zip_entries(z);
    let out = zip_finish(z);
    proof {
        if out is None && !should_compress {
            // only an oversized last entry can refuse the close
            assert(closing.len() > 0 && closing.last().1.len() > crate::archive::ZIP_ENTRY_MAX);
            assert(closing.last() == full[n as int - 1]);
            assert(contents@[n as int - 1]@.len() > crate::archive::ZIP_ENTRY_MAX);
        }
    }
    match out {
        Some(bytes) => Ok(bytes),
        None => Err(FsError::StorageIO),
    }
}

} // verus!
