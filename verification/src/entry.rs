//! The namespace rows: file/folder entries and permission grants, their
//! ghost views, and the invariants every store state keeps.

use vstd::prelude::*;

use crate::models::FileType;
use crate::paths::dir_of;
use crate::paths::valid_entry_path;

verus! {

/// One namespace row: a file or a folder of one owner.
#[derive(Debug)]
pub struct FileEntry {
    pub id: u64,
    pub owner_id: u64,
    /// Entry name: the last segment of `path`.
    pub name: String,
    /// Full logical path from the owner's root.
    pub path: String,
    /// Directory component of `path`.
    pub parent_path: String,
    pub kind: FileType,
    /// Files only.
    pub mime_type: Option<String>,
    /// Files only.
    pub size_bytes: Option<u64>,
    /// Physical location of the bytes (for folders: of the directory).
    pub storage_path: String,
    /// Content digest; absent until the asynchronous hash pass ran.
    pub content_hash: Option<String>,
    /// Number of namespace rows sharing this row's blob (files; 0 for folders).
    pub ref_count: u64,
    /// Seconds since the epoch.
    pub created_at: i64,
    /// Seconds since the epoch.
    pub updated_at: i64,
}

/// Ghost view of a namespace row.
pub ghost struct EntryV {
    pub id: u64,
    pub owner_id: u64,
    pub name: Seq<char>,
    pub path: Seq<char>,
    pub parent_path: Seq<char>,
    pub kind: FileType,
    pub mime_type: Option<Seq<char>>,
    pub size_bytes: Option<u64>,
    pub storage_path: Seq<char>,
    pub content_hash: Option<Seq<char>>,
    pub ref_count: u64,
    pub created_at: i64,
    pub updated_at: i64,
}

impl View for FileEntry {
    type V = EntryV;

    open spec fn view(&self) -> EntryV {
        EntryV {
            id: self.id,
            owner_id: self.owner_id,
            name: self.name@,
            path: self.path@,
            parent_path: self.parent_path@,
            kind: self.kind,
            mime_type: match self.mime_type {
                Some(m) => Some(m@),
                None => None,
            },
            size_bytes: self.size_bytes,
            storage_path: self.storage_path@,
            content_hash: match self.content_hash {
                Some(h) => Some(h@),
                None => None,
            },
            ref_count: self.ref_count,
            created_at: self.created_at,
            updated_at: self.updated_at,
        }
    }
}

impl Clone for FileEntry {
    /// A clone denotes the same row.
    fn clone(&self) -> (r: Self)
        ensures
            r@ == self@,
    {
        FileEntry {
            id: self.id,
            owner_id: self.owner_id,
            name: self.name.clone(),
            path: self.path.clone(),
            parent_path: self.parent_path.clone(),
            kind: self.kind,
            mime_type: match &self.mime_type {
                Some(m) => Some(m.clone()),
                None => None,
            },
            size_bytes: self.size_bytes,
            storage_path: self.storage_path.clone(),
            content_hash: match &self.content_hash {
                Some(h) => Some(h.clone()),
                None => None,
            },
            ref_count: self.ref_count,
            created_at: self.created_at,
            updated_at: self.updated_at,
        }
    }
}

/// One ACL row: rights of one grantee on one file.
pub struct PermissionGrant {
    pub id: u64,
    pub file_id: u64,
    /// The grantee.
    pub user_id: u64,
    pub can_read: bool,
    pub can_write: bool,
    pub can_delete: bool,
    pub granted_by: u64,
    pub created_at: i64,
}

/// Ghost view of an ACL row.
pub ghost struct GrantV {
    pub id: u64,
    pub file_id: u64,
    pub user_id: u64,
    pub can_read: bool,
    pub can_write: bool,
    pub can_delete: bool,
    pub granted_by: u64,
    pub created_at: i64,
}

impl View for PermissionGrant {
    type V = GrantV;

    open spec fn view(&self) -> GrantV {
        GrantV {
            id: self.id,
            file_id: self.file_id,
            user_id: self.user_id,
            can_read: self.can_read,
            can_write: self.can_write,
            can_delete: self.can_delete,
            granted_by: self.granted_by,
            created_at: self.created_at,
        }
    }
}

/// Does row `e` hold a reference to the blob at `loc`?
pub open spec fn shares_loc(e: EntryV, loc: Seq<char>) -> bool {
    e.kind == FileType::File && e.storage_path == loc
}

/// Number of file rows referencing the blob at `loc`.
pub open spec fn count_sharers(es: Seq<EntryV>, loc: Seq<char>) -> nat
    decreases es.len(),
{
    if es.len() == 0 {
        0
    } else {
        count_sharers(es.drop_last(), loc) + if shares_loc(es.last(), loc) {
            1nat
        } else {
            0nat
        }
    }
}

/// Per-row shape: a well-formed path, the parent link consistent with it,
/// folders carrying no file attributes, files sized and referenced.
pub open spec fn entry_shape_ok(e: EntryV) -> bool {
    &&& valid_entry_path(e.path)
    &&& e.parent_path == dir_of(e.path)
    &&& (e.kind == FileType::Folder ==> e.mime_type is None && e.size_bytes is None
        && e.content_hash is None && e.ref_count == 0)
    &&& (e.kind == FileType::File ==> e.size_bytes is Some)
}

/// Row ids are distinct.
pub open spec fn ids_unique(es: Seq<EntryV>) -> bool {
    forall|i: int, j: int|
        0 <= i < j < es.len() ==> #[trigger] es[i].id != #[trigger] es[j].id
}

/// No owner has two rows with one logical path.
pub open spec fn paths_unique(es: Seq<EntryV>) -> bool {
    forall|i: int, j: int|
        0 <= i < j < es.len() ==> !((#[trigger] es[i]).owner_id == (#[trigger] es[j]).owner_id
            && es[i].path == es[j].path)
}

/// Every row is well shaped.
pub open spec fn shapes_ok(es: Seq<EntryV>) -> bool {
    forall|i: int| 0 <= i < es.len() ==> entry_shape_ok(#[trigger] es[i])
}

/// Every file row's reference count equals the number of rows sharing
/// its blob.
pub open spec fn refs_consistent(es: Seq<EntryV>) -> bool {
    forall|i: int|
        0 <= i < es.len() && (#[trigger] es[i]).kind == FileType::File ==> es[i].ref_count
            == count_sharers(es, es[i].storage_path)
}

/// Rows share a blob only when they share its digest.
pub open spec fn hashes_consistent(es: Seq<EntryV>) -> bool {
    forall|i: int, j: int|
        0 <= i < es.len() && 0 <= j < es.len() && (#[trigger] es[i]).kind == FileType::File && (
        #[trigger] es[j]).kind == FileType::File && es[i].storage_path == es[j].storage_path
            ==> es[i].content_hash == es[j].content_hash
}

/// At most one ACL row per (file, grantee) pair.
pub open spec fn grants_unique(gs: Seq<GrantV>) -> bool {
    forall|i: int, j: int|
        0 <= i < j < gs.len() ==> !((#[trigger] gs[i]).file_id == (#[trigger] gs[j]).file_id
            && gs[i].user_id == gs[j].user_id)
}

/// Counting sharers is invariant under a pointwise sharing-preserving
/// correspondence of rows.
pub proof fn lemma_count_congruent(a: Seq<EntryV>, b: Seq<EntryV>, la: Seq<char>, lb: Seq<char>)
    requires
        a.len() == b.len(),
        forall|j: int| 0 <= j < a.len() ==> shares_loc(#[trigger] a[j], la) == shares_loc(b[j], lb),
    ensures
        count_sharers(a, la) == count_sharers(b, lb),
    decreases a.len(),
{
    if a.len() > 0 {
        lemma_count_congruent(a.drop_last(), b.drop_last(), la, lb);
    }
}

/// A location nobody shares counts zero.
pub proof fn lemma_count_zero(es: Seq<EntryV>, loc: Seq<char>)
    requires
        forall|j: int| 0 <= j < es.len() ==> !shares_loc(#[trigger] es[j], loc),
    ensures
        count_sharers(es, loc) == 0,
    decreases es.len(),
{
    if es.len() > 0 {
        lemma_count_zero(es.drop_last(), loc);
    }
}

/// A sharing row makes its own location's count positive.
pub proof fn lemma_count_pos(es: Seq<EntryV>, loc: Seq<char>, i: int)
    requires
        0 <= i < es.len(),
        shares_loc(es[i], loc),
    ensures
        count_sharers(es, loc) >= 1,
    decreases es.len(),
{
    if i == es.len() - 1 {
    } else {
        lemma_count_pos(es.drop_last(), loc, i);
    }
}

/// Appending one row raises counts by exactly its contribution.
pub proof fn lemma_count_push(es: Seq<EntryV>, e: EntryV, loc: Seq<char>)
    ensures
        count_sharers(es.push(e), loc) == count_sharers(es, loc) + if shares_loc(e, loc) {
            1nat
        } else {
            0nat
        },
{
    assert(es.push(e).drop_last() =~= es);
}

/// Counting a prefix one longer adds the next row's contribution.
pub proof fn lemma_count_take_step(es: Seq<EntryV>, loc: Seq<char>, i: int)
    requires
        0 <= i < es.len(),
    ensures
        count_sharers(es.take(i + 1), loc) == count_sharers(es.take(i), loc) + if shares_loc(
            es[i],
            loc,
        ) {
            1nat
        } else {
            0nat
        },
{
    assert(es.take(i + 1).drop_last() =~= es.take(i));
}

/// The whole sequence is its own full prefix.
pub proof fn lemma_count_take_all(es: Seq<EntryV>, loc: Seq<char>)
    ensures
        count_sharers(es.take(es.len() as int), loc) == count_sharers(es, loc),
{
    assert(es.take(es.len() as int) =~= es);
}


/// No location is shared by more rows than exist.
pub proof fn lemma_count_le_len(es: Seq<EntryV>, loc: Seq<char>)
    ensures
        count_sharers(es, loc) <= es.len(),
    decreases es.len(),
{
    if es.len() > 0 {
        lemma_count_le_len(es.drop_last(), loc);
    }
}


/// Two distinct sharing rows make a count of at least two.
pub proof fn lemma_count_two(es: Seq<EntryV>, loc: Seq<char>, i: int, j: int)
    requires
        0 <= i < es.len(),
        0 <= j < es.len(),
        i != j,
        shares_loc(es[i], loc),
        shares_loc(es[j], loc),
    ensures
        count_sharers(es, loc) >= 2,
    decreases es.len(),
{
    let a = if i < j { i } else { j };
    let b = if i < j { j } else { i };
    if b == es.len() - 1 {
        lemma_count_pos(es.drop_last(), loc, a);
    } else {
        lemma_count_two(es.drop_last(), loc, a, b);
    }
}


/// Updating one row shifts a location's count by the difference of the
/// old and new contributions.
pub proof fn lemma_count_update(es: Seq<EntryV>, i: int, e: EntryV, loc: Seq<char>)
    requires
        0 <= i < es.len(),
    ensures
        count_sharers(es.update(i, e), loc) + (if shares_loc(es[i], loc) {
            1nat
        } else {
            0nat
        }) == count_sharers(es, loc) + (if shares_loc(e, loc) {
            1nat
        } else {
            0nat
        }),
    decreases es.len(),
{
    if i == es.len() - 1 {
        assert(es.update(i, e).drop_last() =~= es.drop_last());
    } else {
        assert(es.update(i, e).drop_last() =~= es.drop_last().update(i, e));
        lemma_count_update(es.drop_last(), i, e, loc);
    }
}


/// Removing one row lowers a location's count by exactly its contribution.
pub proof fn lemma_count_remove(es: Seq<EntryV>, i: int, loc: Seq<char>)
    requires
        0 <= i < es.len(),
    ensures
        count_sharers(es.remove(i), loc) + (if shares_loc(es[i], loc) {
            1nat
        } else {
            0nat
        }) == count_sharers(es, loc),
    decreases es.len(),
{
    if i == es.len() - 1 {
        assert(es.remove(i) =~= es.drop_last());
    } else {
        assert(es.remove(i).drop_last() =~= es.drop_last().remove(i));
        lemma_count_remove(es.drop_last(), i, loc);
    }
}

} // verus!
