//! The store-wide guarantees, stated and proved once over the model that
//! the operations' contracts speak of.

use vstd::prelude::*;

use crate::content::dedup_transition;
use crate::content::dup_idx_excl;
use crate::content::hashed_row;
use crate::content::lemma_dup_idx_excl;
use crate::content::merged_row;
use crate::entry::EntryV;
use crate::entry::count_sharers;
use crate::entry::lemma_count_congruent;
use crate::entry::lemma_count_pos;
use crate::entry::lemma_count_two;
use crate::entry::lemma_count_update;
use crate::entry::shares_loc;
use crate::models::FileType;
use crate::store::Store;
use crate::store::entry_idx;
use crate::store::lemma_entry_idx;
use crate::store::storage_taken;
use crate::store::with_counts;
use crate::store::lemma_with_counts_wf;

verus! {

/// For every owner, the set of logical paths among their rows is unique:
/// no two rows of one owner share a path, in any well-formed store.
pub proof fn lemma_owner_paths_unique(s: Store, i: int, j: int)
    requires
        s.wf(),
        0 <= i < s.entries().len(),
        0 <= j < s.entries().len(),
        i != j,
        s.entries()[i].owner_id == s.entries()[j].owner_id,
    ensures
        s.entries()[i].path != s.entries()[j].path,
{
}

/// A file row's reference count never reaches zero while the row exists:
/// it always equals the number of rows sharing its blob, which includes
/// the row itself.
pub proof fn lemma_ref_count_positive(s: Store, i: int)
    requires
        s.wf(),
        0 <= i < s.entries().len(),
        s.entries()[i].kind == FileType::File,
    ensures
        s.entries()[i].ref_count == count_sharers(s.entries(), s.entries()[i].storage_path),
        s.entries()[i].ref_count >= 1,
{
    lemma_count_pos(s.entries(), s.entries()[i].storage_path, i);
}

/// `entry_idx` depends only on the rows' ids.
proof fn lemma_entry_idx_congruent(a: Seq<EntryV>, b: Seq<EntryV>, id: u64)
    requires
        a.len() == b.len(),
        forall|k: int| 0 <= k < a.len() ==> (#[trigger] a[k]).id == b[k].id,
    ensures
        entry_idx(a, id) == entry_idx(b, id),
    decreases a.len(),
{
    if a.len() > 0 && a[0].id != id {
        assert forall|k: int| 0 <= k < a.drop_first().len() implies (
        #[trigger] a.drop_first()[k]).id == b.drop_first()[k].id by {
            assert(a.drop_first()[k] == a[k + 1] && b.drop_first()[k] == b[k + 1]);
        }
        lemma_entry_idx_congruent(a.drop_first(), b.drop_first(), id);
    }
}

/// Two uploads of byte-identical content, followed by the asynchronous
/// dedup pass over each (in either order, instantiating `a` and `b`
/// accordingly), end with exactly one blob: both rows point at the first
/// row's location with both reference counts at two, and the second
/// row's candidate blob is referenced by nothing.
pub proof fn lemma_identical_uploads_converge(
    s: Store,
    a_id: u64,
    b_id: u64,
    d: Seq<char>,
    t1: i64,
    t2: i64,
)
    requires
        s.wf(),
        a_id != b_id,
        ({
            let es = s.entries();
            let ia = entry_idx(es, a_id);
            let ib = entry_idx(es, b_id);
            &&& ia >= 0 && ib >= 0
            &&& es[ia].kind == FileType::File && es[ib].kind == FileType::File
            &&& es[ia].owner_id == es[ib].owner_id
            &&& es[ia].content_hash is None && es[ib].content_hash is None
            &&& es[ia].ref_count == 1 && es[ib].ref_count == 1
            &&& forall|k: int|
                0 <= k < es.len() ==> !((#[trigger] es[k]).kind == FileType::File && es[k].owner_id
                    == es[ia].owner_id && es[k].content_hash == Some(d))
        }),
    ensures
        ({
            let es = s.entries();
            let ia = entry_idx(es, a_id);
            let ib = entry_idx(es, b_id);
            let es2 = dedup_transition(dedup_transition(es, a_id, d, t1), b_id, d, t2);
            &&& es2.len() == es.len()
            &&& es2[ia].storage_path == es[ia].storage_path
            &&& es2[ib].storage_path == es[ia].storage_path
            &&& es2[ia].ref_count == 2 && es2[ib].ref_count == 2
            &&& es2[ia].content_hash == Some(d) && es2[ib].content_hash == Some(d)
            &&& !storage_taken(es2, es[ib].storage_path)
        }),
{
    let es = s.entries();
    vstd::std_specs::vec::axiom_spec_len(&s.files);
    assert(es.len() == s.files@.len());
    let ia = entry_idx(es, a_id);
    let ib = entry_idx(es, b_id);
    lemma_entry_idx(es, a_id);
    lemma_entry_idx(es, b_id);
    let u = es[ia].owner_id;
    let aloc = es[ia].storage_path;
    let bloc = es[ib].storage_path;
    assert(ia != ib);

    // the two candidate blobs are distinct and singly referenced
    assert(count_sharers(es, aloc) == 1 && count_sharers(es, bloc) == 1);
    assert(aloc != bloc) by {
        if aloc == bloc {
            lemma_count_two(es, aloc, ia, ib);
        }
    }

    // first pass: no identical content exists yet, so `a` just records d
    lemma_dup_idx_excl(es, u, d, a_id);
    assert(dup_idx_excl(es, u, d, a_id) == -1);
    let m1 = es.update(ia, hashed_row(es[ia], d, t1));
    let es1 = dedup_transition(es, a_id, d, t1);
    assert(es1 == with_counts(m1));
    assert(crate::entry::ids_unique(m1) && crate::entry::paths_unique(m1)
        && crate::entry::shapes_ok(m1) && crate::entry::hashes_consistent(m1)) by {
        assert forall|x: int, y: int| 0 <= x < m1.len() && 0 <= y < m1.len() implies (
        (#[trigger] m1[x]).storage_path == (#[trigger] m1[y]).storage_path ==> es[x].storage_path
            == es[y].storage_path) by {}
        assert forall|x: int, y: int|
            0 <= x < m1.len() && 0 <= y < m1.len() && (#[trigger] m1[x]).kind == FileType::File && (
            #[trigger] m1[y]).kind == FileType::File && m1[x].storage_path == m1[y].storage_path
            implies m1[x].content_hash == m1[y].content_hash by {
            if x == ia && y != ia {
                lemma_count_two(es, aloc, ia, y);
            } else if y == ia && x != ia {
                lemma_count_two(es, aloc, ia, x);
            }
        }
    }
    lemma_with_counts_wf(m1);
    // counts are unchanged by recording a digest
    assert forall|x: int| 0 <= x < es1.len() implies count_sharers(m1, (#[trigger] m1[x]).storage_path)
        == count_sharers(es, es[x].storage_path) by {
        lemma_count_congruent(m1, es, m1[x].storage_path, es[x].storage_path);
    }
    assert(es1[ia].content_hash == Some(d) && es1[ia].storage_path == aloc && es1[ia].ref_count
        == 1);
    assert(es1[ib].content_hash is None && es1[ib].storage_path == bloc && es1[ib].ref_count == 1);

    // second pass: `b` finds `a` as its canonical duplicate and merges
    assert forall|k: int| 0 <= k < es1.len() implies (#[trigger] es1[k]).id == es[k].id by {}
    lemma_entry_idx_congruent(es1, es, a_id);
    lemma_entry_idx_congruent(es1, es, b_id);
    assert(entry_idx(es1, b_id) == ib);
    lemma_dup_idx_excl(es1, u, d, b_id);
    let c = dup_idx_excl(es1, u, d, b_id);
    assert(c == ia) by {
        assert(es1[ia].kind == FileType::File && es1[ia].owner_id == u && es1[ia].content_hash
            == Some(d) && es1[ia].id != b_id);
        assert(c >= 0);
        if c != ia {
            assert(es1[c].content_hash == Some(d));
            assert(es[c].content_hash == Some(d));
            assert(false);
        }
    }
    let m2 = es1.update(ib, merged_row(es1[ib], es1[ia], d, t2));
    let es2 = dedup_transition(es1, b_id, d, t2);
    assert(es2 == with_counts(m2));
    assert(crate::entry::ids_unique(m2) && crate::entry::paths_unique(m2)
        && crate::entry::shapes_ok(m2) && crate::entry::hashes_consistent(m2)) by {
        assert forall|x: int, y: int|
            0 <= x < m2.len() && 0 <= y < m2.len() && (#[trigger] m2[x]).kind == FileType::File && (
            #[trigger] m2[y]).kind == FileType::File && m2[x].storage_path == m2[y].storage_path
            implies m2[x].content_hash == m2[y].content_hash by {
            if x == ib && y != ib {
                if m2[y].storage_path == aloc && y != ia {
                    lemma_count_two(es, aloc, ia, y);
                }
            } else if y == ib && x != ib {
                if m2[x].storage_path == aloc && x != ia {
                    lemma_count_two(es, aloc, ia, x);
                }
            }
        }
    }
    lemma_with_counts_wf(m2);

    // exactly the two rows share the winner's blob now
    assert(count_sharers(m2, aloc) == 2) by {
        lemma_count_update(es1, ib, merged_row(es1[ib], es1[ia], d, t2), aloc);
        lemma_count_congruent(es1, es, aloc, aloc);
    }
    assert(es2[ia].ref_count == 2) by {
        assert(m2[ia].storage_path == aloc);
    }
    assert(es2[ib].ref_count == 2) by {
        assert(m2[ib].storage_path == aloc);
    }

    // the loser's candidate blob is referenced by nothing
    assert(!storage_taken(es2, bloc)) by {
        if storage_taken(es2, bloc) {
            let w = choose|w: int| 0 <= w < es2.len() && shares_loc(#[trigger] es2[w], bloc);
            assert(m2[w].storage_path == bloc && m2[w].kind == FileType::File);
            assert(w != ib);
            assert(es[w].storage_path == bloc && es[w].kind == FileType::File);
            lemma_count_two(es, bloc, ib, w);
        }
    }
}


/// Releasing one of two rows sharing a blob keeps the blob referenced:
/// the surviving row still points at it, now as the single reference.
pub proof fn lemma_release_shared_blob(s: Store, i: int, j: int)
    requires
        s.wf(),
        0 <= i < s.entries().len(),
        0 <= j < s.entries().len(),
        i != j,
        s.entries()[i].kind == FileType::File,
        s.entries()[j].kind == FileType::File,
        s.entries()[i].storage_path == s.entries()[j].storage_path,
        s.entries()[i].ref_count == 2,
    ensures
        ({
            let es = s.entries();
            let es2 = with_counts(es.remove(i));
            let j2 = if j < i {
                j
            } else {
                j - 1
            };
            &&& es2[j2].storage_path == es[j].storage_path
            &&& es2[j2].ref_count == 1
            &&& storage_taken(es2, es[j].storage_path)
        }),
{
    let es = s.entries();
    vstd::std_specs::vec::axiom_spec_len(&s.files);
    assert(es.len() == s.files@.len());
    let loc = es[i].storage_path;
    let mid = es.remove(i);
    let j2: int = if j < i {
        j
    } else {
        j - 1
    };
    assert(mid[j2] == es[j]);
    crate::entry::lemma_count_remove(es, i, loc);
    assert(count_sharers(mid, loc) == 1);
    assert forall|x: int| 0 <= x < mid.len() implies count_sharers(mid, (#[trigger] mid[x]).storage_path)
        <= mid.len() by {
        crate::entry::lemma_count_le_len(mid, mid[x].storage_path);
    }
    assert(with_counts(mid)[j2].ref_count == 1);
    assert(shares_loc(with_counts(mid)[j2], loc));
}

/// Releasing a blob's last reference leaves it referenced by nothing:
/// exactly then may its bytes be removed from disk.
pub proof fn lemma_release_last_reference(s: Store, i: int)
    requires
        s.wf(),
        0 <= i < s.entries().len(),
        s.entries()[i].kind == FileType::File,
        s.entries()[i].ref_count == 1,
    ensures
        !storage_taken(
            with_counts(s.entries().remove(i)),
            s.entries()[i].storage_path,
        ),
{
    let es = s.entries();
    let loc = es[i].storage_path;
    let mid = es.remove(i);
    crate::entry::lemma_count_remove(es, i, loc);
    assert(count_sharers(mid, loc) == 0);
    if storage_taken(with_counts(mid), loc) {
        let w = choose|w: int|
            0 <= w < with_counts(mid).len() && shares_loc(#[trigger] with_counts(mid)[w], loc);
        assert(shares_loc(mid[w], loc));
        crate::entry::lemma_count_pos(mid, loc, w);
    }
}

} // verus!
