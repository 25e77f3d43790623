//! The namespace store: uploads, dedup, deletion, relocation, grants.

use filestore::content::DedupOutcome;
use filestore::digest::calculate_file_hash;
use filestore::errors::FsError;
use filestore::models::Permission;
use filestore::models::Role;
use filestore::store::Store;

const ROOT: &str = "storage";

fn upload(s: &mut Store, user: u64, name: &str, path: &str, size: u64) -> u64 {
    s.upload_file(user, name, path, Some("text/plain".to_string()), size, ROOT, 1)
        .unwrap()
}

#[test]
fn upload_creates_row_with_one_reference() {
    let mut s = Store::new();
    let id = upload(&mut s, 1, "a.txt", "/", 3);
    let e = s.get_entry(id).unwrap();
    assert_eq!(e.path, "/a.txt");
    assert_eq!(e.parent_path, "/");
    assert_eq!(e.storage_path, "storage/1/a.txt");
    assert_eq!(e.ref_count, 1);
    assert!(e.content_hash.is_none());
}

#[test]
fn upload_disambiguates_names() {
    let mut s = Store::new();
    upload(&mut s, 1, "a.txt", "/", 3);
    let second = upload(&mut s, 1, "a.txt", "/", 3);
    let e = s.get_entry(second).unwrap();
    assert_eq!(e.name, "a (1).txt");
    assert_eq!(e.path, "/a (1).txt");
    let third = upload(&mut s, 1, "a.txt", "/", 3);
    assert_eq!(s.get_entry(third).unwrap().name, "a (2).txt");
}

#[test]
fn upload_rejects_bad_names_and_paths() {
    let mut s = Store::new();
    assert_eq!(
        s.upload_file(1, "a/b.txt", "/", None, 1, ROOT, 1).unwrap_err(),
        FsError::PathTraversal
    );
    assert_eq!(
        s.upload_file(1, "a.txt", "/../up", None, 1, ROOT, 1).unwrap_err(),
        FsError::PathTraversal
    );
}

/// Byte-identical uploads end up sharing one blob with both counts at 2;
/// deleting one row leaves the other's bytes referenced, at count 1.
#[test]
fn duplicate_uploads_share_one_blob() {
    let mut s = Store::new();
    let bytes = b"identical content";
    let d = calculate_file_hash(bytes);

    let a = upload(&mut s, 1, "a.txt", "/", bytes.len() as u64);
    let b = upload(&mut s, 1, "b.txt", "/", bytes.len() as u64);

    // the asynchronous pass runs for both uploads
    assert_eq!(s.deduplicate(a, &d, 2), DedupOutcome::HashRecorded);
    match s.deduplicate(b, &d, 3) {
        DedupOutcome::Merged { delete_candidate } => {
            // the loser's candidate bytes may be removed
            assert_eq!(delete_candidate, Some("storage/1/b.txt".to_string()));
        }
        other => panic!("expected a merge, got {:?}", other),
    }

    let ea = s.get_entry(a).unwrap();
    let eb = s.get_entry(b).unwrap();
    assert_eq!(ea.storage_path, "storage/1/a.txt");
    assert_eq!(eb.storage_path, "storage/1/a.txt");
    assert_eq!(ea.ref_count, 2);
    assert_eq!(eb.ref_count, 2);
    assert_eq!(ea.content_hash.as_deref(), Some(d.as_str()));
    assert_eq!(eb.content_hash.as_deref(), Some(d.as_str()));

    // releasing one reference keeps the shared bytes
    assert_eq!(s.decrease_ref_count(b).unwrap(), false);
    let orphans = s.delete_file(1, Role::User, b).unwrap();
    assert!(orphans.is_empty());
    let ea = s.get_entry(a).unwrap();
    assert_eq!(ea.ref_count, 1);
    assert_eq!(ea.storage_path, "storage/1/a.txt");

    // the last reference frees the blob
    assert_eq!(s.decrease_ref_count(a).unwrap(), true);
    let orphans = s.delete_file(1, Role::User, a).unwrap();
    assert_eq!(orphans, vec!["storage/1/a.txt".to_string()]);
}

#[test]
fn dedup_pass_tolerates_a_vanished_row() {
    let mut s = Store::new();
    assert_eq!(s.deduplicate(42, "deadbeef", 1), DedupOutcome::Gone);
}

#[test]
fn rename_rejects_existing_path_with_conflict() {
    let mut s = Store::new();
    let a = upload(&mut s, 1, "a.txt", "/", 1);
    upload(&mut s, 1, "b.txt", "/", 1);
    assert_eq!(
        s.rename_file(1, Role::User, a, "b.txt", ROOT, 5).unwrap_err(),
        FsError::Conflict
    );
    // the store is untouched
    assert_eq!(s.get_entry(a).unwrap().path, "/a.txt");
}

#[test]
fn rename_folder_cascades_to_descendants() {
    let mut s = Store::new();
    let folder = s.create_folder(1, "/", "docs", ROOT, 1).unwrap();
    s.create_folder(1, "/docs", "sub", ROOT, 1).unwrap();
    let f = upload(&mut s, 1, "n.txt", "/docs/sub", 4);
    s.rename_file(1, Role::User, folder, "papers", ROOT, 9).unwrap();
    assert_eq!(s.get_entry(folder).unwrap().path, "/papers");
    let e = s.get_entry(f).unwrap();
    assert_eq!(e.path, "/papers/sub/n.txt");
    assert_eq!(e.parent_path, "/papers/sub");
    assert_eq!(e.storage_path, "storage/1/papers/sub/n.txt");
}

#[test]
fn move_relocates_under_destination() {
    let mut s = Store::new();
    s.create_folder(1, "/", "dst", ROOT, 1).unwrap();
    let f = upload(&mut s, 1, "a.txt", "/", 1);
    s.move_file(1, Role::User, f, "/dst", ROOT, 7).unwrap();
    let e = s.get_entry(f).unwrap();
    assert_eq!(e.path, "/dst/a.txt");
    assert_eq!(e.parent_path, "/dst");
}

#[test]
fn copy_folder_duplicates_rows_with_fresh_storage() {
    let mut s = Store::new();
    let folder = s.create_folder(1, "/", "docs", ROOT, 1).unwrap();
    upload(&mut s, 1, "a.txt", "/docs", 2);
    s.create_folder(1, "/", "dst", ROOT, 1).unwrap();
    let copied_root = s.copy_file(1, Role::User, folder, "/dst", ROOT, 8).unwrap();
    let root = s.get_entry(copied_root).unwrap();
    assert_eq!(root.path, "/dst/docs");
    // the original is intact and the copy counts its own references
    let list = s.get_folder_files_recursive("/dst/docs", 1);
    assert_eq!(list.len(), 2);
    let copy_file_row = list.iter().find(|e| e.name == "a.txt").unwrap();
    assert_eq!(copy_file_row.path, "/dst/docs/a.txt");
    assert_eq!(copy_file_row.storage_path, "storage/1/dst/docs/a.txt");
    assert_eq!(copy_file_row.ref_count, 1);
}

#[test]
fn copy_into_occupied_destination_gets_a_new_name() {
    let mut s = Store::new();
    let f = upload(&mut s, 1, "a.txt", "/", 2);
    let copied = s.copy_file(1, Role::User, f, "/", ROOT, 3).unwrap();
    assert_eq!(s.get_entry(copied).unwrap().name, "a (1).txt");
}

#[test]
fn upload_refuses_to_adopt_a_live_blob_location() {
    let mut s = Store::new();
    let bytes = b"shared";
    let d = calculate_file_hash(bytes);
    let x = upload(&mut s, 1, "x", "/", 6);
    let y = upload(&mut s, 1, "y", "/", 6);
    assert_eq!(s.deduplicate(x, &d, 2), DedupOutcome::HashRecorded);
    assert!(matches!(s.deduplicate(y, &d, 3), DedupOutcome::Merged { .. }));
    // remove the winner's row; its blob lives on under the survivor
    let orphans = s.delete_file(1, Role::User, x).unwrap();
    assert!(orphans.is_empty());
    assert_eq!(s.get_entry(y).unwrap().storage_path, "storage/1/x");
    // a fresh upload whose derived location hits the parked blob is refused
    assert_eq!(
        s.upload_file(1, "x", "/", None, 1, ROOT, 5).unwrap_err(),
        FsError::Inconsistent
    );
}

#[test]
fn renaming_a_shared_blob_moves_every_sharer() {
    let mut s = Store::new();
    let d = calculate_file_hash(b"shared");
    let x = upload(&mut s, 1, "x", "/", 6);
    let y = upload(&mut s, 1, "y", "/", 6);
    assert_eq!(s.deduplicate(x, &d, 2), DedupOutcome::HashRecorded);
    assert!(matches!(s.deduplicate(y, &d, 3), DedupOutcome::Merged { .. }));
    s.rename_file(1, Role::User, y, "z", ROOT, 4).unwrap();
    // the blob followed the rename for both referencing rows
    assert_eq!(s.get_entry(x).unwrap().storage_path, "storage/1/z");
    assert_eq!(s.get_entry(y).unwrap().storage_path, "storage/1/z");
    assert_eq!(s.get_entry(x).unwrap().path, "/x");
    assert_eq!(s.get_entry(y).unwrap().path, "/z");
    assert_eq!(s.get_entry(x).unwrap().ref_count, 2);
}

#[test]
fn permissions_follow_owner_admin_and_grants() {
    let mut s = Store::new();
    let f = upload(&mut s, 1, "a.txt", "/", 1);
    // owner and administrator hold all rights
    assert_eq!(s.check_permission(1, Role::User, f, Permission::Delete), Ok(true));
    assert_eq!(s.check_permission(9, Role::Admin, f, Permission::Write), Ok(true));
    // a stranger holds none
    assert_eq!(s.check_permission(2, Role::User, f, Permission::Read), Ok(false));
    // a read-only grant confers reading alone
    s.grant_permission(9, Role::Admin, f, 2, true, false, false, 4).unwrap();
    let e = s.get_entry(f).unwrap();
    let (r, w, d) = s.get_file_permissions(2, Role::User, e);
    assert_eq!((r, w, d), (true, false, false));
    // non-administrators may not grant
    assert_eq!(
        s.grant_permission(2, Role::User, f, 3, true, true, true, 5).unwrap_err(),
        FsError::PermissionDenied
    );
    // revoking removes the rights again
    s.revoke_permission(9, Role::Admin, f, 2).unwrap();
    assert_eq!(s.check_permission(2, Role::User, f, Permission::Read), Ok(false));
}

/// A non-owner with a read-only grant can fetch a file but is denied
/// renaming and deleting it.
#[test]
fn read_only_grant_denies_mutation() {
    let mut s = Store::new();
    let f = upload(&mut s, 1, "a.txt", "/", 1);
    s.grant_permission(9, Role::Admin, f, 2, true, false, false, 2).unwrap();
    let ids = vec![f];
    let fetched = s.try_single_file_download(&ids, 2, Role::User).unwrap();
    assert!(fetched.is_some());
    assert_eq!(
        s.rename_file(2, Role::User, f, "b.txt", ROOT, 3).unwrap_err(),
        FsError::PermissionDenied
    );
    assert_eq!(
        s.delete_file(2, Role::User, f).unwrap_err(),
        FsError::PermissionDenied
    );
}

#[test]
fn delete_missing_row_is_not_found() {
    let mut s = Store::new();
    assert_eq!(s.delete_file(1, Role::Admin, 77).unwrap_err(), FsError::NotFound);
}

#[test]
fn folder_delete_cascades_and_reports_orphans() {
    let mut s = Store::new();
    let folder = s.create_folder(1, "/", "docs", ROOT, 1).unwrap();
    let f = upload(&mut s, 1, "a.txt", "/docs", 2);
    let orphans = s.delete_file(1, Role::User, folder).unwrap();
    assert!(s.get_entry(folder).is_none());
    assert!(s.get_entry(f).is_none());
    assert!(orphans.contains(&"storage/1/docs".to_string()));
    assert!(orphans.contains(&"storage/1/docs/a.txt".to_string()));
}

#[test]
fn find_duplicate_file_matches_owner_and_digest() {
    let mut s = Store::new();
    let d = calculate_file_hash(b"abc");
    let a = upload(&mut s, 1, "a", "/", 3);
    assert_eq!(s.find_duplicate_file(&d, 1), None);
    assert_eq!(s.deduplicate(a, &d, 2), DedupOutcome::HashRecorded);
    assert_eq!(s.find_duplicate_file(&d, 1), Some(a));
    assert_eq!(s.find_duplicate_file(&d, 2), None);
}

#[test]
fn instant_upload_reuses_the_existing_blob() {
    let mut s = Store::new();
    let d = calculate_file_hash(b"abc");
    let a = upload(&mut s, 1, "a", "/", 3);
    assert_eq!(s.deduplicate(a, &d, 2), DedupOutcome::HashRecorded);
    let b = s.instant_upload(a, "b", "/", 1, 3).unwrap();
    let ea = s.get_entry(a).unwrap();
    let eb = s.get_entry(b).unwrap();
    assert_eq!(eb.storage_path, ea.storage_path);
    assert_eq!(ea.ref_count, 2);
    assert_eq!(eb.ref_count, 2);
    assert_eq!(eb.content_hash.as_deref(), Some(d.as_str()));
}

#[test]
fn move_folder_cascades_and_rejects_occupied_destinations() {
    let mut s = Store::new();
    let docs = s.create_folder(1, "/", "docs", ROOT, 1).unwrap();
    let f = upload(&mut s, 1, "a.txt", "/docs", 2);
    s.create_folder(1, "/", "dst", ROOT, 1).unwrap();
    s.move_file(1, Role::User, docs, "/dst", ROOT, 5).unwrap();
    assert_eq!(s.get_entry(docs).unwrap().path, "/dst/docs");
    assert_eq!(s.get_entry(f).unwrap().path, "/dst/docs/a.txt");
    // moving something else onto the same spot is rejected
    let other = s.create_folder(1, "/", "docs", ROOT, 6).unwrap();
    assert_eq!(
        s.move_file(1, Role::User, other, "/dst", ROOT, 7).unwrap_err(),
        FsError::Conflict
    );
    // moving to where it already stands changes nothing
    assert!(s.move_file(1, Role::User, docs, "/dst", ROOT, 8).is_ok());
    assert_eq!(s.get_entry(docs).unwrap().path, "/dst/docs");
}

#[test]
fn create_folder_rejects_duplicates_and_bad_input() {
    let mut s = Store::new();
    s.create_folder(1, "/", "docs", ROOT, 1).unwrap();
    assert_eq!(
        s.create_folder(1, "/", "docs", ROOT, 2).unwrap_err(),
        FsError::Conflict
    );
    assert_eq!(
        s.create_folder(1, "/", "..", ROOT, 2).unwrap_err(),
        FsError::PathTraversal
    );
    // another owner may use the same path
    assert!(s.create_folder(2, "/", "docs", ROOT, 3).is_ok());
}

#[test]
fn missing_rows_surface_not_found_for_every_actor() {
    let mut s = Store::new();
    // the single-right check names the missing row
    assert_eq!(
        s.check_permission(1, Role::User, 42, Permission::Read),
        Err(FsError::NotFound)
    );
    // mutations look the row up before gating on rights
    assert_eq!(
        s.rename_file(1, Role::User, 42, "n.txt", ROOT, 1).unwrap_err(),
        FsError::NotFound
    );
    assert_eq!(
        s.move_file(1, Role::User, 42, "/", ROOT, 1).unwrap_err(),
        FsError::NotFound
    );
    assert_eq!(
        s.copy_file(1, Role::User, 42, "/", ROOT, 1).unwrap_err(),
        FsError::NotFound
    );
    assert_eq!(s.delete_file(1, Role::User, 42).unwrap_err(), FsError::NotFound);
}
