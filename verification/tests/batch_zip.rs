//! Batch collection, size limits, and the archives built from a batch.

use std::io::Read;

use filestore::archive::create_zip_archive;
use filestore::batch::calculate_total_size;
use filestore::batch::create_batch_download_zip;
use filestore::batch::should_compress_batch;
use filestore::batch::verify_size_limit;
use filestore::errors::FsError;
use filestore::models::Role;
use filestore::store::Store;

const ROOT: &str = "storage";

fn upload(s: &mut Store, user: u64, name: &str, path: &str, size: u64) -> u64 {
    s.upload_file(user, name, path, None, size, ROOT, 1).unwrap()
}

fn entry_names(zip_bytes: &[u8]) -> Vec<String> {
    let cursor = std::io::Cursor::new(zip_bytes.to_vec());
    let mut archive = zip::ZipArchive::new(cursor).unwrap();
    let mut names = Vec::new();
    for i in 0..archive.len() {
        names.push(archive.by_index(i).unwrap().name().to_string());
    }
    names
}

#[test]
fn test_create_zip_archive() {
    let files = vec![
        ("test1.txt".to_string(), b"Hello World".to_vec()),
        ("folder/test2.txt".to_string(), b"Test Content".to_vec()),
    ];

    let result = create_zip_archive(files);
    assert!(result.is_ok());
    let zip_data = result.unwrap();
    assert!(!zip_data.is_empty());
}

#[test]
fn archive_holds_the_given_entries_and_bytes() {
    let files = vec![
        ("one.txt".to_string(), b"alpha".to_vec()),
        ("two/els.txt".to_string(), b"beta".to_vec()),
    ];
    let bytes = create_zip_archive(files).unwrap();
    assert_eq!(entry_names(&bytes), vec!["one.txt", "two/els.txt"]);
    let cursor = std::io::Cursor::new(bytes);
    let mut archive = zip::ZipArchive::new(cursor).unwrap();
    let mut content = String::new();
    archive.by_name("one.txt").unwrap().read_to_string(&mut content).unwrap();
    assert_eq!(content, "alpha");
}

/// A batch of one folder holding `a.txt` and `sub/b.txt` produces archive
/// entries `FolderName/a.txt` and `FolderName/sub/b.txt`; one bare file
/// is handed back raw instead of being archived.
#[test]
fn folder_batch_keeps_relative_structure() {
    let mut s = Store::new();
    let folder = s.create_folder(1, "/", "FolderName", ROOT, 1).unwrap();
    let fa = upload(&mut s, 1, "a.txt", "/FolderName", 5);
    s.create_folder(1, "/FolderName", "sub", ROOT, 1).unwrap();
    let fb = upload(&mut s, 1, "b.txt", "/FolderName/sub", 5);

    let ids = vec![folder];
    let collected = s.collect_files_to_download(&ids, 1, Role::User).unwrap();
    assert_eq!(collected.files.len(), 2);
    let mut got: Vec<u64> = collected.files.iter().map(|e| e.id).collect();
    got.sort();
    let mut want = vec![fa, fb];
    want.sort();
    assert_eq!(got, want);

    let contents: Vec<Vec<u8>> = collected.files.iter().map(|_| b"x".to_vec()).collect();
    let bytes = create_batch_download_zip(
        &collected.files,
        &collected.folder_roots,
        &contents,
        false,
    )
    .unwrap();
    let mut names = entry_names(&bytes);
    names.sort();
    assert_eq!(names, vec!["FolderName/a.txt", "FolderName/sub/b.txt"]);

    // a single requested file bypasses archiving: the raw file is returned
    let one = vec![fa];
    let single = s.try_single_file_download(&one, 1, Role::User).unwrap();
    assert_eq!(single.unwrap().id, fa);
    // a single requested folder is not a raw download
    let one_folder = vec![folder];
    assert!(s.try_single_file_download(&one_folder, 1, Role::User).unwrap().is_none());
}

#[test]
fn duplicate_requests_do_not_double_count() {
    let mut s = Store::new();
    let folder = s.create_folder(1, "/", "d", ROOT, 1).unwrap();
    let f = upload(&mut s, 1, "a.txt", "/d", 10);
    let ids = vec![folder, f, folder];
    let collected = s.collect_files_to_download(&ids, 1, Role::User).unwrap();
    assert_eq!(collected.files.len(), 1);
    assert_eq!(calculate_total_size(&collected.files), 10);
}

/// A batch over the configured maximum fails with `TooLarge` before any
/// archive bytes are produced.
#[test]
fn oversized_batch_is_rejected_before_archiving() {
    let mut s = Store::new();
    let a = upload(&mut s, 1, "a.bin", "/", 600);
    let b = upload(&mut s, 1, "b.bin", "/", 500);
    let ids = vec![a, b];
    let collected = s.collect_files_to_download(&ids, 1, Role::User).unwrap();
    let total = calculate_total_size(&collected.files);
    assert_eq!(total, 1100);
    assert_eq!(verify_size_limit(total, 1000).unwrap_err(), FsError::TooLarge);
    assert!(verify_size_limit(total, 2000).is_ok());
}

#[test]
fn compression_follows_the_threshold() {
    assert!(!should_compress_batch(100, 100));
    assert!(should_compress_batch(101, 100));
}

#[test]
fn batch_collection_gates_on_missing_rows_and_permissions() {
    let mut s = Store::new();
    let f = upload(&mut s, 1, "a.txt", "/", 5);
    let missing = vec![f, 99];
    assert_eq!(
        s.collect_files_to_download(&missing, 1, Role::User).unwrap_err(),
        FsError::NotFound
    );
    let foreign = vec![f];
    assert_eq!(
        s.collect_files_to_download(&foreign, 2, Role::User).unwrap_err(),
        FsError::PermissionDenied
    );
    // an administrator reads everything
    assert!(s.collect_files_to_download(&foreign, 2, Role::Admin).is_ok());
}

#[test]
fn compressed_archives_still_hold_the_entries() {
    let mut s = Store::new();
    let f = upload(&mut s, 1, "big.txt", "/", 4);
    let ids = vec![f];
    let collected = s.collect_files_to_download(&ids, 1, Role::User).unwrap();
    let contents = vec![b"abcabcabcabc".to_vec()];
    let bytes = create_batch_download_zip(
        &collected.files,
        &collected.folder_roots,
        &contents,
        true,
    )
    .unwrap();
    assert_eq!(entry_names(&bytes), vec!["big.txt"]);
    let cursor = std::io::Cursor::new(bytes);
    let mut archive = zip::ZipArchive::new(cursor).unwrap();
    let mut content = Vec::new();
    archive.by_index(0).unwrap().read_to_end(&mut content).unwrap();
    assert_eq!(content, b"abcabcabcabc");
}

#[test]
fn verify_download_permissions_requires_read_on_every_file() {
    let mut s = Store::new();
    let f = upload(&mut s, 1, "a.txt", "/", 5);
    let ids = vec![f];
    let collected = s.collect_files_to_download(&ids, 1, Role::User).unwrap();
    assert_eq!(
        filestore::batch::verify_download_permissions(&s, &collected.files, 1, Role::User)
            .unwrap(),
        true
    );
    assert_eq!(
        filestore::batch::verify_download_permissions(&s, &collected.files, 2, Role::User)
            .unwrap_err(),
        FsError::PermissionDenied
    );
}

#[test]
fn nested_folder_request_roots_at_that_folder() {
    let mut s = Store::new();
    s.create_folder(1, "/", "FolderName", ROOT, 1).unwrap();
    let sub = s.create_folder(1, "/FolderName", "sub", ROOT, 1).unwrap();
    upload(&mut s, 1, "b.txt", "/FolderName/sub", 5);
    let ids = vec![sub];
    let collected = s.collect_files_to_download(&ids, 1, Role::User).unwrap();
    let contents = vec![b"y".to_vec()];
    let bytes =
        create_batch_download_zip(&collected.files, &collected.folder_roots, &contents, false)
            .unwrap();
    assert_eq!(entry_names(&bytes), vec!["sub/b.txt"]);
}
