//! Path, name and rendering helpers.

use filestore::paths::sanitize_path;
use filestore::paths::split_filename;
use filestore::paths::get_user_storage_path;
use filestore::paths::physical_location;
use filestore::mime::get_mime_type;
use filestore::sizefmt::format_file_size;
use filestore::errors::FsError;
use filestore::decimal::u64_to_string;
use filestore::decimal::i64_to_string;

#[test]
fn test_sanitize_path() {
    assert_eq!(sanitize_path("/valid/path").unwrap(), "/valid/path");
    assert_eq!(sanitize_path("valid/path").unwrap(), "/valid/path");
    assert!(sanitize_path("/../etc/passwd").is_err());
    assert!(sanitize_path("/path/../secret").is_err());
}

#[test]
fn test_get_mime_type() {
    assert_eq!(get_mime_type("test.jpg"), "image/jpeg");
    assert_eq!(get_mime_type("doc.pdf"), "application/pdf");
    assert_eq!(get_mime_type("video.mp4"), "video/mp4");
}

#[test]
fn test_format_file_size() {
    assert_eq!(format_file_size(0), "0 B");
    assert_eq!(format_file_size(1024), "1.0 KB");
    assert_eq!(format_file_size(1048576), "1.0 MB");
}

#[test]
fn normalize_rejects_traversal_and_collapses_separators() {
    assert_eq!(sanitize_path("../../etc/passwd").unwrap_err(), FsError::PathTraversal);
    assert_eq!(sanitize_path("a/../../b").unwrap_err(), FsError::PathTraversal);
    assert_eq!(sanitize_path("a//b/").unwrap(), "/a/b/");
}

#[test]
fn normalize_trims_and_maps_backslashes() {
    assert_eq!(sanitize_path("  docs\\sub  ").unwrap(), "/docs/sub");
    assert_eq!(sanitize_path("").unwrap(), "/");
    assert_eq!(sanitize_path("   ").unwrap(), "/");
}

#[test]
fn mime_type_is_case_insensitive_and_defaults() {
    assert_eq!(get_mime_type("photo.JPG"), "image/jpeg");
    assert_eq!(get_mime_type("archive.tar.gz"), "application/gzip");
    assert_eq!(get_mime_type("noext"), "application/octet-stream");
    assert_eq!(get_mime_type("dir.with.dots/readme"), "application/octet-stream");
}

#[test]
fn split_filename_splits_at_last_dot() {
    assert_eq!(split_filename("file.txt"), ("file", "txt"));
    assert_eq!(split_filename("archive.tar.gz"), ("archive.tar", "gz"));
    assert_eq!(split_filename("README"), ("README", ""));
}

#[test]
fn storage_paths_join_owner_and_logical_path() {
    assert_eq!(get_user_storage_path("storage", 7), "storage/7");
    assert_eq!(physical_location("storage", 7, "/docs/a.txt"), "storage/7/docs/a.txt");
}

#[test]
fn decimal_rendering() {
    assert_eq!(u64_to_string(0), "0");
    assert_eq!(u64_to_string(1048576), "1048576");
    assert_eq!(i64_to_string(-42), "-42");
    assert_eq!(format_file_size(-5), "-5.0 B");
    assert_eq!(format_file_size(1536), "1.5 KB");
    assert_eq!(format_file_size(500), "500.0 B");
}
