//! Text helpers, digests, headers, configuration, and listings.

use filestore::config::BatchDownloadConfig;
use filestore::config::Config;
use filestore::config::DatabaseConfig;
use filestore::config::LoggingConfig;
use filestore::config::SecurityConfig;
use filestore::config::ServerConfig;
use filestore::config::StorageConfig;
use filestore::config::default_batch_download_config;
use filestore::config::default_compression_threshold;
use filestore::config::default_jwt_expiration_hours;
use filestore::config::default_log_level;
use filestore::config::default_max_batch_download_size;
use filestore::config::default_max_connections;
use filestore::config::default_max_upload_size;
use filestore::config::default_min_connections;
use filestore::config::default_storage_dir;
use filestore::digest::calculate_file_hash;
use filestore::encoding::content_disposition;
use filestore::errors::FsError;
use filestore::models::FileType;
use filestore::models::Role;
use filestore::store::Store;
use filestore::textnorm::sql_equals;

fn test_config() -> Config {
    Config {
        server: ServerConfig { address: "127.0.0.1:8080".to_string(), max_upload_size: default_max_upload_size() },
        database: DatabaseConfig {
            url: "sqlite:data/app.db?mode=rwc".to_string(),
            max_connections: default_max_connections(),
            min_connections: default_min_connections(),
        },
        security: SecurityConfig {
            jwt_secret: "SECRET-REDACTED".to_string(),
            jwt_expiration_hours: default_jwt_expiration_hours(),
        },
        logging: LoggingConfig { level: default_log_level(), log_dir: None, log_to_file: false },
        storage: StorageConfig { dir: default_storage_dir() },
        batch_download: default_batch_download_config(),
    }
}

#[test]
fn config_defaults_and_getters() {
    let c = test_config();
    assert_eq!(c.get_storage_dir(), "storage");
    assert_eq!(c.get_database_dir(), Some("data".to_string()));
    assert_eq!(c.get_log_dir(), None);
    assert_eq!(c.jwt_secret(), "SECRET-REDACTED");
    assert_eq!(c.database_url(), "sqlite:data/app.db?mode=rwc");
    assert_eq!(c.server_address(), "127.0.0.1:8080");
    assert_eq!(default_compression_threshold(), 256 * 1024 * 1024);
    assert_eq!(default_max_batch_download_size(), 1024 * 1024 * 1024);
    let b: BatchDownloadConfig = default_batch_download_config();
    assert_eq!(b.max_total_size, 1024 * 1024 * 1024);
}

#[test]
fn database_dir_cases() {
    let mut c = test_config();
    c.database.url = "postgres://example".to_string();
    assert_eq!(c.get_database_dir(), None);
    c.database.url = "sqlite:app.db".to_string();
    assert_eq!(c.get_database_dir(), Some("".to_string()));
    c.database.url = "sqlite:/var/db/app.db".to_string();
    assert_eq!(c.get_database_dir(), Some("/var/db".to_string()));
}

#[test]
fn sql_text_comparison_ignores_case_and_spacing() {
    assert!(sql_equals("CREATE  INDEX\n idx ON t(a)", "create index idx on t(a)"));
    assert!(!sql_equals("CREATE INDEX idx ON t(a)", "CREATE INDEX idx ON t(b)"));
    assert!(sql_equals("  a  b  ", "A B"));
}

#[test]
fn digest_is_the_standard_hex_rendering() {
    assert_eq!(
        calculate_file_hash(b"abc"),
        "ba7816bf8f01cfea414140de5dae2223b00361a396177a9cb410ff61f20015ad"
    );
    assert_eq!(calculate_file_hash(b"").len(), 64);
}

#[test]
fn content_disposition_quotes_and_escapes() {
    assert_eq!(
        content_disposition("a b.txt", false),
        "inline; filename=\"a b.txt\"; filename*=UTF-8''a%20b%2Etxt"
    );
    assert_eq!(
        content_disposition("we\"ird.txt", true),
        "attachment; filename=\"weird.txt\"; filename*=UTF-8''we%22ird%2Etxt"
    );
}

#[test]
fn error_labels_are_stable() {
    assert_eq!(FsError::TooLarge.label(), "too large");
    assert_eq!(FsError::PathTraversal.label(), "path traversal");
}

#[test]
fn file_type_tags() {
    assert_eq!(FileType::File.as_str(), "file");
    assert_eq!(FileType::Folder.as_str(), "folder");
}

#[test]
fn listing_shows_rows_with_rights() {
    let mut s = Store::new();
    s.create_folder(1, "/", "docs", "storage", 1).unwrap();
    s.upload_file(1, "a.txt", "/", Some("text/plain".to_string()), 7, "storage", 2).unwrap();
    // owners see their rows
    let resp = s.list_files(1, Role::User, 1, "/").unwrap();
    assert_eq!(resp.current_path, "/");
    assert_eq!(resp.files.len(), 2);
    let item = resp.files.iter().find(|it| it.name == "a.txt").unwrap();
    assert_eq!(item.file_type, FileType::File);
    assert_eq!(item.size_bytes, Some(7));
    assert!(item.can_read && item.can_write && item.can_delete && item.is_owner);
    // strangers may not list someone else's tree
    assert_eq!(s.list_files(2, Role::User, 1, "/").unwrap_err(), FsError::PermissionDenied);
    // administrators may
    assert_eq!(s.list_files(2, Role::Admin, 1, "/").unwrap().files.len(), 2);
}

#[test]
fn size_calculation_sums_files_and_folders() {
    let mut s = Store::new();
    let folder = s.create_folder(1, "/", "docs", "storage", 1).unwrap();
    s.upload_file(1, "a.txt", "/docs", None, 10, "storage", 2).unwrap();
    s.upload_file(1, "b.txt", "/docs", None, 20, "storage", 2).unwrap();
    let direct = s.upload_file(1, "c.txt", "/", None, 5, "storage", 2).unwrap();
    let ids = vec![folder, direct, 999];
    let r = s.calculate_size(1, Role::User, &ids);
    assert_eq!(r.total_size_bytes, 35);
    assert_eq!(r.file_count, 3);
    assert_eq!(r.folder_count, 1);
    // unreadable entries are skipped
    let r2 = s.calculate_size(2, Role::User, &ids);
    assert_eq!(r2.total_size_bytes, 0);
}

#[test]
fn unique_filename_generation() {
    let mut s = Store::new();
    s.upload_file(1, "n.txt", "/", None, 1, "storage", 1).unwrap();
    let next = s.generate_unique_filename("n.txt", 1, "/").unwrap();
    assert_eq!(next, "n (1).txt");
    let free = s.generate_unique_filename("other.txt", 1, "/").unwrap();
    assert_eq!(free, "other.txt");
    assert_eq!(
        s.generate_unique_filename("a/b", 1, "/").unwrap_err(),
        FsError::PathTraversal
    );
}
