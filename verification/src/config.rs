//! Process-wide configuration: immutable after startup. Loading from the
//! environment happens outside the library; here live the value types,
//! the documented defaults, and the derived directory getters.

use vstd::prelude::*;

use crate::paths::last_pos;
use crate::paths::find_last;
use crate::strutil::has_prefix;

verus! {

/// Listen address and upload cap of the HTTP front end.
pub struct ServerConfig {
    pub address: String,
    pub max_upload_size: usize,
}

/// Connection settings of the relational store.
pub struct DatabaseConfig {
    pub url: String,
    pub max_connections: u32,
    pub min_connections: u32,
}

/// Token signing settings.
pub struct SecurityConfig {
    pub jwt_secret: String,
    pub jwt_expiration_hours: i64,
}

/// Log level and optional log file directory.
pub struct LoggingConfig {
    pub level: String,
    pub log_dir: Option<String>,
    pub log_to_file: bool,
}

/// Root directory of the physical blob store.
pub struct StorageConfig {
    pub dir: String,
}

/// Limits applied to batch downloads.
pub struct BatchDownloadConfig {
    /// Maximum total size for batch downloads in bytes.
    pub max_total_size: usize,
    /// Size threshold above which compression is enabled.
    pub compression_threshold: usize,
}

/// The full process configuration.
pub struct Config {
    pub server: ServerConfig,
    pub database: DatabaseConfig,
    pub security: SecurityConfig,
    pub logging: LoggingConfig,
    pub storage: StorageConfig,
    pub batch_download: BatchDownloadConfig,
}

/// Default pool upper bound.
pub fn default_max_connections() -> (r: u32)
    ensures
        r == 5,
{
    5
}

/// Default pool lower bound.
pub fn default_min_connections() -> (r: u32)
    ensures
        r == 1,
{
    1
}

/// Default token lifetime in hours.
pub fn default_jwt_expiration_hours() -> (r: i64)
    ensures
        r == 24,
{
    24
}

/// Default log level.
pub fn default_log_level() -> (r: String)
    ensures
        r@ == "info"@,
{
    "info".to_owned()
}

/// Default storage root.
pub fn default_storage_dir() -> (r: String)
    ensures
        r@ == "storage"@,
{
    "storage".to_owned()
}

/// Default upload cap: 1 GiB.
pub fn default_max_upload_size() -> (r: usize)
    ensures
        r == 0x40000000,
{
    0x40000000
}

/// Default batch download cap: 1 GiB.
pub fn default_max_batch_download_size() -> (r: usize)
    ensures
        r == 0x40000000,
{
    0x40000000
}

/// Default compression threshold: 256 MiB.
pub fn default_compression_threshold() -> (r: usize)
    ensures
        r == 0x10000000,
{
    0x10000000
}

/// Default batch download limits.
pub fn default_batch_download_config() -> (r: BatchDownloadConfig)
    ensures
        r.max_total_size == 0x40000000,
        r.compression_threshold == 0x10000000,
{
    BatchDownloadConfig { max_total_size: 0x40000000, compression_threshold: 0x10000000 }
}

/// First index at or after `i` holding `c`, or `-1`.
pub open spec fn first_pos_from(p: Seq<char>, c: char, i: int) -> int
    decreases p.len() - i,
{
    if i < 0 || i >= p.len() {
        -1
    } else if p[i] == c {
        i
    } else {
        first_pos_from(p, c, i + 1)
    }
}

/// The directory holding a sqlite database file, if the URL names one:
/// the text between `sqlite:` and the last `/` before any `?` options
/// (the root `/` kept, an empty text for a bare file name).
pub open spec fn db_dir_of(url: Seq<char>) -> Option<Seq<char>> {
    if !"sqlite:"@.is_prefix_of(url) {
        None
    } else {
        let rest = url.subrange("sqlite:"@.len() as int, url.len() as int);
        let q = first_pos_from(rest, '?', 0);
        let p = if q >= 0 {
            rest.subrange(0, q)
        } else {
            rest
        };
        let j = last_pos(p, '/');
        if j < 0 {
            Some(Seq::empty())
        } else if j == 0 {
            Some(seq!['/'])
        } else {
            Some(p.subrange(0, j))
        }
    }
}

impl Config {
    /// The directory holding the sqlite database file, when one is used.
    pub fn get_database_dir(&self) -> (r: Option<String>)
        ensures
            r is Some <==> db_dir_of(self.database.url@) is Some,
            r is Some ==> db_dir_of(self.database.url@) == Some(r->Some_0@),
    {
        let url: &str = self.database.url.as_str();
        proof {
            reveal_strlit("sqlite:");
        }
        if !has_prefix(url, "sqlite:") {
            return None;
        }
        let n = url.unicode_len();
        let rest = url.substring_char(7, n);
        let ghost restv = url@.subrange(7, url@.len() as int);
        let m = rest.unicode_len();
        let mut q: usize = 0;
        while q < m && rest.get_char(q) != '?'
            invariant
                restv == rest@,
                q <= m,
                m == restv.len(),
                first_pos_from(restv, '?', 0) == first_pos_from(restv, '?', q as int),
            decreases m - q,
        {
            q = q + 1;
        }
        let p: &str = if q < m {
            rest.substring_char(0, q)
        } else {
            rest
        };
        proof {
            if q < m {
                assert(first_pos_from(restv, '?', 0) == q as int);
            } else {
                assert(first_pos_from(restv, '?', 0) == -1);
                assert(restv.subrange(0, restv.len() as int) =~= restv);
            }
        }
        match find_last(p, '/') {
            None => {
                proof {
                    assert(Seq::<char>::empty() =~= p@.subrange(0, 0));
                }
                Some(p.substring_char(0, 0).to_owned())
            },
            Some(j) => {
                if j == 0 {
                    proof {
                        reveal_strlit("/");
                        assert("/"@ =~= seq!['/']);
                    }
                    Some("/".to_owned())
                } else {
                    Some(p.substring_char(0, j).to_owned())
                }
            },
        }
    }

    /// The directory log files go to, when configured.
    pub fn get_log_dir(&self) -> (r: Option<String>)
        ensures
            r is Some <==> self.logging.log_dir is Some,
            r is Some ==> r->Some_0@ == self.logging.log_dir->Some_0@,
    {
        match &self.logging.log_dir {
            Some(d) => Some(d.clone()),
            None => None,
        }
    }

    /// The root directory of the physical blob store.
    pub fn get_storage_dir(&self) -> (r: String)
        ensures
            r@ == self.storage.dir@,
    {
        self.storage.dir.clone()
    }

    /// The secret used to sign tokens.
    pub fn jwt_secret(&self) -> (r: &str)
        ensures
            r@ == self.security.jwt_secret@,
    {
        self.security.jwt_secret.as_str()
    }

    /// The database connection URL.
    pub fn database_url(&self) -> (r: &str)
        ensures
            r@ == self.database.url@,
    {
        self.database.url.as_str()
    }

    /// The address the server listens on.
    pub fn server_address(&self) -> (r: &str)
        ensures
            r@ == self.server.address@,
    {
        self.server.address.as_str()
    }
}

} // verus!
