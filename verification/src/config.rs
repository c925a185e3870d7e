//! Settings of the station: which folder to watch, how often, and where
//! the scans go.

use crate::text::{chars_of, trim, trim_chars};
use vstd::prelude::*;

verus! {

/// Settings of the station.
#[derive(Debug, Clone)]
pub struct AppConfig {
    /// Root folder of the camera logs (per-day subfolders are scanned too).
    pub watch_folder: String,
    /// Seconds between two scans of the folder.
    pub poll_interval_secs: u64,
    /// PostgreSQL connection string,
    /// "host=... port=5432 user=... password=... dbname=...".
    pub postgres_conn_string: String,
    /// Staging table the scans are written to.
    pub staging_table: String,
}

/// `std::path::MAIN_SEPARATOR`, the path separator of the platform the
/// program was built for. Claimed: nothing about which character it is;
/// the documentation names `/` on Unix and `\` on Windows.
#[verifier::external_body]
fn main_separator() -> (c: char) {
    std::path::MAIN_SEPARATOR
}

/// The default log folder on Windows.
pub open spec fn windows_watch_folder() -> Seq<char> {
    "C:\\LogsToWatch"@
}

/// The default log folder elsewhere.
pub open spec fn unix_watch_folder() -> Seq<char> {
    "/var/log/keyence"@
}

/// The default staging table.
pub open spec fn default_staging_table() -> Seq<char> {
    "keyence_scan_log"@
}

/// The default log folder for a platform whose path separator is
/// `separator`.
pub open spec fn watch_folder_text(separator: char) -> Seq<char> {
    if separator == '\\' {
        windows_watch_folder()
    } else {
        unix_watch_folder()
    }
}

/// The default log folder for a platform whose path separator is
/// `separator`: `C:\LogsToWatch` where it is `\` (Windows),
/// `/var/log/keyence` elsewhere.
pub fn watch_folder_for(separator: char) -> (folder: String)
    ensures
        folder@ == watch_folder_text(separator),
{
    if separator == '\\' {
        String::from_str("C:\\LogsToWatch")
    } else {
        String::from_str("/var/log/keyence")
    }
}

/// The default log folder of the platform the program was built for:
/// [`watch_folder_for`] its path separator. Which separator that is, is a
/// fact of the build, so the contract says only that the folder is the
/// one of some separator.
pub fn default_watch_folder() -> (folder: String)
    ensures
        exists|separator: char| folder@ == watch_folder_text(separator),
        folder@ == windows_watch_folder() || folder@ == unix_watch_folder(),
{
    let separator = main_separator();
    watch_folder_for(separator)
}

impl Default for AppConfig {
    fn default() -> (c: Self)
        ensures
            exists|separator: char| c.watch_folder@ == watch_folder_text(separator),
            c.watch_folder@ == windows_watch_folder() || c.watch_folder@ == unix_watch_folder(),
            c.poll_interval_secs == 10,
            c.postgres_conn_string@ == Seq::<char>::empty(),
            c.staging_table@ == default_staging_table(),
    {
        AppConfig {
            watch_folder: default_watch_folder(),
            poll_interval_secs: 10,
            postgres_conn_string: String::new(),
            staging_table: String::from_str("keyence_scan_log"),
        }
    }
}

impl AppConfig {
    /// Seconds to wait between scans: the configured interval, but at
    /// least one second.
    pub fn effective_poll_interval(&self) -> (secs: u64)
        ensures
            secs == (if self.poll_interval_secs == 0 {
                1
            } else {
                self.poll_interval_secs
            }),
            secs >= 1,
    {
        if self.poll_interval_secs < 1 {
            1
        } else {
            self.poll_interval_secs
        }
    }

    /// A database is configured: the connection string is not blank.
    pub fn has_database(&self) -> (b: bool)
        ensures
            b == (trim(self.postgres_conn_string@).len() != 0),
    {
        trim_chars(&chars_of(self.postgres_conn_string.as_str())).len() != 0
    }
}

} // verus!
