//! Platform path composition.
//!
//! The shell keeps its configuration file, default database and log
//! directory under fixed per-platform conventions, always with the
//! same application identifier.  Resolving the base directories
//! (home, configuration, data, local data) asks the host system, so
//! that stays with the caller; the composition below is pure and
//! exact.

use vstd::prelude::*;

verus! {

/// The host platform, as far as path conventions differ.
#[derive(Clone, Copy, PartialEq, Eq, Structural)]
pub enum Platform {
    MacOs,
    Windows,
    Linux,
}

/// The configuration file path under the platform's base directory:
/// the user's home on macOS, the user configuration directory
/// elsewhere.  Windows uses an `.ini` suffix; the Unix systems use a
/// bare `config`.
pub fn get_config_path(platform: Platform, base_dir: &str) -> (r: String)
    ensures
        platform is MacOs ==> r@ == base_dir@
            + "/Library/Application Support/com.ngocphat.expense-manager/config"@,
        platform is Windows ==> r@ == base_dir@ + "\\com.ngocphat.expense-manager\\config.ini"@,
        platform is Linux ==> r@ == base_dir@ + "/expense-manager/config"@,
{
    let mut s = base_dir.to_owned();
    match platform {
        Platform::MacOs => {
            s.append("/Library/Application Support/com.ngocphat.expense-manager/config");
        },
        Platform::Windows => {
            s.append("\\com.ngocphat.expense-manager\\config.ini");
        },
        Platform::Linux => {
            s.append("/expense-manager/config");
        },
    }
    s
}

/// The default database file under the platform's data directory:
/// the user's home on macOS, the roaming data directory on Windows,
/// the local data directory elsewhere.
pub fn get_default_db_path(platform: Platform, base_dir: &str) -> (r: String)
    ensures
        platform is MacOs ==> r@ == base_dir@
            + "/Library/Application Support/com.ngocphat.expense-manager/expense.db"@,
        platform is Windows ==> r@ == base_dir@ + "\\com.ngocphat.expense-manager\\expense.db"@,
        platform is Linux ==> r@ == base_dir@ + "/expense-manager/expense.db"@,
{
    let mut s = base_dir.to_owned();
    match platform {
        Platform::MacOs => {
            s.append("/Library/Application Support/com.ngocphat.expense-manager/expense.db");
        },
        Platform::Windows => {
            s.append("\\com.ngocphat.expense-manager\\expense.db");
        },
        Platform::Linux => {
            s.append("/expense-manager/expense.db");
        },
    }
    s
}

/// The log directory: under the user's log directory on macOS, the
/// local data directory elsewhere.
pub fn get_logs_dir(platform: Platform, base_dir: &str) -> (r: String)
    ensures
        platform is MacOs ==> r@ == base_dir@ + "/Library/Logs/com.ngocphat.expense-manager"@,
        platform is Windows ==> r@ == base_dir@ + "\\com.ngocphat.expense-manager\\logs"@,
        platform is Linux ==> r@ == base_dir@ + "/expense-manager/logs"@,
{
    let mut s = base_dir.to_owned();
    match platform {
        Platform::MacOs => {
            s.append("/Library/Logs/com.ngocphat.expense-manager");
        },
        Platform::Windows => {
            s.append("\\com.ngocphat.expense-manager\\logs");
        },
        Platform::Linux => {
            s.append("/expense-manager/logs");
        },
    }
    s
}

} // verus!
