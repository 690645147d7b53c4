use vstd::prelude::*;
use std::io::Write;
use vstd::string::StringExecFns;
use crate::config::LoggingConfig;

verus! {

// ---------------------------------------------------------------------------
// Logging
//
// The level filter is the logic here and is verified; the timestamp comes
// from the system clock and the formatted line goes to standard output
// through trusted wrappers, since the output itself carries no contract.
// ---------------------------------------------------------------------------

pub struct Logger;

/// Which messages pass a configured level: `error` keeps errors and
/// shutdown notices, `warn` adds warnings, everything else keeps all.
pub open spec fn spec_should_log(config_level: Seq<char>, level: Seq<char>) -> bool {
    if config_level == "error"@ {
        level == "error"@ || level == "shutdown"@
    } else if config_level == "warn"@ {
        level == "error"@ || level == "warn"@ || level == "shutdown"@
    } else {
        true
    }
}

/// Relies on `chrono::Local::now` with `Timelike::hour` and
/// `Timelike::minute`: the local wall-clock hour (below 24) and minute
/// (below 60).  `chrono::Local::now` aborts when the system clock reads
/// before the Unix epoch, so that case is checked first and reads as 0:00.
#[verifier::external_body]
fn local_hour_minute() -> (r: (u8, u8))
    ensures
        r.0 < 24 && r.1 < 60,
{
    match std::time::SystemTime::now().duration_since(std::time::UNIX_EPOCH) {
        Ok(_) => {
            let now = chrono::Local::now();
            (chrono::Timelike::hour(&now) as u8, chrono::Timelike::minute(&now) as u8)
        },
        Err(_) => (0, 0),
    }
}

/// Relies on `std::io::Write::write_fmt` via `writeln!` on standard
/// output: prints one colored log line.
#[verifier::external_body]
fn write_colored_line(hh: u8, mm: u8, level: &str, color: &str, msg: &str) {
    let _ = writeln!(
        std::io::stdout(),
        "\x1b[90m{}:{:02}\x1b[0m {}{}\x1b[0m \x1b[90mNyroDB:\x1b[0m \x1b[37m{}\x1b[0m",
        hh,
        mm,
        color,
        level,
        msg,
    );
}

/// Relies on `std::io::Write::write_fmt` via `writeln!` on standard
/// output: prints one plain log line.
#[verifier::external_body]
fn write_plain_line(hh: u8, mm: u8, level: &str, msg: &str) {
    let _ = writeln!(std::io::stdout(), "{}:{:02} {} NyroDB: {}", hh, mm, level, msg);
}

impl Logger {
    fn log(level: &str, color: &str, msg: &str) {
        let (hh, mm) = local_hour_minute();
        write_colored_line(hh, mm, level, color, msg);
    }

    fn log_plain(level: &str, msg: &str) {
        let (hh, mm) = local_hour_minute();
        write_plain_line(hh, mm, level, msg);
    }

    pub fn info(msg: &str) {
        Self::log("INFO", "\x1b[32m", msg);
    }

    pub fn error(msg: &str) {
        Self::log("ERROR", "\x1b[31m", msg);
    }

    pub fn warn(msg: &str) {
        Self::log("WARN", "\x1b[33m", msg);
    }

    pub fn shutdown(msg: &str) {
        Self::log("SHUTDOWN", "\x1b[33m", msg);
    }

    /// The configured filter; see `spec_should_log`.
    pub fn should_log(config: &LoggingConfig, level: &str) -> (r: bool)
        ensures
            r == spec_should_log(config.level@, level@),
    {
        let lvl = level.to_owned();
        if config.level.eq(&<String as StringExecFns>::from_str("error")) {
            lvl.eq(&<String as StringExecFns>::from_str("error")) || lvl.eq(
                &<String as StringExecFns>::from_str("shutdown"),
            )
        } else if config.level.eq(&<String as StringExecFns>::from_str("warn")) {
            lvl.eq(&<String as StringExecFns>::from_str("error")) || lvl.eq(
                &<String as StringExecFns>::from_str("warn"),
            ) || lvl.eq(&<String as StringExecFns>::from_str("shutdown"))
        } else {
            true
        }
    }

    pub fn info_with_config(config: &LoggingConfig, msg: &str) {
        if Self::should_log(config, "info") {
            if config.enable_colors {
                Self::info(msg);
            } else {
                Self::log_plain("INFO", msg);
            }
        }
    }

    pub fn error_with_config(config: &LoggingConfig, msg: &str) {
        if Self::should_log(config, "error") {
            if config.enable_colors {
                Self::error(msg);
            } else {
                Self::log_plain("ERROR", msg);
            }
        }
    }

    pub fn warn_with_config(config: &LoggingConfig, msg: &str) {
        if Self::should_log(config, "warn") {
            if config.enable_colors {
                Self::warn(msg);
            } else {
                Self::log_plain("WARN", msg);
            }
        }
    }

    pub fn shutdown_with_config(config: &LoggingConfig, msg: &str) {
        if Self::should_log(config, "shutdown") {
            if config.enable_colors {
                Self::shutdown(msg);
            } else {
                Self::log_plain("SHUTDOWN", msg);
            }
        }
    }
}

} // verus!
