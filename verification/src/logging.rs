//! What is logged, and how a line of the log reads.

use vstd::prelude::*;

use crate::decimal::{decimal, to_decimal, to_padded_decimal, zero_padded};
use crate::path::{join, joined};
use crate::text::{chars_of, push_text, starts_with};

verus! {

/// Rotate the log once it grows past this size, to bound disk usage.
pub const MAX_LOG_BYTES: u64 = 5 * 1024 * 1024;

/// How grave a record is, the gravest first.
#[derive(Clone, Copy)]
pub enum LogLevel {
    Error,
    Warn,
    Info,
    Debug,
    Trace,
}

/// The name of a level, right-aligned to five columns.
pub open spec fn level_column(level: LogLevel) -> Seq<char> {
    match level {
        LogLevel::Error => "ERROR"@,
        LogLevel::Warn => " WARN"@,
        LogLevel::Info => " INFO"@,
        LogLevel::Debug => "DEBUG"@,
        LogLevel::Trace => "TRACE"@,
    }
}

/// Whether a record is logged: the application's own at `Info` and above, those of
/// noisy frameworks only at `Warn` and above.
pub open spec fn is_logged(target: Seq<char>, level: LogLevel) -> bool {
    match level {
        LogLevel::Error | LogLevel::Warn => true,
        LogLevel::Info => "macdirstat"@.is_prefix_of(target),
        LogLevel::Debug | LogLevel::Trace => false,
    }
}

/// Whether a record is logged.
pub fn enabled(target: &str, level: LogLevel) -> (r: bool)
    ensures
        r == is_logged(target@, level),
{
    let t = chars_of(target);
    let own = chars_of("macdirstat");
    match level {
        LogLevel::Error | LogLevel::Warn => true,
        LogLevel::Info => starts_with(t.as_slice(), own.as_slice()),
        LogLevel::Debug | LogLevel::Trace => false,
    }
}

/// The folder of the log.
pub open spec fn log_folder(home: Seq<char>) -> Seq<char> {
    joined(joined(joined(home, "Library"@), "Logs"@), "MacDirStat"@)
}

fn log_dir(home: &str) -> (r: String)
    ensures
        r@ == log_folder(home@),
{
    let a = join(home, "Library");
    let b = join(a.as_str(), "Logs");
    join(b.as_str(), "MacDirStat")
}

/// `~/Library/Logs/MacDirStat/macdirstat.log`
pub fn log_file_path(home: &str) -> (r: String)
    ensures
        r@ == joined(log_folder(home@), "macdirstat.log"@),
{
    let dir = log_dir(home);
    join(dir.as_str(), "macdirstat.log")
}

/// Where the log goes when it is rotated.
pub fn rotated_log_path(home: &str) -> (r: String)
    ensures
        r@ == joined(log_folder(home@), "macdirstat.log.old"@),
{
    let dir = log_dir(home);
    join(dir.as_str(), "macdirstat.log.old")
}

/// Whether a log of `len` bytes is rotated.
pub fn should_rotate(len: u64) -> (r: bool)
    ensures
        r == (len > MAX_LOG_BYTES),
{
    len > MAX_LOG_BYTES
}

/// A point in time, broken down: years since 1900, months since January.
pub struct LocalTime {
    pub year: i32,
    pub month: i32,
    pub day: i32,
    pub hour: i32,
    pub minute: i32,
    pub second: i32,
}

/// An integer with at least `width` columns, filled with zeros after the sign.
pub open spec fn padded(n: int, width: nat) -> Seq<char> {
    if n < 0 {
        "-"@ + zero_padded(decimal((-n) as nat), (width - 1) as nat)
    } else {
        zero_padded(decimal(n as nat), width)
    }
}

/// `YYYY-MM-DD HH:MM:SS`
pub open spec fn stamp(t: LocalTime) -> Seq<char> {
    padded(t.year + 1900, 4) + "-"@ + padded(t.month + 1, 2) + "-"@ + padded(t.day as int, 2) + " "@
        + padded(t.hour as int, 2) + ":"@ + padded(t.minute as int, 2) + ":"@ + padded(
        t.second as int,
        2,
    )
}

fn push_padded(s: &mut String, n: i64, width: usize)
    requires
        width > 0,
        n > i64::MIN,
    ensures
        final(s)@ == old(s)@ + padded(n as int, width as nat),
{
    if n < 0 {
        push_text(s, "-");
        push_text(s, to_padded_decimal((-n) as u64, width - 1).as_str());
        assert(s@ =~= old(s)@ + padded(n as int, width as nat));
    } else {
        push_text(s, to_padded_decimal(n as u64, width).as_str());
    }
}

/// The time as it stands in the log. If it could not be told, marks stand for the
/// digits.
pub fn timestamp(time: Option<LocalTime>) -> (r: String)
    ensures
        r@ == (match time {
            Some(t) => stamp(t),
            None => "????-??-?? ??:??:??"@,
        }),
{
    match time {
        Some(t) => {
            let mut s = String::new();
            push_padded(&mut s, t.year as i64 + 1900, 4);
            push_text(&mut s, "-");
            push_padded(&mut s, t.month as i64 + 1, 2);
            push_text(&mut s, "-");
            push_padded(&mut s, t.day as i64, 2);
            push_text(&mut s, " ");
            push_padded(&mut s, t.hour as i64, 2);
            push_text(&mut s, ":");
            push_padded(&mut s, t.minute as i64, 2);
            push_text(&mut s, ":");
            push_padded(&mut s, t.second as i64, 2);
            assert(s@ =~= stamp(t));
            s
        },
        None => "????-??-?? ??:??:??".to_owned(),
    }
}

/// A line of the log.
pub open spec fn line(
    time: Seq<char>,
    level: LogLevel,
    target: Seq<char>,
    text: Seq<char>,
) -> Seq<char> {
    time + " ["@ + level_column(level) + "] "@ + target + " - "@ + text + "\n"@
}

/// A line of the log.
pub fn log_line(time: &str, level: LogLevel, target: &str, text: &str) -> (r: String)
    ensures
        r@ == line(time@, level, target@, text@),
{
    let mut s = time.to_owned();
    push_text(&mut s, " [");
    match level {
        LogLevel::Error => push_text(&mut s, "ERROR"),
        LogLevel::Warn => push_text(&mut s, " WARN"),
        LogLevel::Info => push_text(&mut s, " INFO"),
        LogLevel::Debug => push_text(&mut s, "DEBUG"),
        LogLevel::Trace => push_text(&mut s, "TRACE"),
    }
    push_text(&mut s, "] ");
    push_text(&mut s, target);
    push_text(&mut s, " - ");
    push_text(&mut s, text);
    push_text(&mut s, "\n");
    s
}

/// A place in the source.
pub struct SourcePlace {
    pub file: String,
    pub line: u32,
    pub column: u32,
}

/// What is logged of a panic.
pub open spec fn panic_text(
    place: Option<SourcePlace>,
    payload: Option<Seq<char>>,
    backtrace: Seq<char>,
) -> Seq<char> {
    "PANIC at "@ + (match place {
        Some(p) => p.file@ + ":"@ + decimal(p.line as nat) + ":"@ + decimal(p.column as nat),
        None => "unknown location"@,
    }) + ": "@ + (match payload {
        Some(t) => t,
        None => "<non-string panic payload>"@,
    }) + "\n"@ + backtrace
}

/// What is logged of a panic.
pub fn panic_report(place: Option<SourcePlace>, payload: Option<String>, backtrace: &str) -> (r:
    String)
    ensures
        r@ == panic_text(
            place,
            match payload {
                Some(t) => Some(t@),
                None => None,
            },
            backtrace@,
        ),
{
    let mut s = "PANIC at ".to_owned();
    match &place {
        Some(p) => {
            let mut w = p.file.clone();
            push_text(&mut w, ":");
            push_text(&mut w, to_decimal(p.line as u64).as_str());
            push_text(&mut w, ":");
            push_text(&mut w, to_decimal(p.column as u64).as_str());
            push_text(&mut s, w.as_str());
        },
        None => push_text(&mut s, "unknown location"),
    }
    push_text(&mut s, ": ");
    match &payload {
        Some(t) => push_text(&mut s, t.as_str()),
        None => push_text(&mut s, "<non-string panic payload>"),
    }
    push_text(&mut s, "\n");
    push_text(&mut s, backtrace);
    s
}

} // verus!
