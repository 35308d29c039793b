//! Texts for numbers and names on screen.

use vstd::prelude::*;

use crate::decimal::{decimal, to_decimal, to_padded_decimal, zero_padded};
use crate::path::{file_name, last_name};
use crate::text::{push_text, same_text};

verus! {

/// How a count is shown.
pub enum FileCount {
    /// As this text.
    Exact(String),
    /// In millions, to one decimal place.
    Millions(u64),
}

/// A count below a million, with a comma before the last three digits where there
/// are more.
pub open spec fn grouped(n: nat) -> Seq<char> {
    if n >= 1_000 {
        decimal(n / 1_000) + ","@ + zero_padded(decimal(n % 1_000), 3)
    } else {
        decimal(n)
    }
}

/// Whether a count is shown as it should be.
pub open spec fn shows_count(c: FileCount, count: u64) -> bool {
    match c {
        FileCount::Exact(t) => count < 1_000_000 && t@ == grouped(count as nat),
        FileCount::Millions(n) => count >= 1_000_000 && n == count,
    }
}

/// How to show a count of files.
pub fn format_file_count(count: u64) -> (r: FileCount)
    ensures
        shows_count(r, count),
{
    if count >= 1_000_000 {
        FileCount::Millions(count)
    } else if count >= 1_000 {
        let mut s = to_decimal(count / 1_000);
        push_text(&mut s, ",");
        push_text(&mut s, to_padded_decimal(count % 1_000, 3).as_str());
        FileCount::Exact(s)
    } else {
        FileCount::Exact(to_decimal(count))
    }
}

/// The text of a size. That of a directory is marked if it is a lower bound.
pub fn size_label(size: &str, is_dir: bool, approximate: bool) -> (r: String)
    ensures
        r@ == (if is_dir && approximate {
            "~"@ + size@
        } else {
            size@
        }),
{
    if is_dir && approximate {
        let mut s = "~".to_owned();
        push_text(&mut s, size);
        s
    } else {
        size.to_owned()
    }
}

/// The display name of the volume that is mounted at `mount`.
pub fn volume_name(mount: &str) -> (r: String)
    ensures
        r@ == (if mount@ == "/"@ {
            "Macintosh HD"@
        } else {
            match last_name(mount@) {
                Some(t) => t,
                None => mount@,
            }
        }),
{
    if same_text(mount, "/") {
        "Macintosh HD".to_owned()
    } else {
        match file_name(mount) {
            Some(t) => t,
            None => mount.to_owned(),
        }
    }
}

/// The space on a volume that is in use.
pub fn used_space(free: u64, total: u64) -> (r: u64)
    ensures
        r == (if total >= free {
            total - free
        } else {
            0
        }),
{
    total.saturating_sub(free)
}

/// The name of a folder that is being scanned: the last part of its path, or the
/// whole path if that has no name.
pub fn folder_label(path: &str) -> (r: String)
    ensures
        r@ == (match last_name(path@) {
            Some(t) => t,
            None => path@,
        }),
{
    match file_name(path) {
        Some(t) => t,
        None => path.to_owned(),
    }
}

/// The label of the button that shows all file types, of which the strip shows the
/// first five.
pub open spec fn more_types(count: nat) -> Seq<char> {
    if count > 5 {
        "\u{2295} "@ + decimal((count - 5) as nat) + " more"@
    } else {
        "All file types"@
    }
}

pub fn more_types_label(count: usize) -> (r: String)
    ensures
        r@ == more_types(count as nat),
{
    if count > 5 {
        let mut s = "\u{2295} ".to_owned();
        push_text(&mut s, to_decimal((count - 5) as u64).as_str());
        push_text(&mut s, " more");
        s
    } else {
        "All file types".to_owned()
    }
}

/// How many worker threads scan, where 0 leaves it to the machine.
pub fn threads_label(threads: u64) -> (r: String)
    ensures
        r@ == (if threads == 0 {
            "auto"@
        } else {
            decimal(threads as nat)
        }),
{
    if threads == 0 {
        "auto".to_owned()
    } else {
        to_decimal(threads)
    }
}

/// The kind of a file with an extension, as shown with its details.
pub open spec fn kind_text(ext: Seq<char>) -> Seq<char> {
    if ext.len() == 0 {
        "File"@
    } else {
        "."@ + ext + " file"@
    }
}

/// The kind of a file, as shown with its details.
pub fn kind_label(ext: &str) -> (r: String)
    ensures
        r@ == kind_text(ext@),
{
    if ext.is_empty() {
        "File".to_owned()
    } else {
        let mut s = ".".to_owned();
        push_text(&mut s, ext);
        push_text(&mut s, " file");
        s
    }
}

/// The label of the button that stops a scan, which can be pressed once. The one in
/// the status bar is set closer.
pub fn stop_label(stopping: bool, compact: bool) -> (r: &'static str)
    ensures
        r@ == (if stopping {
            "Stopping\u{2026}"@
        } else if compact {
            "\u{25A0} Stop"@
        } else {
            "\u{25A0}  Stop"@
        }),
{
    if stopping {
        "Stopping\u{2026}"
    } else if compact {
        "\u{25A0} Stop"
    } else {
        "\u{25A0}  Stop"
    }
}

/// The folder that is scanned at the start: the one that was named, else the home
/// folder, else the folder of all users.
pub fn start_dir(named: Option<String>, home: Option<String>) -> (r: String)
    ensures
        r@ == (match named {
            Some(p) => p@,
            None => match home {
                Some(h) => h@,
                None => "/Users"@,
            },
        }),
{
    match named {
        Some(p) => p,
        None => match home {
            Some(h) => h,
            None => "/Users".to_owned(),
        },
    }
}

} // verus!
