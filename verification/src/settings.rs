//! Scan settings and the flat `key=value` text they are kept in.

use vstd::prelude::*;

use crate::decimal::{decimal, decimal_reads_back, is_digit, number, parse_number, to_decimal};
use crate::path::{join, joined, strings};
use crate::text::{
    chars_of, chomped, find_from, is_space, lemma_first_index, lines, push_text, same_text,
    slice_copy, starts_with, string_of, trim, trimmed,
};

verus! {

#[derive(Clone, Debug, PartialEq)]
pub struct Settings {
    pub ignore_cloud_storage: bool,
    /// Skip files and directories whose (device, inode) pair has already been
    /// seen. Prevents double-counting hardlinks and firmlinks.
    pub skip_duplicate_inodes: bool,
    /// When true, files smaller than `min_file_size_mb` MiB are ignored during
    /// scanning.
    pub optimization_mode: bool,
    pub min_file_size_mb: u64,
    /// Number of worker threads for scanning. 0 means one per logical core.
    pub scan_threads: u64,
    /// Absolute folder paths to skip entirely during scans.
    pub custom_excludes: Vec<String>,
    /// Show the floating info card (name, size, path) when an item is selected.
    pub show_info_card: bool,
}

/// The settings as values.
pub struct SettingsView {
    pub ignore_cloud_storage: bool,
    pub skip_duplicate_inodes: bool,
    pub optimization_mode: bool,
    pub min_file_size_mb: u64,
    pub scan_threads: u64,
    pub custom_excludes: Seq<Seq<char>>,
    pub show_info_card: bool,
}

impl View for Settings {
    type V = SettingsView;

    open spec fn view(&self) -> SettingsView {
        SettingsView {
            ignore_cloud_storage: self.ignore_cloud_storage,
            skip_duplicate_inodes: self.skip_duplicate_inodes,
            optimization_mode: self.optimization_mode,
            min_file_size_mb: self.min_file_size_mb,
            scan_threads: self.scan_threads,
            custom_excludes: strings(self.custom_excludes@),
            show_info_card: self.show_info_card,
        }
    }
}

/// The settings of a first start.
pub open spec fn default_settings() -> SettingsView {
    SettingsView {
        ignore_cloud_storage: true,
        skip_duplicate_inodes: true,
        optimization_mode: true,
        min_file_size_mb: 25,
        scan_threads: 0,
        custom_excludes: Seq::empty(),
        show_info_card: true,
    }
}

pub open spec fn bool_text(b: bool) -> Seq<char> {
    if b {
        "true"@
    } else {
        "false"@
    }
}

/// One line of the settings text.
pub open spec fn entry(key: Seq<char>, val: Seq<char>) -> Seq<char> {
    (key + val).push('\n')
}

/// The lines that hold the custom excludes.
pub open spec fn exclude_entries(paths: Seq<Seq<char>>) -> Seq<char>
    decreases paths.len(),
{
    if paths.len() == 0 {
        Seq::empty()
    } else {
        entry("exclude="@, paths[0]) + exclude_entries(paths.drop_first())
    }
}

/// The text that the settings are kept in.
pub open spec fn serialized(s: SettingsView) -> Seq<char> {
    entry("ignore_cloud_storage="@, bool_text(s.ignore_cloud_storage)) + (entry(
        "skip_duplicate_inodes="@,
        bool_text(s.skip_duplicate_inodes),
    ) + (entry("optimization_mode="@, bool_text(s.optimization_mode)) + (entry(
        "min_file_size_mb="@,
        decimal(s.min_file_size_mb as nat),
    ) + (entry("scan_threads="@, decimal(s.scan_threads as nat)) + (entry(
        "show_info_card="@,
        bool_text(s.show_info_card),
    ) + exclude_entries(s.custom_excludes))))))
}

/// What a line says after `key`.
pub open spec fn said(key: Seq<char>, line: Seq<char>) -> Seq<char> {
    trimmed(line.skip(key.len() as int))
}

/// The settings after one more line. A line with an unknown key, or with a
/// number that cannot be read, changes nothing.
pub open spec fn with_line(s: SettingsView, line: Seq<char>) -> SettingsView {
    if "ignore_cloud_storage="@.is_prefix_of(line) {
        SettingsView {
            ignore_cloud_storage: said("ignore_cloud_storage="@, line) == "true"@,
            ..s
        }
    } else if "skip_duplicate_inodes="@.is_prefix_of(line) {
        SettingsView {
            skip_duplicate_inodes: said("skip_duplicate_inodes="@, line) == "true"@,
            ..s
        }
    } else if "optimization_mode="@.is_prefix_of(line) {
        SettingsView { optimization_mode: said("optimization_mode="@, line) == "true"@, ..s }
    } else if "min_file_size_mb="@.is_prefix_of(line) {
        match number(said("min_file_size_mb="@, line)) {
            Some(n) => SettingsView { min_file_size_mb: n, ..s },
            None => s,
        }
    } else if "scan_threads="@.is_prefix_of(line) {
        match number(said("scan_threads="@, line)) {
            Some(n) => SettingsView { scan_threads: n, ..s },
            None => s,
        }
    } else if "exclude="@.is_prefix_of(line) {
        if said("exclude="@, line).len() > 0 {
            SettingsView {
                custom_excludes: s.custom_excludes.push(said("exclude="@, line)),
                ..s
            }
        } else {
            s
        }
    } else if "show_info_card="@.is_prefix_of(line) {
        SettingsView { show_info_card: said("show_info_card="@, line) == "true"@, ..s }
    } else {
        s
    }
}

/// The settings after some more lines, in their order.
pub open spec fn with_lines(s: SettingsView, more: Seq<Seq<char>>) -> SettingsView
    decreases more.len(),
{
    if more.len() == 0 {
        s
    } else {
        with_lines(with_line(s, more[0]), more.drop_first())
    }
}

/// The settings that a text holds: the default ones, changed line by line.
pub open spec fn parsed(content: Seq<char>) -> SettingsView {
    with_lines(default_settings(), lines(content))
}

/// Whether a custom exclude can be kept as a line of the settings text.
pub open spec fn is_plain_path(p: Seq<char>) -> bool {
    &&& p.len() > 0
    &&& !is_space(p[0])
    &&& !is_space(p.last())
    &&& !p.contains('\n')
}

/// The folders under a home folder that cloud services keep their files in.
pub open spec fn cloud_folders(home: Seq<char>) -> Seq<Seq<char>> {
    seq![
        joined(home, "Library/CloudStorage"@),
        joined(home, "Library/Mobile Documents"@),
        joined(home, "Dropbox"@),
        joined(home, "OneDrive"@),
        joined(home, "Google Drive"@),
    ]
}

/// The folders that a scan skips.
pub open spec fn skipped_folders(s: SettingsView, home: Option<Seq<char>>) -> Seq<Seq<char>> {
    match home {
        Some(h) if s.ignore_cloud_storage => cloud_folders(h) + s.custom_excludes,
        _ => s.custom_excludes,
    }
}

pub open spec fn opt_text(s: Option<&str>) -> Option<Seq<char>> {
    match s {
        Some(t) => Some(t@),
        None => None,
    }
}

pub proof fn lemma_not_prefix(key: Seq<char>, line: Seq<char>, i: int)
    requires
        0 <= i < key.len(),
        i < line.len(),
        key[i] != line[i],
    ensures
        !key.is_prefix_of(line),
{
    if key.is_prefix_of(line) {
        assert(line.subrange(0, key.len() as int)[i] == line[i]);
    }
}

proof fn lemma_plain_trim(s: Seq<char>)
    requires
        s.len() > 0,
        !is_space(s[0]),
        !is_space(s.last()),
    ensures
        trimmed(s) == s,
{
}

/// The first line of a text that starts with an entry is that entry.
proof fn lemma_entry_line(key: Seq<char>, val: Seq<char>, rest: Seq<char>)
    requires
        !key.contains('\n'),
        !val.contains('\n'),
        val.len() > 0,
        val.last() != '\r',
    ensures
        lines(entry(key, val) + rest) == seq![key + val] + lines(rest),
{
    let s = entry(key, val) + rest;
    let k = (key + val).len() as int;
    assert forall|i: int| 0 <= i < k implies s[i] != '\n' by {
        if i < key.len() {
            assert(s[i] == key[i]);
            assert(key.contains(key[i]));
        } else {
            assert(s[i] == val[i - key.len()]);
            assert(val.contains(val[i - key.len()]));
        }
    }
    lemma_first_index(s, '\n', k);
    assert(s.take(k) =~= key + val);
    assert((key + val).last() == val.last());
    assert(s.skip(k + 1) =~= rest);
}

proof fn lemma_said(key: Seq<char>, val: Seq<char>)
    requires
        val.len() > 0,
        !is_space(val[0]),
        !is_space(val.last()),
    ensures
        key.is_prefix_of(key + val),
        said(key, key + val) == val,
{
    assert((key + val).subrange(0, key.len() as int) =~= key);
    assert((key + val).skip(key.len() as int) =~= val);
    lemma_plain_trim(val);
}

pub proof fn lemma_keys()
    ensures
        !"ignore_cloud_storage="@.contains('\n'),
        !"skip_duplicate_inodes="@.contains('\n'),
        !"optimization_mode="@.contains('\n'),
        !"min_file_size_mb="@.contains('\n'),
        !"scan_threads="@.contains('\n'),
        !"exclude="@.contains('\n'),
        !"show_info_card="@.contains('\n'),
        "ignore_cloud_storage="@.len() > 2 && "ignore_cloud_storage="@[0] == 'i',
        "skip_duplicate_inodes="@.len() > 2 && "skip_duplicate_inodes="@[0] == 's'
            && "skip_duplicate_inodes="@[1] == 'k',
        "optimization_mode="@.len() > 2 && "optimization_mode="@[0] == 'o',
        "min_file_size_mb="@.len() > 2 && "min_file_size_mb="@[0] == 'm',
        "scan_threads="@.len() > 2 && "scan_threads="@[0] == 's' && "scan_threads="@[1] == 'c',
        "exclude="@.len() > 2 && "exclude="@[0] == 'e',
        "show_info_card="@.len() > 2 && "show_info_card="@[0] == 's' && "show_info_card="@[1]
            == 'h',
{
    reveal_strlit("ignore_cloud_storage=");
    reveal_strlit("skip_duplicate_inodes=");
    reveal_strlit("optimization_mode=");
    reveal_strlit("min_file_size_mb=");
    reveal_strlit("scan_threads=");
    reveal_strlit("exclude=");
    reveal_strlit("show_info_card=");
}

proof fn lemma_bool_text(b: bool)
    ensures
        bool_text(b).len() > 0,
        !is_space(bool_text(b)[0]),
        !is_space(bool_text(b).last()),
        !bool_text(b).contains('\n'),
        (bool_text(b) == "true"@) == b,
{
    reveal_strlit("true");
    reveal_strlit("false");
    assert("true"@[0] == 't');
    assert("false"@[0] == 'f');
}

proof fn lemma_decimal_text(n: nat)
    ensures
        decimal(n).len() > 0,
        !is_space(decimal(n)[0]),
        !is_space(decimal(n).last()),
        !decimal(n).contains('\n'),
{
    decimal_reads_back(n);
    assert(is_digit(decimal(n)[0]));
    assert(is_digit(decimal(n)[decimal(n).len() - 1]));
}

/// An entry before a text is read as that line, then the rest of the text.
proof fn lemma_entry_step(s: SettingsView, key: Seq<char>, val: Seq<char>, rest: Seq<char>)
    requires
        !key.contains('\n'),
        !val.contains('\n'),
        val.len() > 0,
        !is_space(val[0]),
        !is_space(val.last()),
    ensures
        with_lines(s, lines(entry(key, val) + rest)) == with_lines(
            with_line(s, key + val),
            lines(rest),
        ),
        key.is_prefix_of(key + val),
        said(key, key + val) == val,
{
    lemma_entry_line(key, val, rest);
    lemma_said(key, val);
    let all = lines(entry(key, val) + rest);
    assert(all.drop_first() =~= lines(rest));
    assert(all[0] == key + val);
}

proof fn lemma_exclude_lines(s: SettingsView, paths: Seq<Seq<char>>)
    requires
        forall|i: int| 0 <= i < paths.len() ==> is_plain_path(#[trigger] paths[i]),
    ensures
        with_lines(s, lines(exclude_entries(paths))) == (SettingsView {
            custom_excludes: s.custom_excludes + paths,
            ..s
        }),
    decreases paths.len(),
{
    if paths.len() == 0 {
        assert(s.custom_excludes + paths =~= s.custom_excludes);
    } else {
        let p = paths[0];
        let key = "exclude="@;
        let rest = paths.drop_first();
        lemma_keys();
        lemma_entry_step(s, key, p, exclude_entries(rest));
        let line = key + p;
        lemma_not_prefix("ignore_cloud_storage="@, line, 0);
        lemma_not_prefix("skip_duplicate_inodes="@, line, 0);
        lemma_not_prefix("optimization_mode="@, line, 0);
        lemma_not_prefix("min_file_size_mb="@, line, 0);
        lemma_not_prefix("scan_threads="@, line, 0);
        let t = with_line(s, line);
        assert(t == SettingsView { custom_excludes: s.custom_excludes.push(p), ..s });
        assert forall|i: int| 0 <= i < rest.len() implies is_plain_path(#[trigger] rest[i]) by {
            assert(rest[i] == paths[i + 1]);
        }
        lemma_exclude_lines(t, rest);
        assert(t.custom_excludes + rest =~= s.custom_excludes + paths);
    }
}

/// What is written is read back: the text that settings are kept in holds those
/// settings, if each custom exclude can be kept as a line.
pub proof fn serialized_settings_parse_back(s: SettingsView)
    requires
        forall|i: int|
            0 <= i < s.custom_excludes.len() ==> is_plain_path(#[trigger] s.custom_excludes[i]),
    ensures
        parsed(serialized(s)) == s,
{
    lemma_keys();
    let d = default_settings();
    let b1 = bool_text(s.ignore_cloud_storage);
    let b2 = bool_text(s.skip_duplicate_inodes);
    let b3 = bool_text(s.optimization_mode);
    let n4 = decimal(s.min_file_size_mb as nat);
    let n5 = decimal(s.scan_threads as nat);
    let b6 = bool_text(s.show_info_card);
    lemma_bool_text(s.ignore_cloud_storage);
    lemma_bool_text(s.skip_duplicate_inodes);
    lemma_bool_text(s.optimization_mode);
    lemma_bool_text(s.show_info_card);
    lemma_decimal_text(s.min_file_size_mb as nat);
    lemma_decimal_text(s.scan_threads as nat);
    decimal_reads_back(s.min_file_size_mb as nat);
    decimal_reads_back(s.scan_threads as nat);

    let r6 = exclude_entries(s.custom_excludes);
    let r5 = entry("show_info_card="@, b6) + r6;
    let r4 = entry("scan_threads="@, n5) + r5;
    let r3 = entry("min_file_size_mb="@, n4) + r4;
    let r2 = entry("optimization_mode="@, b3) + r3;
    let r1 = entry("skip_duplicate_inodes="@, b2) + r2;

    lemma_entry_step(d, "ignore_cloud_storage="@, b1, r1);
    let s1 = SettingsView { ignore_cloud_storage: s.ignore_cloud_storage, ..d };

    let line = "skip_duplicate_inodes="@ + b2;
    lemma_entry_step(s1, "skip_duplicate_inodes="@, b2, r2);
    lemma_not_prefix("ignore_cloud_storage="@, line, 0);
    let s2 = SettingsView { skip_duplicate_inodes: s.skip_duplicate_inodes, ..s1 };

    let line = "optimization_mode="@ + b3;
    lemma_entry_step(s2, "optimization_mode="@, b3, r3);
    lemma_not_prefix("ignore_cloud_storage="@, line, 0);
    lemma_not_prefix("skip_duplicate_inodes="@, line, 0);
    let s3 = SettingsView { optimization_mode: s.optimization_mode, ..s2 };

    let line = "min_file_size_mb="@ + n4;
    lemma_entry_step(s3, "min_file_size_mb="@, n4, r4);
    lemma_not_prefix("ignore_cloud_storage="@, line, 0);
    lemma_not_prefix("skip_duplicate_inodes="@, line, 0);
    lemma_not_prefix("optimization_mode="@, line, 0);
    let s4 = SettingsView { min_file_size_mb: s.min_file_size_mb, ..s3 };

    let line = "scan_threads="@ + n5;
    lemma_entry_step(s4, "scan_threads="@, n5, r5);
    lemma_not_prefix("ignore_cloud_storage="@, line, 0);
    lemma_not_prefix("skip_duplicate_inodes="@, line, 1);
    lemma_not_prefix("optimization_mode="@, line, 0);
    lemma_not_prefix("min_file_size_mb="@, line, 0);
    let s5 = SettingsView { scan_threads: s.scan_threads, ..s4 };

    let line = "show_info_card="@ + b6;
    lemma_entry_step(s5, "show_info_card="@, b6, r6);
    lemma_not_prefix("ignore_cloud_storage="@, line, 0);
    lemma_not_prefix("skip_duplicate_inodes="@, line, 1);
    lemma_not_prefix("optimization_mode="@, line, 0);
    lemma_not_prefix("min_file_size_mb="@, line, 0);
    lemma_not_prefix("scan_threads="@, line, 1);
    lemma_not_prefix("exclude="@, line, 0);
    let s6 = SettingsView { show_info_card: s.show_info_card, ..s5 };

    lemma_exclude_lines(s6, s.custom_excludes);
    assert(s6.custom_excludes + s.custom_excludes =~= s.custom_excludes);
}

/// What `line` says after `key`, if it begins with it.
fn said_after(line: &Vec<char>, key: &str) -> (r: Option<Vec<char>>)
    ensures
        (match r {
            Some(v) => key@.is_prefix_of(line@) && v@ == said(key@, line@),
            None => !key@.is_prefix_of(line@),
        }),
{
    let k = chars_of(key);
    if starts_with(line.as_slice(), k.as_slice()) {
        let rest = slice_copy(line.as_slice(), k.len(), line.len());
        assert(rest@ =~= line@.skip(key@.len() as int));
        Some(trim(rest.as_slice()))
    } else {
        None
    }
}

fn is_true(v: &Vec<char>) -> (r: bool)
    ensures
        r == (v@ == "true"@),
{
    let s = string_of(v.as_slice());
    same_text(s.as_str(), "true")
}

fn push_entry(out: &mut String, key: &str, val: &str)
    ensures
        final(out)@ == old(out)@ + entry(key@, val@),
{
    let ghost before = out@;
    push_text(out, key);
    push_text(out, val);
    out.push('\n');
    assert(out@ =~= before + entry(key@, val@));
}

fn text_of_bool(b: bool) -> (r: &'static str)
    ensures
        r@ == bool_text(b),
{
    if b {
        "true"
    } else {
        "false"
    }
}

impl Default for Settings {
    fn default() -> (r: Self)
        ensures
            r@ == default_settings(),
    {
        let r = Settings {
            ignore_cloud_storage: true,
            skip_duplicate_inodes: true,
            optimization_mode: true,
            min_file_size_mb: 25,
            scan_threads: 0,
            custom_excludes: Vec::new(),
            show_info_card: true,
        };
        assert(strings(r.custom_excludes@) =~= Seq::empty());
        r
    }
}

impl Settings {
    /// The settings in the file whose content was read, or the default ones if
    /// it could not be read.
    pub fn load(content: Option<&str>) -> (r: Settings)
        ensures
            r@ == (match content {
                Some(c) => parsed(c@),
                None => default_settings(),
            }),
    {
        match content {
            Some(c) => Settings::parse(c),
            None => Settings::default(),
        }
    }

    /// The flat `key=value` text of the settings. Custom excludes are written as
    /// repeated `exclude=<path>` lines.
    pub fn serialize(&self) -> (r: String)
        ensures
            r@ == serialized(self@),
    {
        let mut out = String::new();
        push_entry(&mut out, "ignore_cloud_storage=", text_of_bool(self.ignore_cloud_storage));
        push_entry(&mut out, "skip_duplicate_inodes=", text_of_bool(self.skip_duplicate_inodes));
        push_entry(&mut out, "optimization_mode=", text_of_bool(self.optimization_mode));
        push_entry(&mut out, "min_file_size_mb=", to_decimal(self.min_file_size_mb).as_str());
        push_entry(&mut out, "scan_threads=", to_decimal(self.scan_threads).as_str());
        push_entry(&mut out, "show_info_card=", text_of_bool(self.show_info_card));
        let ghost paths = strings(self.custom_excludes@);
        assert(paths.skip(0) =~= paths);
        assert(out@ + exclude_entries(paths) =~= serialized(self@));
        for i in 0..self.custom_excludes.len()
            invariant
                paths == strings(self.custom_excludes@),
                out@ + exclude_entries(paths.skip(i as int)) == serialized(self@),
        {
            let ghost before = out@;
            push_entry(&mut out, "exclude=", self.custom_excludes[i].as_str());
            proof {
                let rest = paths.skip(i as int);
                assert(rest.drop_first() =~= paths.skip(i + 1));
                assert(rest[0] == self.custom_excludes@[i as int]@);
                assert(out@ + exclude_entries(paths.skip(i + 1)) =~= before + exclude_entries(
                    rest,
                ));
            }
        }
        assert(out@ + exclude_entries(paths.skip(paths.len() as int)) =~= out@);
        out
    }

    /// Changes the settings as one line of their text says.
    fn apply_line(&mut self, line: &Vec<char>)
        ensures
            final(self)@ == with_line(old(self)@, line@),
    {
        if let Some(val) = said_after(line, "ignore_cloud_storage=") {
            self.ignore_cloud_storage = is_true(&val);
        } else if let Some(val) = said_after(line, "skip_duplicate_inodes=") {
            self.skip_duplicate_inodes = is_true(&val);
        } else if let Some(val) = said_after(line, "optimization_mode=") {
            self.optimization_mode = is_true(&val);
        } else if let Some(val) = said_after(line, "min_file_size_mb=") {
            if let Some(n) = parse_number(val.as_slice()) {
                self.min_file_size_mb = n;
            }
        } else if let Some(val) = said_after(line, "scan_threads=") {
            if let Some(n) = parse_number(val.as_slice()) {
                self.scan_threads = n;
            }
        } else if let Some(val) = said_after(line, "exclude=") {
            if val.len() > 0 {
                let ghost before = self.custom_excludes@;
                let p = string_of(val.as_slice());
                self.custom_excludes.push(p);
                assert(strings(before.push(p)) =~= strings(before).push(p@));
            }
        } else if let Some(val) = said_after(line, "show_info_card=") {
            self.show_info_card = is_true(&val);
        }
    }

    /// The settings that a text holds.
    pub fn parse(content: &str) -> (r: Settings)
        ensures
            r@ == parsed(content@),
    {
        let v = chars_of(content);
        let n = v.len();
        let mut s = Settings::default();
        let mut from: usize = 0;
        assert(v@.skip(0) =~= v@);
        while from < n
            invariant
                n == v@.len(),
                from <= n,
                with_lines(s@, lines(v@.skip(from as int))) == parsed(content@),
            decreases n - from,
        {
            let k = find_from(v.as_slice(), '\n', from);
            let ghost rest = v@.skip(from as int);
            let ghost all = lines(rest);
            if k == n {
                let line = slice_copy(v.as_slice(), from, n);
                proof {
                    assert(line@ =~= rest);
                    assert(all.drop_first() =~= Seq::empty());
                    assert(v@.skip(n as int) =~= Seq::empty());
                }
                s.apply_line(&line);
                from = n;
            } else {
                let end = if k > from && v[k - 1] == '\r' {
                    k - 1
                } else {
                    k
                };
                let line = slice_copy(v.as_slice(), from, end);
                proof {
                    let whole = rest.take(k - from);
                    if k > from {
                        assert(whole.last() == v@[k - 1]);
                    }
                    assert(line@ =~= chomped(whole));
                    assert(rest.skip(k - from + 1) =~= v@.skip(k + 1));
                    assert(all.drop_first() =~= lines(v@.skip(k + 1)));
                }
                s.apply_line(&line);
                from = k + 1;
            }
        }
        assert(lines(v@.skip(from as int)) =~= Seq::empty());
        s
    }

    /// The minimum file size in bytes for the optimization filter, or 0 if
    /// optimization mode is disabled.
    pub fn min_file_size_bytes(&self) -> (r: u64)
        requires
            self.optimization_mode ==> self.min_file_size_mb * 1024 * 1024 <= u64::MAX,
        ensures
            r == (if self.optimization_mode {
                self.min_file_size_mb * 1024 * 1024
            } else {
                0
            }),
    {
        if self.optimization_mode {
            self.min_file_size_mb * 1024 * 1024
        } else {
            0
        }
    }

    /// Absolute folder paths the scanner should skip: the built-in cloud roots
    /// (when enabled, and the home folder is known) plus any custom excludes.
    pub fn excluded_paths(&self, home: Option<&str>) -> (r: Vec<String>)
        ensures
            strings(r@) == skipped_folders(self@, opt_text(home)),
    {
        let mut paths: Vec<String> = Vec::new();
        if self.ignore_cloud_storage {
            if let Some(h) = home {
                paths.push(join(h, "Library/CloudStorage"));
                paths.push(join(h, "Library/Mobile Documents"));
                paths.push(join(h, "Dropbox"));
                paths.push(join(h, "OneDrive"));
                paths.push(join(h, "Google Drive"));
            }
        }
        let ghost start = strings(paths@);
        proof {
            if self.ignore_cloud_storage && home is Some {
                assert(start =~= cloud_folders(home->0@));
            } else {
                assert(start =~= Seq::empty());
            }
        }
        for i in 0..self.custom_excludes.len()
            invariant
                strings(paths@) == start + strings(self.custom_excludes@).take(i as int),
        {
            let ghost before = paths@;
            let p = self.custom_excludes[i].clone();
            paths.push(p);
            assert(strings(before.push(p)) =~= strings(before).push(p@));
            assert(strings(self.custom_excludes@).take(i + 1) =~= strings(
                self.custom_excludes@,
            ).take(i as int).push(p@));
        }
        proof {
            let all = strings(self.custom_excludes@);
            assert(all.take(all.len() as int) =~= all);
            assert(Seq::<Seq<char>>::empty() + all =~= all);
        }
        paths
    }

    /// Adds a custom exclude, unless it is there already.
    pub fn add_exclude(&mut self, path: String)
        ensures
            final(self)@ == (SettingsView {
                custom_excludes: if old(self)@.custom_excludes.contains(path@) {
                    old(self)@.custom_excludes
                } else {
                    old(self)@.custom_excludes.push(path@)
                },
                ..old(self)@
            }),
    {
        let ghost before = self.custom_excludes@;
        for i in 0..self.custom_excludes.len()
            invariant
                self.custom_excludes@ == before,
                *self == *old(self),
                forall|j: int| 0 <= j < i ==> strings(before)[j] != path@,
        {
            if self.custom_excludes[i] == path {
                assert(strings(before)[i as int] == path@);
                return ;
            }
        }
        assert(!strings(before).contains(path@));
        self.custom_excludes.push(path);
        assert(strings(before.push(path)) =~= strings(before).push(path@));
    }

    /// Removes the custom exclude at `i`.
    pub fn remove_exclude(&mut self, i: usize)
        requires
            i < old(self)@.custom_excludes.len(),
        ensures
            final(self)@ == (SettingsView {
                custom_excludes: old(self)@.custom_excludes.remove(i as int),
                ..old(self)@
            }),
    {
        let ghost before = self.custom_excludes@;
        let _ = self.custom_excludes.remove(i);
        assert(strings(before.remove(i as int)) =~= strings(before).remove(i as int));
    }

    /// Takes what was typed as the minimum file size. It is at least 1; a text
    /// that is no number changes nothing.
    pub fn enter_min_file_size(&mut self, typed: &str)
        ensures
            final(self)@ == (match number(trimmed(typed@)) {
                Some(n) => SettingsView {
                    min_file_size_mb: if n < 1 { 1 } else { n },
                    ..old(self)@
                },
                None => old(self)@,
            }),
    {
        let v = chars_of(typed);
        let t = trim(v.as_slice());
        if let Some(n) = parse_number(t.as_slice()) {
            self.min_file_size_mb = if n < 1 { 1 } else { n };
        }
    }

    /// Takes what was typed as the number of scan threads. It is at most 256; a
    /// text that is no number changes nothing.
    pub fn enter_scan_threads(&mut self, typed: &str)
        ensures
            final(self)@ == (match number(trimmed(typed@)) {
                Some(n) => SettingsView {
                    scan_threads: if n > 256 { 256 } else { n },
                    ..old(self)@
                },
                None => old(self)@,
            }),
    {
        let v = chars_of(typed);
        let t = trim(v.as_slice());
        if let Some(n) = parse_number(t.as_slice()) {
            self.scan_threads = if n > 256 { 256 } else { n };
        }
    }
}

/// Where the settings are kept under a home folder.
pub fn settings_path(home: &str) -> (r: String)
    ensures
        r@ == joined(joined(joined(home@, ".config"@), "macdirstat"@), "settings.txt"@),
{
    let a = join(home, ".config");
    let b = join(a.as_str(), "macdirstat");
    join(b.as_str(), "settings.txt")
}

} // verus!
