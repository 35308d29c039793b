//! What is shown, asked, logged and cached, and under which names.

use vstd::prelude::*;

use crate::cache::{cache_dir, cache_file, cache_file_name, cache_is_current, cache_name, fx_hashed};
use crate::confirm::{
    applescript_escape, confirmed, delete_script, escaped, escaped_char, escaped_text_reads_back,
    unescaped,
};
use crate::decimal::{decimal, zero_padded};
use crate::format::{
    folder_label, format_file_count, kind_label, more_types_label, size_label, start_dir,
    stop_label, threads_label, used_space, volume_name, FileCount,
};
use crate::laws::paths::{is_one_name, joined_names};
use crate::laws::texts::{
    hex_numeral, is_field, lemma_decimal, lemma_found, lemma_hex_text, lemma_padded_numeral,
    stands_at,
};
use crate::logging::{
    enabled, log_file_path, log_line, padded, panic_report, rotated_log_path, should_rotate,
    timestamp, LocalTime, LogLevel, SourcePlace,
};
use crate::path::{joined, path_parts};

verus! {

/// A count below a thousand is shown in its digits. One below a million has a comma before
/// the last three: what stands before it are the thousands, and there are three digits after
/// it. From a million on the count itself is handed on.
pub proof fn a_count_is_shown_in_groups(count: u64, r: FileCount)
    requires
        call_ensures(format_file_count, (count,), r),
    ensures
        r is Millions <==> count >= 1_000_000,
        r is Millions ==> r->Millions_0 == count,
        count < 1_000 ==> is_field(r->Exact_0@, 1, count as int),
        1_000 <= count < 1_000_000 ==> {
            let t = r->Exact_0@;
            let k = t.len() - 4;
            &&& k > 0
            &&& t[k] == ','
            &&& is_field(t.take(k), 1, count as int / 1_000)
            &&& is_field(t.skip(k + 1), 3, count as int % 1_000)
        },
{
    lemma_decimal(count as nat);
    if 1_000 <= count < 1_000_000 {
        let a = decimal(count as nat / 1_000);
        let b = zero_padded(decimal(count as nat % 1_000), 3);
        reveal_strlit(",");
        lemma_decimal(count as nat / 1_000);
        lemma_padded_numeral(count as nat % 1_000, 3);
        lemma_short(count as nat % 1_000);
        let t = r->Exact_0@;
        assert(","@.len() == 1 && ","@[0] == ',');
        assert(t == a + ","@ + b);
        assert(b.len() == 3);
        let k = t.len() - 4;
        assert(t.take(k) =~= a);
        assert(t.skip(k + 1) =~= b);
        assert(t[k] == ',');
    }
}

proof fn lemma_short(n: nat)
    requires
        n < 1_000,
    ensures
        decimal(n).len() <= 3,
        zero_padded(decimal(n), 3).len() == 3,
{
    reveal_with_fuel(crate::decimal::digits, 4);
    let _ = crate::laws::texts::lemma_padded(decimal(n), 3);
}

/// The size of a directory is marked if it is a lower bound; no other is.
pub proof fn a_lower_bound_is_marked(size: &str, is_dir: bool, approximate: bool, r: String)
    requires
        call_ensures(size_label, (size, is_dir, approximate), r),
    ensures
        is_dir && approximate ==> r@.len() == size@.len() + 1 && r@[0] == '~' && r@.skip(1)
            == size@,
        !(is_dir && approximate) ==> r@ == size@,
{
    reveal_strlit("~");
    if is_dir && approximate {
        assert("~"@.len() == 1 && "~"@[0] == '~');
        assert(r@.skip(1) =~= size@);
    }
}

/// What is not free is in use.
pub proof fn what_is_not_free_is_in_use(free: u64, total: u64, r: u64)
    requires
        call_ensures(used_space, (free, total), r),
    ensures
        free <= total ==> r + free == total,
        free > total ==> r == 0,
{
}

/// A folder is shown by the last name of its path.
pub proof fn a_folder_is_shown_by_its_last_name(path: &str, r: String)
    requires
        call_ensures(folder_label, (path,), r),
    ensures
        path_parts(path@).names.len() > 0 && path_parts(path@).names.last() != seq!['.', '.'] ==> r@
            == path_parts(path@).names.last(),
        path_parts(path@).names.len() == 0 || path_parts(path@).names.last() == seq!['.', '.']
            ==> r@ == path@,
{
}

/// A volume is shown by the last name of where it is mounted, that of the system by its own
/// name.
pub proof fn a_volume_is_shown_by_its_last_name(mount: &str, r: String)
    requires
        call_ensures(volume_name, (mount,), r),
    ensures
        mount@ == seq!['/'] ==> r@ == "Macintosh HD"@,
        mount@ != seq!['/'] && path_parts(mount@).names.len() > 0 && path_parts(mount@).names.last()
            != seq!['.', '.'] ==> r@ == path_parts(mount@).names.last(),
        mount@ != seq!['/'] && (path_parts(mount@).names.len() == 0 || path_parts(
            mount@,
        ).names.last() == seq!['.', '.']) ==> r@ == mount@,
{
    reveal_strlit("/");
    assert("/"@ =~= seq!['/']);
}

/// The button for the other file types says how many there are beyond the first five.
pub proof fn the_other_file_types_are_counted(count: usize, r: String)
    requires
        call_ensures(more_types_label, (count,), r),
    ensures
        count <= 5 ==> r@ == "All file types"@,
        count > 5 ==> exists|n: Seq<char>|
            r@ == #[trigger] ("\u{2295} "@ + n + " more"@) && is_field(n, 1, count - 5),
{
    if count > 5 {
        lemma_decimal((count - 5) as nat);
        assert(r@ == "\u{2295} "@ + decimal((count - 5) as nat) + " more"@);
    }
}

/// A number of threads is shown as such, unless the machine chooses.
pub proof fn threads_are_shown_as_a_number(threads: u64, r: String)
    requires
        call_ensures(threads_label, (threads,), r),
    ensures
        threads == 0 ==> r@ == "auto"@,
        threads > 0 ==> is_field(r@, 1, threads as int),
{
    lemma_decimal(threads as nat);
}

/// A file is of the kind of its extension.
pub proof fn a_file_is_of_the_kind_of_its_extension(ext: &str, r: String)
    requires
        call_ensures(kind_label, (ext,), r),
    ensures
        ext@.len() == 0 ==> r@ == "File"@,
        ext@.len() > 0 ==> r@ == "."@ + ext@ + " file"@,
{
}

/// The stop button says whether it was pressed.
pub proof fn the_stop_button_says_whether_it_was_pressed(
    stopping: bool,
    compact: bool,
    r: &'static str,
)
    requires
        call_ensures(stop_label, (stopping, compact), r),
    ensures
        stopping ==> r@ == "Stopping\u{2026}"@,
        !stopping && compact ==> r@ == "\u{25A0} Stop"@,
        !stopping && !compact ==> r@ == "\u{25A0}  Stop"@,
{
}

/// The folder that was named is scanned first, else the home folder.
pub proof fn the_folder_that_was_named_is_scanned(
    named: Option<String>,
    home: Option<String>,
    r: String,
)
    requires
        call_ensures(start_dir, (named, home), r),
    ensures
        named is Some ==> r@ == named->0@,
        named is None && home is Some ==> r@ == home->0@,
        named is None && home is None ==> r@ == "/Users"@,
{
}

/// Escaping works character by character: a backslash is set before each backslash and each
/// quote, and all else stays.
pub proof fn escaping_works_character_by_character(a: Seq<char>, b: Seq<char>, c: char)
    ensures
        escaped(a + b) == escaped(a) + escaped(b),
        c != '\\' && c != '"' ==> escaped(seq![c]) == seq![c],
        c == '\\' || c == '"' ==> escaped(seq![c]) == seq!['\\', c],
        escaped(Seq::empty()).len() == 0,
    decreases b.len(),
{
    assert(seq![c].drop_last() =~= Seq::empty());
    assert(escaped(seq![c].drop_last()) =~= Seq::empty());
    assert(Seq::<char>::empty() + escaped_char(c) =~= escaped_char(c));
    if b.len() == 0 {
        assert(a + b =~= a);
        assert(escaped(a) + escaped(b) =~= escaped(a));
    } else {
        escaping_works_character_by_character(a, b.drop_last(), c);
        assert((a + b).drop_last() =~= a + b.drop_last());
        assert((a + b).last() == b.last());
        assert(escaped(a + b) =~= escaped(a) + escaped(b));
    }
}

/// An escaped text says what it was.
pub proof fn an_escaped_text_says_what_it_was(s: &str, r: String)
    requires
        call_ensures(applescript_escape, (s,), r),
    ensures
        r@ == escaped(s@),
        unescaped(r@) == Some(s@),
{
    escaped_text_reads_back(s@);
}

/// The question names what is to be deleted, its size and its path, and whether it is a
/// directory; of one it says that all in it goes too. Cancelling is the default.
pub proof fn the_question_names_what_is_deleted(
    name: &str,
    size: &str,
    path: &str,
    is_dir: bool,
    r: String,
)
    requires
        call_ensures(delete_script, (name, size, path, is_dir), r),
    ensures
        is_dir ==> r@ == "display alert \"Delete this "@ + "directory"@ + "?\" message \""@ + (
        escaped(name@) + " ("@ + size@ + ")\n"@ + escaped(path@)
            + "\n\nThis will permanently delete the directory and all its contents."@)
            + "\" as critical buttons {\"Cancel\", \"Delete\"} default button \"Cancel\""@,
        !is_dir ==> r@ == "display alert \"Delete this "@ + "file"@ + "?\" message \""@ + (escaped(
            name@,
        ) + " ("@ + size@ + ")\n"@ + escaped(path@))
            + "\" as critical buttons {\"Cancel\", \"Delete\"} default button \"Cancel\""@,
{
    if !is_dir {
        let m = escaped(name@) + " ("@ + size@ + ")\n"@ + escaped(path@);
        assert(m + Seq::<char>::empty() =~= m);
    }
}

/// Only the answer to delete is taken for it.
pub proof fn only_the_answer_to_delete_confirms(output: &str, r: bool)
    requires
        call_ensures(confirmed, (output,), r),
    ensures
        forall|a: Seq<char>, b: Seq<char>|
            output@ == #[trigger] (a + "button returned:Delete"@ + b) ==> r,
        r ==> exists|i: int| #[trigger] stands_at(output@, "button returned:Delete"@, i),
{
    lemma_found(output@, "button returned:Delete"@);
}

/// Grave records are logged whoever they are of, informing ones if they are the
/// application's own, and no others.
pub proof fn grave_records_are_logged(target: &str, level: LogLevel, r: bool)
    requires
        call_ensures(enabled, (target, level), r),
    ensures
        level is Error || level is Warn ==> r,
        level is Debug || level is Trace ==> !r,
        level is Info ==> r == "macdirstat"@.is_prefix_of(target@),
{
}

/// The log is under the home folder, and the old one beside it.
pub proof fn the_log_is_under_the_home_folder(home: &str, r: String, o: String)
    requires
        call_ensures(log_file_path, (home,), r),
        call_ensures(rotated_log_path, (home,), o),
    ensures
        ({
            let dir = path_parts(home@).names.push("Library"@).push("Logs"@).push("MacDirStat"@);
            &&& path_parts(r@).names == dir.push("macdirstat.log"@)
            &&& path_parts(o@).names == dir.push("macdirstat.log.old"@)
            &&& path_parts(r@).absolute == path_parts(home@).absolute
        }),
{
    reveal_strlit("Library");
    reveal_strlit("Logs");
    reveal_strlit("MacDirStat");
    reveal_strlit("macdirstat.log");
    reveal_strlit("macdirstat.log.old");
    assert("Library"@.len() == 7 && "Logs"@.len() == 4 && "MacDirStat"@.len() == 10);
    assert("macdirstat.log"@.len() == 14 && "macdirstat.log.old"@.len() == 18);
    assert(is_one_name("Library"@) && is_one_name("Logs"@) && is_one_name("MacDirStat"@));
    assert(is_one_name("macdirstat.log"@) && is_one_name("macdirstat.log.old"@));
    let a = joined(home@, "Library"@);
    let b = joined(a, "Logs"@);
    let c = joined(b, "MacDirStat"@);
    joined_names(home@, "Library"@);
    joined_names(a, "Logs"@);
    joined_names(b, "MacDirStat"@);
    joined_names(c, "macdirstat.log"@);
    joined_names(c, "macdirstat.log.old"@);
}

/// A log is rotated once it is past five MiB.
pub proof fn a_long_log_is_rotated(len: u64, r: bool)
    requires
        call_ensures(should_rotate, (len,), r),
    ensures
        r <==> len > 5_242_880,
{
}

/// The same of a number that may be negative, whose sign is one of the columns.
pub open spec fn is_signed_field(t: Seq<char>, width: nat, n: int) -> bool {
    if n < 0 {
        t.len() > 0 && t[0] == '-' && is_field(t.skip(1), (width - 1) as nat, -n)
    } else {
        is_field(t, width, n)
    }
}

proof fn lemma_signed_field(n: int, width: nat)
    requires
        width > 1,
    ensures
        is_signed_field(padded(n, width), width, n),
{
    if n < 0 {
        reveal_strlit("-");
        let d = zero_padded(decimal((-n) as nat), (width - 1) as nat);
        assert("-"@.len() == 1 && "-"@[0] == '-');
        assert(padded(n, width).skip(1) =~= d);
        lemma_padded_numeral((-n) as nat, (width - 1) as nat);
    } else {
        lemma_padded_numeral(n as nat, width);
    }
}

/// A time is the year in four columns and the month, the day, the hour, the minute and the
/// second in two each, years counted from 1900 on and months from 1.
pub proof fn a_time_is_shown_by_its_parts(t: LocalTime, r: String)
    requires
        call_ensures(timestamp, (Some(t),), r),
    ensures
        exists|y: Seq<char>, m: Seq<char>, d: Seq<char>, h: Seq<char>, i: Seq<char>, s: Seq<char>|
            r@ == #[trigger] (y + "-"@ + m + "-"@ + d + " "@ + h + ":"@ + i + ":"@ + s)
                && is_signed_field(y, 4, t.year + 1900) && is_signed_field(m, 2, t.month + 1)
                && is_signed_field(d, 2, t.day as int) && is_signed_field(h, 2, t.hour as int)
                && is_signed_field(i, 2, t.minute as int) && is_signed_field(
                s,
                2,
                t.second as int,
            ),
{
    let y = padded(t.year + 1900, 4);
    let m = padded(t.month + 1, 2);
    let d = padded(t.day as int, 2);
    let h = padded(t.hour as int, 2);
    let i = padded(t.minute as int, 2);
    let s = padded(t.second as int, 2);
    lemma_signed_field(t.year + 1900, 4);
    lemma_signed_field(t.month + 1, 2);
    lemma_signed_field(t.day as int, 2);
    lemma_signed_field(t.hour as int, 2);
    lemma_signed_field(t.minute as int, 2);
    lemma_signed_field(t.second as int, 2);
    assert(r@ == y + "-"@ + m + "-"@ + d + " "@ + h + ":"@ + i + ":"@ + s);
}

/// A time that is not known is shown by marks.
pub proof fn an_unknown_time_is_shown_by_marks(r: String)
    requires
        call_ensures(timestamp, (None::<LocalTime>,), r),
    ensures
        r@ == "????-??-?? ??:??:??"@,
{
}

/// A line of the log has the time, the level, who it is of and what it says.
pub proof fn a_log_line_says_when_how_grave_who_and_what(
    time: &str,
    level: LogLevel,
    target: &str,
    text: &str,
    r: String,
)
    requires
        call_ensures(log_line, (time, level, target, text), r),
    ensures
        r@ == time@ + " ["@ + (match level {
            LogLevel::Error => "ERROR"@,
            LogLevel::Warn => " WARN"@,
            LogLevel::Info => " INFO"@,
            LogLevel::Debug => "DEBUG"@,
            LogLevel::Trace => "TRACE"@,
        }) + "] "@ + target@ + " - "@ + text@ + "\n"@,
{
}

/// Whether a text is a place in a source: the file, the line and the column, with colons
/// between them.
pub open spec fn is_place(t: Seq<char>, p: SourcePlace) -> bool {
    exists|line: Seq<char>, column: Seq<char>|
        t == #[trigger] (p.file@ + ":"@ + line + ":"@ + column) && is_field(line, 1, p.line as int)
            && is_field(column, 1, p.column as int)
}

/// A panic is logged with where it was, what it said and how it came to it.
pub proof fn a_panic_is_logged_with_its_place(
    place: Option<SourcePlace>,
    payload: Option<String>,
    backtrace: &str,
    r: String,
)
    requires
        call_ensures(panic_report, (place, payload, backtrace), r),
    ensures
        ({
            let said = match payload {
                Some(t) => t@,
                None => "<non-string panic payload>"@,
            };
            &&& place is None ==> r@ == "PANIC at "@ + "unknown location"@ + ": "@ + said + "\n"@
                + backtrace@
            &&& place is Some ==> exists|at: Seq<char>|
                r@ == "PANIC at "@ + at + ": "@ + said + "\n"@ + backtrace@ && #[trigger] is_place(
                    at,
                    place->0,
                )
        }),
{
    let at = match place {
        Some(p) => p.file@ + ":"@ + decimal(p.line as nat) + ":"@ + decimal(p.column as nat),
        None => "unknown location"@,
    };
    if place is Some {
        let p = place->0;
        lemma_decimal(p.line as nat);
        lemma_decimal(p.column as nat);
        assert(at == p.file@ + ":"@ + decimal(p.line as nat) + ":"@ + decimal(p.column as nat));
        assert(is_place(at, p));
    }
    let said = match payload {
        Some(t) => t@,
        None => "<non-string panic payload>"@,
    };
    assert(r@ == "PANIC at "@ + at + ": "@ + said + "\n"@ + backtrace@);
}

/// The caches are under the home folder.
pub proof fn the_caches_are_under_the_home_folder(home: &str, r: String)
    requires
        call_ensures(cache_dir, (home,), r),
    ensures
        path_parts(r@).names == path_parts(home@).names.push(".cache"@).push("macdirstat"@),
        path_parts(r@).absolute == path_parts(home@).absolute,
{
    reveal_strlit(".cache");
    reveal_strlit("macdirstat");
    assert(".cache"@.len() == 6 && "macdirstat"@.len() == 10);
    assert(is_one_name(".cache"@) && is_one_name("macdirstat"@));
    joined_names(home@, ".cache"@);
    joined_names(joined(home@, ".cache"@), "macdirstat"@);
}

proof fn lemma_cache_name(hash: u64)
    ensures
        cache_name(hash).len() == 20,
        cache_name(hash).skip(cache_name(hash).len() - 4) == ".bin"@,
        hex_numeral(cache_name(hash).take(cache_name(hash).len() - 4)) == hash,
        is_one_name(cache_name(hash)),
{
    reveal_strlit(".bin");
    assert(".bin"@.len() == 4);
    lemma_hex_text(hash as nat, 16);
    let t = zero_padded(crate::decimal::digits(hash as nat, 16), 16);
    let n = cache_name(hash);
    assert(n.take(n.len() - 4) =~= t);
    assert(n.skip(n.len() - 4) =~= ".bin"@);
    if n.contains('/') {
        let i = choose|i: int| 0 <= i < n.len() && n[i] == '/';
        if i < t.len() {
            assert(t[i] == '/');
        } else {
            assert(".bin"@[i - t.len()] == '/');
        }
    }
}

/// A cache is named by the hash of its root, in 16 hexadecimal digits. Hashes that
/// differ give names that do.
pub proof fn a_cache_is_named_by_a_hash(hash: u64, other: u64, r: String, s: String)
    requires
        call_ensures(cache_file_name, (hash,), r),
        call_ensures(cache_file_name, (other,), s),
    ensures
        r@.len() == 20,
        r@.skip(r@.len() - 4) == ".bin"@,
        hex_numeral(r@.take(r@.len() - 4)) == hash,
        hash != other ==> r@ != s@,
{
    lemma_cache_name(hash);
    lemma_cache_name(other);
}

/// The cache of a root is in the folder of the caches, if there is a home folder, and is
/// named by the hash of that root.
pub proof fn the_cache_of_a_root_is_named_by_its_hash(
    home: Option<&str>,
    root: &str,
    r: Option<String>,
)
    requires
        call_ensures(cache_file, (home, root), r),
    ensures
        r is Some <==> home is Some,
        r is Some ==> exists|machine: nat, name: Seq<char>|
            path_parts(r->0@).names == path_parts(home->0@).names.push(".cache"@).push(
                "macdirstat"@,
            ).push(name) && name.len() == 20 && hex_numeral(name.take(name.len() - 4))
                == #[trigger] fx_hashed(root@, machine) && #[trigger] name.skip(name.len() - 4)
                == ".bin"@,
{
    if r is Some {
        let h = home->0@;
        let machine = choose|machine: nat|
            r->0@ == joined(
                crate::cache::cache_folder(h),
                cache_name(#[trigger] fx_hashed(root@, machine)),
            );
        let hash = fx_hashed(root@, machine);
        let name = cache_name(hash);
        lemma_cache_name(hash);
        reveal_strlit(".cache");
        reveal_strlit("macdirstat");
        assert(".cache"@.len() == 6 && "macdirstat"@.len() == 10);
        assert(is_one_name(".cache"@) && is_one_name("macdirstat"@));
        joined_names(h, ".cache"@);
        joined_names(joined(h, ".cache"@), "macdirstat"@);
        joined_names(crate::cache::cache_folder(h), name);
        assert(name.skip(name.len() - 4) == ".bin"@);
    }
}

/// A cache can be shown if it is of the present version and of that root.
pub proof fn a_cache_is_shown_for_its_own_root(version: u32, cached: &str, root: &str, r: bool)
    requires
        call_ensures(cache_is_current, (version, cached, root), r),
    ensures
        r <==> version == 2 && cached@ == root@,
{
}

} // verus!
