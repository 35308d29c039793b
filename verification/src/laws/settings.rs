//! What the settings say, and how they are kept.

use vstd::prelude::*;

use crate::decimal::{decimal, parse_number};
use crate::laws::paths::{is_one_name, joined_names, leads_alike};
use crate::laws::texts::{
    a_text_is_read_line_by_line, is_field, is_numeral, lemma_decimal, lemma_number, lemma_trimmed,
    numeral,
};
use crate::path::{is_excluded, joined, path_parts, strings};
use crate::settings::{
    bool_text, default_settings, exclude_entries, is_plain_path, lemma_keys, lemma_not_prefix,
    parsed, said, serialized_settings_parse_back, settings_path, with_line, with_lines, Settings,
    SettingsView,
};
use crate::text::{lines, trimmed};

verus! {

/// Whether two settings are the same.
pub open spec fn is_same(a: Settings, b: Settings) -> bool {
    &&& a.ignore_cloud_storage == b.ignore_cloud_storage
    &&& a.skip_duplicate_inodes == b.skip_duplicate_inodes
    &&& a.optimization_mode == b.optimization_mode
    &&& a.min_file_size_mb == b.min_file_size_mb
    &&& a.scan_threads == b.scan_threads
    &&& a.show_info_card == b.show_info_card
    &&& is_same_list(a.custom_excludes@, b.custom_excludes@)
}

/// Whether two lists have the same texts.
pub open spec fn is_same_list(a: Seq<String>, b: Seq<String>) -> bool {
    a.len() == b.len() && forall|i: int| 0 <= i < a.len() ==> (#[trigger] a[i])@ == b[i]@
}

pub proof fn lemma_same_view(a: Settings, b: Settings)
    requires
        a@ == b@,
    ensures
        is_same(a, b),
{
    assert(strings(a.custom_excludes@) == strings(b.custom_excludes@));
    assert(a.custom_excludes@.len() == strings(a.custom_excludes@).len());
    assert(b.custom_excludes@.len() == strings(b.custom_excludes@).len());
    assert forall|i: int| 0 <= i < a.custom_excludes@.len() implies (
    #[trigger] a.custom_excludes@[i])@ == b.custom_excludes@[i]@ by {
        assert(strings(a.custom_excludes@)[i] == a.custom_excludes@[i]@);
        assert(strings(b.custom_excludes@)[i] == b.custom_excludes@[i]@);
    }
}

/// At first duplicates are skipped, cloud folders are left out, files under 25 MiB too, the
/// machine chooses the threads, nothing else is left out, and cards are shown.
pub proof fn the_first_settings(r: Settings)
    requires
        call_ensures(Settings::default, (), r),
    ensures
        r.ignore_cloud_storage,
        r.skip_duplicate_inodes,
        r.optimization_mode,
        r.min_file_size_mb == 25,
        r.scan_threads == 0,
        r.custom_excludes@.len() == 0,
        r.show_info_card,
        r@ == default_settings(),
{
    assert(r.custom_excludes@.len() == strings(r.custom_excludes@).len());
}

/// Settings that were written are read back, if each path to be left out can be kept as a
/// line.
pub proof fn settings_are_read_back(s: Settings, text: &str, out: String, r: Settings)
    requires
        call_ensures(Settings::serialize, (&s,), out),
        text@ == out@,
        call_ensures(Settings::parse, (text,), r),
        forall|i: int|
            0 <= i < s.custom_excludes@.len() ==> {
                let p = (#[trigger] s.custom_excludes@[i])@;
                p.len() > 0 && trimmed(p) == p && !p.contains('\n')
            },
    ensures
        is_same(r, s),
{
    let v = s@;
    assert forall|i: int| 0 <= i < v.custom_excludes.len() implies is_plain_path(
        #[trigger] v.custom_excludes[i],
    ) by {
        let p = s.custom_excludes@[i]@;
        assert(v.custom_excludes[i] == p);
        let _ = lemma_trimmed(p);
    }
    serialized_settings_parse_back(v);
    lemma_same_view(r, s);
}

/// Without a file the first settings are loaded, else those that the file holds.
pub proof fn loading_reads_the_file(
    text: &str,
    loaded: Settings,
    read: Settings,
    without: Settings,
    first: Settings,
)
    requires
        call_ensures(Settings::load, (Some(text),), loaded),
        call_ensures(Settings::parse, (text,), read),
        call_ensures(Settings::load, (None::<&str>,), without),
        call_ensures(Settings::default, (), first),
    ensures
        is_same(loaded, read),
        is_same(without, first),
{
    lemma_same_view(loaded, read);
    lemma_same_view(without, first);
}

proof fn lemma_with_lines(s: SettingsView, a: Seq<Seq<char>>, b: Seq<Seq<char>>)
    ensures
        with_lines(s, a + b) == with_lines(with_lines(s, a), b),
    decreases a.len(),
{
    if a.len() == 0 {
        assert(a + b =~= b);
    } else {
        assert((a + b).drop_first() =~= a.drop_first() + b);
        lemma_with_lines(with_line(s, a[0]), a.drop_first(), b);
    }
}

/// Whether a text is so many whole lines.
pub open spec fn is_whole_lines(t: Seq<char>) -> bool {
    t.len() == 0 || t.last() == '\n'
}

/// Whether a text can stand as one line.
pub open spec fn is_line(t: Seq<char>) -> bool {
    !t.contains('\n') && t.len() > 0 && t.last() != '\r'
}

proof fn lemma_one_more_line(before: Seq<char>, line: Seq<char>)
    requires
        is_whole_lines(before),
        is_line(line),
    ensures
        parsed(before + line.push('\n')) == with_line(parsed(before), line),
{
    a_text_is_read_line_by_line(before, line.push('\n'));
    a_text_is_read_line_by_line(line, Seq::empty());
    lemma_with_lines(default_settings(), lines(before), seq![line]);
    let s = parsed(before);
    assert(seq![line].drop_first() =~= Seq::empty());
    assert(with_lines(with_line(s, line), seq![line].drop_first()) == with_line(s, line));
}

/// A text with no lines holds the first settings.
pub proof fn an_empty_text_holds_the_first_settings(text: &str, r: Settings, first: Settings)
    requires
        call_ensures(Settings::parse, (text,), r),
        call_ensures(Settings::default, (), first),
        text@.len() == 0,
    ensures
        is_same(r, first),
{
    a_text_is_read_line_by_line(text@, Seq::empty());
    lemma_same_view(r, first);
}

proof fn lemma_prefixes(key: Seq<char>, val: Seq<char>)
    ensures
        key.is_prefix_of(key + val),
        said(key, key + val) == trimmed(val),
{
    assert((key + val).subrange(0, key.len() as int) =~= key);
    assert((key + val).skip(key.len() as int) =~= val);
}

proof fn lemma_other_key(key: Seq<char>, val: Seq<char>, other: Seq<char>, i: int)
    requires
        0 <= i < key.len(),
        i < other.len(),
        key[i] != other[i],
    ensures
        !other.is_prefix_of(key + val),
{
    assert((key + val)[i] == key[i]);
    lemma_not_prefix(other, key + val, i);
}

/// Whether the settings `b` are `a` but for what is left out.
pub open spec fn differs_in_excludes_alone(a: Settings, b: Settings) -> bool {
    &&& a.ignore_cloud_storage == b.ignore_cloud_storage
    &&& a.skip_duplicate_inodes == b.skip_duplicate_inodes
    &&& a.optimization_mode == b.optimization_mode
    &&& a.min_file_size_mb == b.min_file_size_mb
    &&& a.scan_threads == b.scan_threads
    &&& a.show_info_card == b.show_info_card
}

/// What the settings are after one more line: that line changes what its key names, and
/// nothing else. A switch is on if the line says `true`.
pub proof fn a_line_sets_its_switch(
    a: &str,
    b: &str,
    before: Settings,
    after: Settings,
    val: Seq<char>,
)
    requires
        call_ensures(Settings::parse, (a,), before),
        call_ensures(Settings::parse, (b,), after),
        is_whole_lines(a@),
    ensures
        is_line("ignore_cloud_storage="@ + val) && b@ == a@ + ("ignore_cloud_storage="@
            + val).push('\n') ==> is_same(
            after,
            Settings { ignore_cloud_storage: trimmed(val) == "true"@, ..before },
        ),
        is_line("skip_duplicate_inodes="@ + val) && b@ == a@ + ("skip_duplicate_inodes="@
            + val).push('\n') ==> is_same(
            after,
            Settings { skip_duplicate_inodes: trimmed(val) == "true"@, ..before },
        ),
        is_line("optimization_mode="@ + val) && b@ == a@ + ("optimization_mode="@ + val).push('\n')
            ==> is_same(
            after,
            Settings { optimization_mode: trimmed(val) == "true"@, ..before },
        ),
        is_line("show_info_card="@ + val) && b@ == a@ + ("show_info_card="@ + val).push('\n')
            ==> is_same(after, Settings { show_info_card: trimmed(val) == "true"@, ..before }),
{
    lemma_keys();
    let k1 = "ignore_cloud_storage="@;
    let k2 = "skip_duplicate_inodes="@;
    let k3 = "optimization_mode="@;
    let k4 = "min_file_size_mb="@;
    let k5 = "scan_threads="@;
    let k6 = "exclude="@;
    let k7 = "show_info_card="@;
    if is_line(k1 + val) && b@ == a@ + (k1 + val).push('\n') {
        lemma_one_more_line(a@, k1 + val);
        lemma_prefixes(k1, val);
        lemma_same_view(
            after,
            Settings { ignore_cloud_storage: trimmed(val) == "true"@, ..before },
        );
    }
    if is_line(k2 + val) && b@ == a@ + (k2 + val).push('\n') {
        lemma_one_more_line(a@, k2 + val);
        lemma_prefixes(k2, val);
        lemma_other_key(k2, val, k1, 0);
        lemma_same_view(
            after,
            Settings { skip_duplicate_inodes: trimmed(val) == "true"@, ..before },
        );
    }
    if is_line(k3 + val) && b@ == a@ + (k3 + val).push('\n') {
        lemma_one_more_line(a@, k3 + val);
        lemma_prefixes(k3, val);
        lemma_other_key(k3, val, k1, 0);
        lemma_other_key(k3, val, k2, 0);
        lemma_same_view(
            after,
            Settings { optimization_mode: trimmed(val) == "true"@, ..before },
        );
    }
    if is_line(k7 + val) && b@ == a@ + (k7 + val).push('\n') {
        lemma_one_more_line(a@, k7 + val);
        lemma_prefixes(k7, val);
        lemma_other_key(k7, val, k1, 0);
        lemma_other_key(k7, val, k2, 1);
        lemma_other_key(k7, val, k3, 0);
        lemma_other_key(k7, val, k4, 0);
        lemma_other_key(k7, val, k5, 1);
        lemma_other_key(k7, val, k6, 0);
        lemma_same_view(after, Settings { show_info_card: trimmed(val) == "true"@, ..before });
    }
}

/// A number is set to what its digits stand for; what is no number changes nothing.
pub proof fn a_line_sets_its_number(
    a: &str,
    b: &str,
    before: Settings,
    after: Settings,
    val: Seq<char>,
)
    requires
        call_ensures(Settings::parse, (a,), before),
        call_ensures(Settings::parse, (b,), after),
        is_whole_lines(a@),
    ensures
        is_line("min_file_size_mb="@ + val) && b@ == a@ + ("min_file_size_mb="@ + val).push('\n')
            && is_numeral(trimmed(val)) && numeral(trimmed(val)) <= u64::MAX ==> is_same(
            after,
            Settings { min_file_size_mb: numeral(trimmed(val)) as u64, ..before },
        ),
        is_line("scan_threads="@ + val) && b@ == a@ + ("scan_threads="@ + val).push('\n')
            && is_numeral(trimmed(val)) && numeral(trimmed(val)) <= u64::MAX ==> is_same(
            after,
            Settings { scan_threads: numeral(trimmed(val)) as u64, ..before },
        ),
        is_line("min_file_size_mb="@ + val) && b@ == a@ + ("min_file_size_mb="@ + val).push('\n')
            && !is_numeral(trimmed(val)) && !(trimmed(val).len() > 0 && trimmed(val)[0] == '+')
            ==> is_same(after, before),
        is_line("scan_threads="@ + val) && b@ == a@ + ("scan_threads="@ + val).push('\n')
            && !is_numeral(trimmed(val)) && !(trimmed(val).len() > 0 && trimmed(val)[0] == '+')
            ==> is_same(after, before),
{
    lemma_keys();
    let k1 = "ignore_cloud_storage="@;
    let k2 = "skip_duplicate_inodes="@;
    let k3 = "optimization_mode="@;
    let k4 = "min_file_size_mb="@;
    let k5 = "scan_threads="@;
    let t = trimmed(val);
    lemma_number(t);
    if is_numeral(t) {
        assert('0' <= t[0] <= '9');
    }
    if is_line(k4 + val) && b@ == a@ + (k4 + val).push('\n') {
        lemma_one_more_line(a@, k4 + val);
        lemma_prefixes(k4, val);
        lemma_other_key(k4, val, k1, 0);
        lemma_other_key(k4, val, k2, 0);
        lemma_other_key(k4, val, k3, 0);
        if is_numeral(t) && numeral(t) <= u64::MAX {
            lemma_same_view(
                after,
                Settings { min_file_size_mb: numeral(t) as u64, ..before },
            );
        } else if !is_numeral(t) && !(t.len() > 0 && t[0] == '+') {
            lemma_same_view(after, before);
        }
    }
    if is_line(k5 + val) && b@ == a@ + (k5 + val).push('\n') {
        lemma_one_more_line(a@, k5 + val);
        lemma_prefixes(k5, val);
        lemma_other_key(k5, val, k1, 0);
        lemma_other_key(k5, val, k2, 1);
        lemma_other_key(k5, val, k3, 0);
        lemma_other_key(k5, val, k4, 0);
        if is_numeral(t) && numeral(t) <= u64::MAX {
            lemma_same_view(after, Settings { scan_threads: numeral(t) as u64, ..before });
        } else if !is_numeral(t) && !(t.len() > 0 && t[0] == '+') {
            lemma_same_view(after, before);
        }
    }
}

/// A line with a path adds it to what is left out, after those that were there.
pub proof fn a_line_adds_its_path(
    a: &str,
    b: &str,
    before: Settings,
    after: Settings,
    val: Seq<char>,
    i: int,
)
    requires
        call_ensures(Settings::parse, (a,), before),
        call_ensures(Settings::parse, (b,), after),
        is_whole_lines(a@),
        is_line("exclude="@ + val),
        b@ == a@ + ("exclude="@ + val).push('\n'),
    ensures
        differs_in_excludes_alone(after, before),
        trimmed(val).len() == 0 ==> is_same(after, before),
        trimmed(val).len() > 0 ==> after.custom_excludes@.len() == before.custom_excludes@.len() + 1
            && after.custom_excludes@.last()@ == trimmed(val),
        0 <= i < before.custom_excludes@.len() ==> after.custom_excludes@[i]@
            == before.custom_excludes@[i]@,
{
    lemma_keys();
    let k6 = "exclude="@;
    lemma_one_more_line(a@, k6 + val);
    lemma_prefixes(k6, val);
    lemma_other_key(k6, val, "ignore_cloud_storage="@, 0);
    lemma_other_key(k6, val, "skip_duplicate_inodes="@, 0);
    lemma_other_key(k6, val, "optimization_mode="@, 0);
    lemma_other_key(k6, val, "min_file_size_mb="@, 0);
    lemma_other_key(k6, val, "scan_threads="@, 0);
    let x = strings(before.custom_excludes@);
    let y = strings(after.custom_excludes@);
    assert(x.len() == before.custom_excludes@.len());
    assert(y.len() == after.custom_excludes@.len());
    if trimmed(val).len() == 0 {
        lemma_same_view(after, before);
    } else {
        assert(y == x.push(trimmed(val)));
        assert(y.last() == after.custom_excludes@.last()@);
    }
    if 0 <= i < before.custom_excludes@.len() {
        assert(x[i] == before.custom_excludes@[i]@);
        assert(y[i] == after.custom_excludes@[i]@);
    }
}

/// A number that a line gives is what reading its text as a number gives; where that gives
/// nothing, the line changes nothing.
pub proof fn numbers_in_lines_are_read_as_numbers_are(
    a: &str,
    b: &str,
    before: Settings,
    after: Settings,
    val: Seq<char>,
    chars: &[char],
    n: Option<u64>,
)
    requires
        call_ensures(Settings::parse, (a,), before),
        call_ensures(Settings::parse, (b,), after),
        is_whole_lines(a@),
        chars@ == trimmed(val),
        call_ensures(parse_number, (chars,), n),
    ensures
        is_line("min_file_size_mb="@ + val) && b@ == a@ + ("min_file_size_mb="@ + val).push('\n')
            ==> {
            &&& n is Some ==> is_same(after, Settings { min_file_size_mb: n->0, ..before })
            &&& n is None ==> is_same(after, before)
        },
        is_line("scan_threads="@ + val) && b@ == a@ + ("scan_threads="@ + val).push('\n') ==> {
            &&& n is Some ==> is_same(after, Settings { scan_threads: n->0, ..before })
            &&& n is None ==> is_same(after, before)
        },
{
    lemma_keys();
    let k1 = "ignore_cloud_storage="@;
    let k2 = "skip_duplicate_inodes="@;
    let k3 = "optimization_mode="@;
    let k4 = "min_file_size_mb="@;
    let k5 = "scan_threads="@;
    if is_line(k4 + val) && b@ == a@ + (k4 + val).push('\n') {
        lemma_one_more_line(a@, k4 + val);
        lemma_prefixes(k4, val);
        lemma_other_key(k4, val, k1, 0);
        lemma_other_key(k4, val, k2, 0);
        lemma_other_key(k4, val, k3, 0);
        if n is Some {
            lemma_same_view(after, Settings { min_file_size_mb: n->0, ..before });
        } else {
            lemma_same_view(after, before);
        }
    }
    if is_line(k5 + val) && b@ == a@ + (k5 + val).push('\n') {
        lemma_one_more_line(a@, k5 + val);
        lemma_prefixes(k5, val);
        lemma_other_key(k5, val, k1, 0);
        lemma_other_key(k5, val, k2, 1);
        lemma_other_key(k5, val, k3, 0);
        lemma_other_key(k5, val, k4, 0);
        if n is Some {
            lemma_same_view(after, Settings { scan_threads: n->0, ..before });
        } else {
            lemma_same_view(after, before);
        }
    }
}

/// A floor that is typed is read in the same way, and is at least 1.
pub proof fn a_typed_floor_is_read_as_a_number_is(
    s: &mut Settings,
    typed: &str,
    chars: &[char],
    n: Option<u64>,
)
    requires
        call_ensures(Settings::enter_min_file_size, (s, typed), ()),
        chars@ == trimmed(typed@),
        call_ensures(parse_number, (chars,), n),
    ensures
        n is None ==> is_same(*final(s), *old(s)),
        n is Some && n->0 == 0 ==> is_same(
            *final(s),
            Settings { min_file_size_mb: 1, ..*old(s) },
        ),
        n is Some && n->0 > 0 ==> is_same(
            *final(s),
            Settings { min_file_size_mb: n->0, ..*old(s) },
        ),
{
    if n is None {
        lemma_same_view(*final(s), *old(s));
    } else if n->0 == 0 {
        lemma_same_view(*final(s), Settings { min_file_size_mb: 1, ..*old(s) });
    } else {
        lemma_same_view(*final(s), Settings { min_file_size_mb: n->0, ..*old(s) });
    }
}

/// So is a number of threads, which is at most 256.
pub proof fn typed_threads_are_read_as_a_number_is(
    s: &mut Settings,
    typed: &str,
    chars: &[char],
    n: Option<u64>,
)
    requires
        call_ensures(Settings::enter_scan_threads, (s, typed), ()),
        chars@ == trimmed(typed@),
        call_ensures(parse_number, (chars,), n),
    ensures
        n is None ==> is_same(*final(s), *old(s)),
        n is Some && n->0 > 256 ==> is_same(
            *final(s),
            Settings { scan_threads: 256, ..*old(s) },
        ),
        n is Some && n->0 <= 256 ==> is_same(
            *final(s),
            Settings { scan_threads: n->0, ..*old(s) },
        ),
{
    if n is None {
        lemma_same_view(*final(s), *old(s));
    } else if n->0 > 256 {
        lemma_same_view(*final(s), Settings { scan_threads: 256, ..*old(s) });
    } else {
        lemma_same_view(*final(s), Settings { scan_threads: n->0, ..*old(s) });
    }
}

/// A line that begins with none of the keys changes nothing.
pub proof fn other_lines_change_nothing(
    a: &str,
    b: &str,
    before: Settings,
    after: Settings,
    line: Seq<char>,
)
    requires
        call_ensures(Settings::parse, (a,), before),
        call_ensures(Settings::parse, (b,), after),
        is_whole_lines(a@),
        is_line(line),
        b@ == a@ + line.push('\n'),
        !"ignore_cloud_storage="@.is_prefix_of(line),
        !"skip_duplicate_inodes="@.is_prefix_of(line),
        !"optimization_mode="@.is_prefix_of(line),
        !"min_file_size_mb="@.is_prefix_of(line),
        !"scan_threads="@.is_prefix_of(line),
        !"exclude="@.is_prefix_of(line),
        !"show_info_card="@.is_prefix_of(line),
    ensures
        is_same(after, before),
{
    lemma_one_more_line(a@, line);
    lemma_same_view(after, before);
}

/// Only the lines of a text matter, not how they end.
pub proof fn texts_with_the_same_lines_hold_the_same_settings(
    a: &str,
    b: &str,
    x: Settings,
    y: Settings,
    line: Seq<char>,
)
    requires
        call_ensures(Settings::parse, (a,), x),
        call_ensures(Settings::parse, (b,), y),
    ensures
        lines(a@) == lines(b@) ==> is_same(x, y),
        !line.contains('\n') && is_line(line) && a@ == line && b@ == line.push('\n') ==> is_same(
            x,
            y,
        ),
        !line.contains('\n') && is_line(line) && a@ == line.push('\r').push('\n') && b@
            == line.push('\n') ==> is_same(x, y),
{
    if lines(a@) == lines(b@) {
        lemma_same_view(x, y);
    }
    if is_line(line) {
        a_text_is_read_line_by_line(line, Seq::empty());
        let r = line.push('\r');
        a_text_is_read_line_by_line(r, Seq::empty());
        assert(r.drop_last() =~= line);
        if r.contains('\n') {
            let i = choose|i: int| 0 <= i < r.len() && r[i] == '\n';
            assert(line.contains(line[i]));
        }
        if a@ == line && b@ == line.push('\n') {
            lemma_same_view(x, y);
        }
        if a@ == r.push('\n') && b@ == line.push('\n') {
            lemma_same_view(x, y);
        }
    }
}

/// A line with a key and what is said of it.
pub open spec fn line_with(key: Seq<char>, val: Seq<char>) -> Seq<char> {
    (key + val).push('\n')
}

/// How a switch is written.
pub open spec fn is_switch_text(t: Seq<char>, on: bool) -> bool {
    t == (if on {
        "true"@
    } else {
        "false"@
    })
}

/// The switches and numbers are written a line for each.
pub proof fn settings_are_written_a_line_for_each(s: Settings, r: String)
    requires
        call_ensures(Settings::serialize, (&s,), r),
        s.custom_excludes@.len() == 0,
    ensures
        exists|
            a: Seq<char>,
            b: Seq<char>,
            c: Seq<char>,
            m: Seq<char>,
            n: Seq<char>,
            d: Seq<char>,
        |
            r@ == #[trigger] (line_with("ignore_cloud_storage="@, a) + line_with(
                "skip_duplicate_inodes="@,
                b,
            ) + line_with("optimization_mode="@, c) + line_with("min_file_size_mb="@, m)
                + line_with("scan_threads="@, n) + line_with("show_info_card="@, d))
                && is_switch_text(a, s.ignore_cloud_storage) && is_switch_text(
                b,
                s.skip_duplicate_inodes,
            ) && is_switch_text(c, s.optimization_mode) && is_switch_text(d, s.show_info_card)
                && is_field(m, 1, s.min_file_size_mb as int) && is_field(
                n,
                1,
                s.scan_threads as int,
            ),
{
    let a = bool_text(s.ignore_cloud_storage);
    let b = bool_text(s.skip_duplicate_inodes);
    let c = bool_text(s.optimization_mode);
    let d = bool_text(s.show_info_card);
    let m = decimal(s.min_file_size_mb as nat);
    let n = decimal(s.scan_threads as nat);
    lemma_decimal(s.min_file_size_mb as nat);
    lemma_decimal(s.scan_threads as nat);
    assert(s@.custom_excludes =~= Seq::empty());
    assert(exclude_entries(s@.custom_excludes) =~= Seq::empty());
    assert(r@ =~= line_with("ignore_cloud_storage="@, a) + line_with("skip_duplicate_inodes="@, b)
        + line_with("optimization_mode="@, c) + line_with("min_file_size_mb="@, m) + line_with(
        "scan_threads="@,
        n,
    ) + line_with("show_info_card="@, d));
}

proof fn lemma_one_more_exclude(paths: Seq<Seq<char>>, p: Seq<char>)
    ensures
        exclude_entries(paths.push(p)) == exclude_entries(paths) + ("exclude="@ + p).push('\n'),
    decreases paths.len(),
{
    if paths.len() == 0 {
        assert(paths.push(p).drop_first() =~= Seq::empty());
        assert(exclude_entries(paths.push(p).drop_first()) =~= Seq::empty());
        assert(exclude_entries(paths.push(p)) =~= exclude_entries(paths) + ("exclude="@ + p).push(
            '\n',
        ));
    } else {
        assert(paths.push(p).drop_first() =~= paths.drop_first().push(p));
        lemma_one_more_exclude(paths.drop_first(), p);
        assert(exclude_entries(paths.push(p)) =~= exclude_entries(paths) + ("exclude="@ + p).push(
            '\n',
        ));
    }
}

/// One more path that is left out is one more line at the end, whatever the path is.
pub proof fn a_path_that_is_left_out_is_one_more_line(
    s: Settings,
    t: Settings,
    x: String,
    y: String,
)
    requires
        call_ensures(Settings::serialize, (&s,), x),
        call_ensures(Settings::serialize, (&t,), y),
        differs_in_excludes_alone(s, t),
        t.custom_excludes@.len() == s.custom_excludes@.len() + 1,
        is_same_list(t.custom_excludes@.drop_last(), s.custom_excludes@),
    ensures
        y@ == x@ + ("exclude="@ + t.custom_excludes@.last()@).push('\n'),
{
    let p = t.custom_excludes@.last()@;
    assert(t@.custom_excludes =~= s@.custom_excludes.push(p)) by {
        assert forall|i: int| 0 <= i < s.custom_excludes@.len() implies t@.custom_excludes[i]
            == s@.custom_excludes[i] by {
            assert(t.custom_excludes@.drop_last()[i]@ == s.custom_excludes@[i]@);
        }
    }
    lemma_one_more_exclude(s@.custom_excludes, p);
    assert(y@ =~= x@ + ("exclude="@ + p).push('\n'));
}

/// The size floor is so many MiB where it is switched on, else there is none.
pub proof fn the_floor_is_in_mebibytes(s: Settings, r: u64)
    requires
        call_ensures(Settings::min_file_size_bytes, (&s,), r),
    ensures
        !s.optimization_mode ==> r == 0,
        s.optimization_mode ==> r == s.min_file_size_mb * 1_048_576,
{
}

/// The folders that are left out are those of the cloud services under the home folder, if
/// they are switched off and there is one, and then each that the user named.
pub proof fn the_folders_that_are_left_out(
    s: Settings,
    home: Option<&str>,
    r: Vec<String>,
    i: int,
) -> (cloud: int)
    requires
        call_ensures(Settings::excluded_paths, (&s, home), r),
    ensures
        cloud == (if s.ignore_cloud_storage && home is Some {
            5int
        } else {
            0
        }),
        r@.len() == cloud + s.custom_excludes@.len(),
        0 <= i < s.custom_excludes@.len() ==> r@[cloud + i]@ == s.custom_excludes@[i]@,
        cloud == 5 ==> {
            &&& r@[0]@ == joined(home->0@, "Library/CloudStorage"@)
            &&& r@[1]@ == joined(home->0@, "Library/Mobile Documents"@)
            &&& r@[2]@ == joined(home->0@, "Dropbox"@)
            &&& r@[3]@ == joined(home->0@, "OneDrive"@)
            &&& r@[4]@ == joined(home->0@, "Google Drive"@)
        },
{
    let cloud: int = if s.ignore_cloud_storage && home is Some {
        5
    } else {
        0
    };
    let all = strings(r@);
    assert(all.len() == r@.len());
    assert(s@.custom_excludes.len() == s.custom_excludes@.len());
    if 0 <= i < s.custom_excludes@.len() {
        assert(all[cloud + i] == r@[cloud + i]@);
        assert(s@.custom_excludes[i] == s.custom_excludes@[i]@);
    }
    if cloud == 5 {
        assert(all[0] == r@[0]@ && all[1] == r@[1]@ && all[2] == r@[2]@ && all[3] == r@[3]@
            && all[4] == r@[4]@);
    }
    cloud
}

/// Every folder that the user named is left out, however its path is written, and wherever
/// it stands in the list.
pub proof fn every_folder_that_was_named_is_left_out(
    s: Settings,
    home: Option<&str>,
    r: Vec<String>,
    excluded: &[String],
    path: &str,
    out: bool,
    i: int,
)
    requires
        call_ensures(Settings::excluded_paths, (&s, home), r),
        excluded@ == r@,
        call_ensures(is_excluded, (path, excluded), out),
        0 <= i < s.custom_excludes@.len(),
        leads_alike(path@, s.custom_excludes@[i]@),
    ensures
        out,
{
    let cloud = the_folders_that_are_left_out(s, home, r, i);
    crate::laws::paths::every_path_of_the_list_is_left_out(path, excluded, out, cloud + i);
}

/// So is every folder of a cloud service, if they are switched off.
pub proof fn every_cloud_folder_is_left_out(
    s: Settings,
    home: &str,
    r: Vec<String>,
    excluded: &[String],
    path: &str,
    out: bool,
)
    requires
        call_ensures(Settings::excluded_paths, (&s, Some(home)), r),
        excluded@ == r@,
        call_ensures(is_excluded, (path, excluded), out),
        s.ignore_cloud_storage,
        leads_alike(path@, joined(home@, "Library/CloudStorage"@)) || leads_alike(
            path@,
            joined(home@, "Library/Mobile Documents"@),
        ) || leads_alike(path@, joined(home@, "Dropbox"@)) || leads_alike(
            path@,
            joined(home@, "OneDrive"@),
        ) || leads_alike(path@, joined(home@, "Google Drive"@)),
    ensures
        out,
{
    let _ = the_folders_that_are_left_out(s, Some(home), r, 0);
    crate::laws::paths::every_path_of_the_list_is_left_out(path, excluded, out, 0);
    crate::laws::paths::every_path_of_the_list_is_left_out(path, excluded, out, 1);
    crate::laws::paths::every_path_of_the_list_is_left_out(path, excluded, out, 2);
    crate::laws::paths::every_path_of_the_list_is_left_out(path, excluded, out, 3);
    crate::laws::paths::every_path_of_the_list_is_left_out(path, excluded, out, 4);
}

/// Adding a path leaves it out from then on. It is added once, after the others, which stay.
pub proof fn an_added_path_is_in_the_list_once(s: &mut Settings, path: String, i: int)
    requires
        call_ensures(Settings::add_exclude, (s, path), ()),
    ensures
        differs_in_excludes_alone(*final(s), *old(s)),
        exists|k: int|
            0 <= k < final(s).custom_excludes@.len() && (#[trigger] final(
                s).custom_excludes@[k])@ == path@,
        0 <= i < old(s).custom_excludes@.len() ==> final(s).custom_excludes@[i]@ == old(
            s).custom_excludes@[i]@,
        (exists|k: int|
            0 <= k < old(s).custom_excludes@.len() && (#[trigger] old(
                s).custom_excludes@[k])@ == path@) ==> final(s).custom_excludes@.len() == old(
            s).custom_excludes@.len(),
        !(exists|k: int|
            0 <= k < old(s).custom_excludes@.len() && (#[trigger] old(
                s).custom_excludes@[k])@ == path@) ==> final(s).custom_excludes@.len() == old(
            s).custom_excludes@.len() + 1,
{
    let x = strings(old(s).custom_excludes@);
    let y = strings(final(s).custom_excludes@);
    assert(x.len() == old(s).custom_excludes@.len());
    assert(y.len() == final(s).custom_excludes@.len());
    if x.contains(path@) {
        let k = choose|k: int| 0 <= k < x.len() && x[k] == path@;
        assert(y[k] == final(s).custom_excludes@[k]@);
        assert(old(s).custom_excludes@[k]@ == path@);
    } else {
        let k = x.len() as int;
        assert(y[k] == final(s).custom_excludes@[k]@);
        if exists|k: int|
            0 <= k < old(s).custom_excludes@.len() && (#[trigger] old(s).custom_excludes@[k])@
                == path@ {
            let k = choose|k: int|
                0 <= k < old(s).custom_excludes@.len() && (#[trigger] old(
                    s).custom_excludes@[k])@ == path@;
            assert(x[k] == path@);
        }
    }
    if 0 <= i < old(s).custom_excludes@.len() {
        assert(x[i] == old(s).custom_excludes@[i]@);
        assert(y[i] == final(s).custom_excludes@[i]@);
    }
}

/// Removing a path takes that one from the list, and leaves the others in their order.
pub proof fn a_removed_path_is_taken_from_the_list(s: &mut Settings, at: usize, i: int)
    requires
        call_ensures(Settings::remove_exclude, (s, at), ()),
        at < old(s).custom_excludes@.len(),
    ensures
        differs_in_excludes_alone(*final(s), *old(s)),
        final(s).custom_excludes@.len() == old(s).custom_excludes@.len() - 1,
        0 <= i < at ==> final(s).custom_excludes@[i]@ == old(s).custom_excludes@[i]@,
        at <= i < old(s).custom_excludes@.len() - 1 ==> final(s).custom_excludes@[i]@ == old(
            s).custom_excludes@[i + 1]@,
{
    let x = strings(old(s).custom_excludes@);
    let y = strings(final(s).custom_excludes@);
    assert(x.len() == old(s).custom_excludes@.len());
    assert(y.len() == final(s).custom_excludes@.len());
    assert(y == x.remove(at as int));
    if 0 <= i < at {
        assert(x[i] == old(s).custom_excludes@[i]@ && y[i] == final(s).custom_excludes@[i]@);
    }
    if at <= i < old(s).custom_excludes@.len() - 1 {
        assert(x[i + 1] == old(s).custom_excludes@[i + 1]@);
        assert(y[i] == final(s).custom_excludes@[i]@);
    }
}

/// What is typed as the floor is taken as a number, at least 1. What is no number changes
/// nothing.
pub proof fn a_typed_floor_is_at_least_one(s: &mut Settings, typed: &str)
    requires
        call_ensures(Settings::enter_min_file_size, (s, typed), ()),
    ensures
        is_numeral(trimmed(typed@)) && 1 <= numeral(trimmed(typed@)) <= u64::MAX ==> is_same(
            *final(s),
            Settings { min_file_size_mb: numeral(trimmed(typed@)) as u64, ..*old(s) },
        ),
        is_numeral(trimmed(typed@)) && numeral(trimmed(typed@)) == 0 ==> is_same(
            *final(s),
            Settings { min_file_size_mb: 1, ..*old(s) },
        ),
        !is_numeral(trimmed(typed@)) && !(trimmed(typed@).len() > 0 && trimmed(typed@)[0] == '+')
            ==> is_same(*final(s), *old(s)),
{
    let t = trimmed(typed@);
    lemma_number(t);
    if is_numeral(t) {
        assert('0' <= t[0] <= '9');
        if numeral(t) == 0 {
            lemma_same_view(*final(s), Settings { min_file_size_mb: 1, ..*old(s) });
        } else if numeral(t) <= u64::MAX {
            lemma_same_view(
                *final(s),
                Settings { min_file_size_mb: numeral(t) as u64, ..*old(s) },
            );
        }
    } else if !(t.len() > 0 && t[0] == '+') {
        lemma_same_view(*final(s), *old(s));
    }
}

/// What is typed as the number of threads is taken as a number, at most 256.
pub proof fn typed_threads_are_at_most_256(s: &mut Settings, typed: &str)
    requires
        call_ensures(Settings::enter_scan_threads, (s, typed), ()),
    ensures
        is_numeral(trimmed(typed@)) && numeral(trimmed(typed@)) <= 256 ==> is_same(
            *final(s),
            Settings { scan_threads: numeral(trimmed(typed@)) as u64, ..*old(s) },
        ),
        is_numeral(trimmed(typed@)) && 256 < numeral(trimmed(typed@)) <= u64::MAX ==> is_same(
            *final(s),
            Settings { scan_threads: 256, ..*old(s) },
        ),
        !is_numeral(trimmed(typed@)) && !(trimmed(typed@).len() > 0 && trimmed(typed@)[0] == '+')
            ==> is_same(*final(s), *old(s)),
{
    let t = trimmed(typed@);
    lemma_number(t);
    if is_numeral(t) {
        assert('0' <= t[0] <= '9');
        if numeral(t) <= 256 {
            lemma_same_view(
                *final(s),
                Settings { scan_threads: numeral(t) as u64, ..*old(s) },
            );
        } else if numeral(t) <= u64::MAX {
            lemma_same_view(*final(s), Settings { scan_threads: 256, ..*old(s) });
        }
    } else if !(t.len() > 0 && t[0] == '+') {
        lemma_same_view(*final(s), *old(s));
    }
}

/// The settings are kept under the home folder, three names down.
pub proof fn the_settings_are_kept_under_the_home_folder(home: &str, r: String)
    requires
        call_ensures(settings_path, (home,), r),
    ensures
        path_parts(r@).names == path_parts(home@).names.push(".config"@).push("macdirstat"@).push(
            "settings.txt"@,
        ),
        path_parts(r@).absolute == path_parts(home@).absolute,
{
    reveal_strlit(".config");
    reveal_strlit("macdirstat");
    reveal_strlit("settings.txt");
    let a = joined(home@, ".config"@);
    let b = joined(a, "macdirstat"@);
    assert(".config"@.len() == 7 && "macdirstat"@.len() == 10 && "settings.txt"@.len() == 12);
    assert(is_one_name(".config"@) && is_one_name("macdirstat"@) && is_one_name("settings.txt"@));
    joined_names(home@, ".config"@);
    joined_names(a, "macdirstat"@);
    joined_names(b, "settings.txt"@);
}

} // verus!
