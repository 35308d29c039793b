//! The dialog that asks before something is deleted.

use vstd::prelude::*;

use crate::text::{chars_of, contains, contains_text, push_text};

verus! {

/// One character inside a double-quoted AppleScript string.
pub open spec fn escaped_char(c: char) -> Seq<char> {
    if c == '\\' || c == '"' {
        seq!['\\', c]
    } else {
        seq![c]
    }
}

/// A text inside a double-quoted AppleScript string: a backslash stands before
/// each backslash and each quote.
pub open spec fn escaped(s: Seq<char>) -> Seq<char>
    decreases s.len(),
{
    if s.len() == 0 {
        Seq::empty()
    } else {
        escaped(s.drop_last()) + escaped_char(s.last())
    }
}

/// What a double-quoted AppleScript string says: a backslash stands for the
/// character after it. `None` if the string ends early, at a quote or within an
/// escape.
pub open spec fn unescaped(t: Seq<char>) -> Option<Seq<char>>
    decreases t.len(),
{
    if t.len() == 0 {
        Some(Seq::empty())
    } else if t[0] == '"' {
        None
    } else if t[0] == '\\' {
        if t.len() < 2 {
            None
        } else {
            match unescaped(t.skip(2)) {
                Some(rest) => Some(seq![t[1]] + rest),
                None => None,
            }
        }
    } else {
        match unescaped(t.skip(1)) {
            Some(rest) => Some(seq![t[0]] + rest),
            None => None,
        }
    }
}

/// An escaped text stays within its quotes and says what it was.
pub proof fn escaped_text_reads_back(s: Seq<char>)
    ensures
        unescaped(escaped(s)) == Some(s),
{
    lemma_escaped_rest(s, Seq::empty());
    assert(escaped(s) + Seq::<char>::empty() =~= escaped(s));
    assert(unescaped(Seq::<char>::empty()) == Some(Seq::<char>::empty()));
    assert(s + Seq::<char>::empty() =~= s);
}

proof fn lemma_escaped_rest(s: Seq<char>, t: Seq<char>)
    ensures
        unescaped(escaped(s) + t) == (match unescaped(t) {
            Some(rest) => Some(s + rest),
            None => None,
        }),
    decreases s.len(),
{
    if s.len() == 0 {
        assert(escaped(s) + t =~= t);
        if unescaped(t) is Some {
            assert(s + unescaped(t)->0 =~= unescaped(t)->0);
        }
    } else {
        let c = s.last();
        let u = escaped_char(c) + t;
        assert(escaped(s) + t =~= escaped(s.drop_last()) + u);
        lemma_escaped_rest(s.drop_last(), u);
        if c == '\\' || c == '"' {
            assert(u.skip(2) =~= t);
        } else {
            assert(u.skip(1) =~= t);
        }
        if unescaped(t) is Some {
            assert(s.drop_last() + (seq![c] + unescaped(t)->0) =~= s + unescaped(t)->0);
        }
    }
}

/// Escape a string for use inside AppleScript double-quoted strings.
pub fn applescript_escape(s: &str) -> (r: String)
    ensures
        r@ == escaped(s@),
{
    let v = chars_of(s);
    let mut r = String::new();
    assert(v@.take(0) =~= Seq::empty());
    for i in 0..v.len()
        invariant
            v@ == s@,
            r@ == escaped(v@.take(i as int)),
    {
        let ghost before = r@;
        let c = v[i];
        proof {
            assert(v@.take(i + 1).drop_last() =~= v@.take(i as int));
            assert(v@.take(i + 1).last() == c);
        }
        if c == '\\' || c == '"' {
            r.push('\\');
        }
        r.push(c);
        assert(r@ =~= before + escaped_char(c));
    }
    assert(v@.take(v@.len() as int) =~= v@);
    r
}

/// What the dialog says: the name, the size and the path of what is to be
/// deleted, and for a directory a warning.
pub open spec fn message(
    name: Seq<char>,
    size: Seq<char>,
    path: Seq<char>,
    is_dir: bool,
) -> Seq<char> {
    escaped(name) + " ("@ + size + ")\n"@ + escaped(path) + if is_dir {
        "\n\nThis will permanently delete the directory and all its contents."@
    } else {
        Seq::empty()
    }
}

/// The AppleScript that shows the dialog.
pub open spec fn dialog(
    name: Seq<char>,
    size: Seq<char>,
    path: Seq<char>,
    is_dir: bool,
) -> Seq<char> {
    "display alert \"Delete this "@ + if is_dir {
        "directory"@
    } else {
        "file"@
    } + "?\" message \""@ + message(name, size, path, is_dir)
        + "\" as critical buttons {\"Cancel\", \"Delete\"} default button \"Cancel\""@
}

/// The AppleScript that asks whether to delete something.
pub fn delete_script(name: &str, size: &str, path: &str, is_dir: bool) -> (r: String)
    ensures
        r@ == dialog(name@, size@, path@, is_dir),
{
    let mut m = applescript_escape(name);
    push_text(&mut m, " (");
    push_text(&mut m, size);
    push_text(&mut m, ")\n");
    push_text(&mut m, applescript_escape(path).as_str());
    if is_dir {
        push_text(
            &mut m,
            "\n\nThis will permanently delete the directory and all its contents.",
        );
    }
    assert(m@ =~= message(name@, size@, path@, is_dir));
    let mut s = "display alert \"Delete this ".to_owned();
    if is_dir {
        push_text(&mut s, "directory");
    } else {
        push_text(&mut s, "file");
    }
    push_text(&mut s, "?\" message \"");
    push_text(&mut s, m.as_str());
    push_text(
        &mut s,
        "\" as critical buttons {\"Cancel\", \"Delete\"} default button \"Cancel\"",
    );
    s
}

/// Whether the user chose to delete, by what the dialog printed.
pub fn confirmed(output: &str) -> (r: bool)
    ensures
        r == contains_text(output@, "button returned:Delete"@),
{
    let hay = chars_of(output);
    let needle = chars_of("button returned:Delete");
    contains(hay.as_slice(), needle.as_slice())
}

} // verus!
