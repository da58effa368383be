//! The name of the icon theme in use, from what the desktop's settings
//! service printed or from the user's toolkit settings file.
use vstd::prelude::*;
use crate::command::is_space;
use crate::command::is_space_char;
use crate::text::chars_of;
use crate::text::string_of;
use crate::text::utf8_lossy;
use crate::text::utf8_lossy_of;

verus! {

/// The characters that a trim removes: whitespace, or single quotes.
pub open spec fn trimmed_char(c: char, quotes: bool) -> bool {
    if quotes {
        c == '\''
    } else {
        is_space(c)
    }
}

/// The number of leading characters that a trim removes.
pub open spec fn lead_len(s: Seq<char>, quotes: bool) -> nat
    decreases s.len(),
{
    if s.len() > 0 && trimmed_char(s[0], quotes) {
        1 + lead_len(s.drop_first(), quotes)
    } else {
        0
    }
}

/// The number of trailing characters that a trim removes.
pub open spec fn trail_len(s: Seq<char>, quotes: bool) -> nat
    decreases s.len(),
{
    if s.len() > 0 && trimmed_char(s.last(), quotes) {
        1 + trail_len(s.drop_last(), quotes)
    } else {
        0
    }
}

/// `s` without leading and trailing whitespace (or single quotes).
pub open spec fn trim_by(s: Seq<char>, quotes: bool) -> Seq<char> {
    let t = s.subrange(lead_len(s, quotes) as int, s.len() as int);
    t.subrange(0, t.len() - trail_len(t, quotes))
}

proof fn lemma_lead_len(s: Seq<char>, quotes: bool)
    ensures
        lead_len(s, quotes) <= s.len(),
    decreases s.len(),
{
    if s.len() > 0 && trimmed_char(s[0], quotes) {
        lemma_lead_len(s.drop_first(), quotes);
    }
}

proof fn lemma_trail_len(s: Seq<char>, quotes: bool)
    ensures
        trail_len(s, quotes) <= s.len(),
    decreases s.len(),
{
    if s.len() > 0 && trimmed_char(s.last(), quotes) {
        lemma_trail_len(s.drop_last(), quotes);
    }
}

fn is_trimmed(c: char, quotes: bool) -> (r: bool)
    ensures
        r == trimmed_char(c, quotes),
{
    if quotes {
        c == '\''
    } else {
        is_space_char(c)
    }
}

/// `s[from..to]` as a new vector.
fn copy_range(s: &Vec<char>, from: usize, to: usize) -> (r: Vec<char>)
    requires
        from <= to <= s@.len(),
    ensures
        r@ == s@.subrange(from as int, to as int),
{
    let mut r: Vec<char> = Vec::new();
    let mut i: usize = from;
    while i < to
        invariant
            from <= i <= to,
            to <= s@.len(),
            r@ == s@.subrange(from as int, i as int),
        decreases to - i,
    {
        r.push(s[i]);
        i = i + 1;
        assert(r@ =~= s@.subrange(from as int, i as int));
    }
    r
}

/// `s` trimmed (see `trim_by`).
pub fn trim_chars(s: &Vec<char>, quotes: bool) -> (r: Vec<char>)
    ensures
        r@ == trim_by(s@, quotes),
{
    let n = s.len();
    let mut i: usize = 0;
    assert(s@.subrange(0, n as int) =~= s@);
    while i < n && is_trimmed(s[i], quotes)
        invariant
            n == s@.len(),
            i <= n,
            lead_len(s@, quotes) == i + lead_len(s@.subrange(i as int, n as int), quotes),
        decreases n - i,
    {
        assert(s@.subrange(i as int, n as int).drop_first() =~= s@.subrange(i + 1, n as int));
        i = i + 1;
    }
    let ghost t = s@.subrange(i as int, n as int);
    assert(lead_len(t, quotes) == 0);
    let mut j: usize = n;
    assert(t.subrange(0, (n - i) as int) =~= t);
    while j > i && is_trimmed(s[j - 1], quotes)
        invariant
            n == s@.len(),
            i <= j <= n,
            t == s@.subrange(i as int, n as int),
            trail_len(t, quotes) == (n - j) + trail_len(t.subrange(0, j - i), quotes),
        decreases j,
    {
        assert(t.subrange(0, j - i).drop_last() =~= t.subrange(0, j - i - 1));
        assert(t.subrange(0, j - i).last() == s@[j - 1]);
        j = j - 1;
    }
    proof {
        if j > i {
            assert(t.subrange(0, j - i).last() == s@[j - 1]);
        }
        assert(t.subrange(0, t.len() - trail_len(t, quotes)) =~= s@.subrange(i as int, j as int));
    }
    copy_range(s, i, j)
}

/// The theme name in what the settings service printed: the text, trimmed
/// of whitespace, then of the single quotes around it.
pub open spec fn gsettings_theme(stdout: Seq<u8>) -> Seq<char> {
    trim_by(trim_by(utf8_lossy_of(stdout), false), true)
}

/// Reads the theme name from what the settings service printed.
pub fn theme_from_gsettings(stdout: &[u8]) -> (r: String)
    ensures
        r@ == gsettings_theme(stdout@),
{
    let text = utf8_lossy(stdout);
    let chars = chars_of(text.as_str());
    let trimmed = trim_chars(&chars, false);
    let unquoted = trim_chars(&trimmed, true);
    string_of(unquoted.as_slice())
}

/// The pieces of `s` between newlines, empty ones included.
pub open spec fn split_lines(s: Seq<char>) -> Seq<Seq<char>>
    decreases s.len(),
{
    if s.len() == 0 {
        seq![seq![]]
    } else {
        let prev = split_lines(s.drop_last());
        if s.last() == '\n' {
            prev.push(seq![])
        } else {
            prev.drop_last().push(prev.last().push(s.last()))
        }
    }
}

/// The key of the theme-name line of the toolkit settings file.
pub open spec fn theme_key() -> Seq<char> {
    "gtk-icon-theme-name="@
}

/// What one line of the settings file gives: where the line, trimmed,
/// starts with the key, the rest trimmed.
pub open spec fn line_theme(line: Seq<char>) -> Option<Seq<char>> {
    let t = trim_by(line, false);
    let k = theme_key();
    if t.len() >= k.len() && t.subrange(0, k.len() as int) == k {
        Some(trim_by(t.subrange(k.len() as int, t.len() as int), false))
    } else {
        None
    }
}

/// What the first of `lines` that names a theme gives.
pub open spec fn first_line_theme(lines: Seq<Seq<char>>) -> Option<Seq<char>>
    decreases lines.len(),
{
    if lines.len() == 0 {
        None
    } else if line_theme(lines[0]) is Some {
        line_theme(lines[0])
    } else {
        first_line_theme(lines.drop_first())
    }
}

/// The theme that one line gives (see `line_theme`).
fn theme_of_line(line: &Vec<char>, key: &Vec<char>) -> (r: Option<Vec<char>>)
    requires
        key@ == theme_key(),
    ensures
        r is Some <==> line_theme(line@) is Some,
        r matches Some(v) ==> v@ == line_theme(line@)->0,
{
    let t = trim_chars(line, false);
    if t.len() < key.len() {
        return None;
    }
    let mut i: usize = 0;
    while i < key.len()
        invariant
            t@ == trim_by(line@, false),
            key@ == theme_key(),
            i <= key@.len(),
            key@.len() <= t@.len(),
            forall|j: int| 0 <= j < i ==> t@[j] == key@[j],
        decreases key@.len() - i,
    {
        if t[i] != key[i] {
            assert(t@.subrange(0, key@.len() as int)[i as int] != key@[i as int]);
            return None;
        }
        i = i + 1;
    }
    assert(t@.subrange(0, key@.len() as int) =~= key@);
    let rest = copy_range(&t, key.len(), t.len());
    Some(trim_chars(&rest, false))
}

/// `s` cut at its newlines (see `split_lines`).
fn lines_of(s: &Vec<char>) -> (r: Vec<Vec<char>>)
    ensures
        r@.map_values(|l: Vec<char>| l@) == split_lines(s@),
{
    let n = s.len();
    let mut done: Vec<Vec<char>> = Vec::new();
    let mut cur: Vec<char> = Vec::new();
    let mut i: usize = 0;
    assert(s@.subrange(0, 0) =~= Seq::<char>::empty());
    assert(done@.map_values(|l: Vec<char>| l@).push(cur@) =~= seq![seq![]]);
    while i < n
        invariant
            n == s@.len(),
            i <= n,
            split_lines(s@.subrange(0, i as int)) == done@.map_values(|l: Vec<char>| l@).push(cur@),
        decreases n - i,
    {
        let ghost next = s@.subrange(0, i + 1);
        assert(next.drop_last() =~= s@.subrange(0, i as int));
        assert(next.last() == s@[i as int]);
        let ghost before = done@.map_values(|l: Vec<char>| l@);
        let c = s[i];
        if c == '\n' {
            let finished = cur;
            cur = Vec::new();
            done.push(finished);
            assert(done@.map_values(|l: Vec<char>| l@).push(cur@) =~= before.push(finished@).push(
                seq![],
            ));
        } else {
            let ghost old_cur = cur@;
            cur.push(c);
            assert(before.push(old_cur).drop_last() =~= before);
            assert(done@.map_values(|l: Vec<char>| l@).push(cur@) =~= before.push(old_cur.push(c)));
        }
        i = i + 1;
    }
    assert(s@.subrange(0, n as int) =~= s@);
    let ghost before = done@.map_values(|l: Vec<char>| l@);
    done.push(cur);
    assert(done@.map_values(|l: Vec<char>| l@) =~= before.push(cur@));
    done
}

/// Reads the theme name from the toolkit settings file: the value of the
/// first line whose trimmed text starts with `gtk-icon-theme-name=`.
pub fn theme_from_settings(content: &str) -> (r: Option<String>)
    ensures
        r is Some <==> first_line_theme(split_lines(content@)) is Some,
        r matches Some(v) ==> v@ == first_line_theme(split_lines(content@))->0,
{
    let s = chars_of(content);
    let key = chars_of("gtk-icon-theme-name=");
    let lines = lines_of(&s);
    let ghost ls = lines@.map_values(|l: Vec<char>| l@);
    let mut i: usize = 0;
    assert(ls.subrange(0, ls.len() as int) =~= ls);
    while i < lines.len()
        invariant
            ls == lines@.map_values(|l: Vec<char>| l@),
            ls == split_lines(content@),
            key@ == theme_key(),
            i <= lines@.len(),
            first_line_theme(ls) == first_line_theme(ls.subrange(i as int, ls.len() as int)),
        decreases lines@.len() - i,
    {
        let ghost rest = ls.subrange(i as int, ls.len() as int);
        assert(rest[0] == lines@[i as int]@);
        match theme_of_line(&lines[i], &key) {
            Some(v) => {
                return Some(string_of(v.as_slice()));
            },
            None => {},
        }
        assert(rest.drop_first() =~= ls.subrange(i + 1, ls.len() as int));
        i = i + 1;
    }
    None
}

/// The theme in use: the one that the settings service printed where it ran
/// and succeeded, else the one that the settings file names, else the
/// universal fallback theme.
pub fn resolve_theme(gsettings_output: Option<Vec<u8>>, settings_file: Option<String>) -> (r: String)
    ensures
        gsettings_output matches Some(out) ==> r@ == gsettings_theme(out@),
        gsettings_output is None && settings_file is Some && first_line_theme(
            split_lines(settings_file->0@),
        ) is Some ==> r@ == first_line_theme(split_lines(settings_file->0@))->0,
        gsettings_output is None && (settings_file is None || first_line_theme(
            split_lines(settings_file->0@),
        ) is None) ==> r@ == "hicolor"@,
{
    match gsettings_output {
        Some(out) => theme_from_gsettings(out.as_slice()),
        None => {
            let from_file = match settings_file {
                Some(c) => theme_from_settings(c.as_str()),
                None => None,
            };
            match from_file {
                Some(t) => t,
                None => "hicolor".to_owned(),
            }
        },
    }
}

} // verus!
