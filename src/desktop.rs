//! Application descriptors: reading them, the list of applications that they
//! describe, and the icon index built from them.
use vstd::prelude::*;
use crate::command::clean_command;
use crate::command::clean_exec_command;
use crate::icons::find_in_theme;
use crate::icons::IconIndex;
use crate::text::chars_equal;
use crate::text::chars_of;
use crate::text::lower_of;
use crate::text::lowercase;
use crate::text::string_of;
use std::path::PathBuf;

verus! {

/// Whether the descriptor parser accepts these bytes.
pub uninterp spec fn entry_parses(bytes: Seq<u8>) -> bool;

/// The values that the descriptor parser finds for `key` in section
/// `section` of these bytes, in file order; none where either is absent.
pub uninterp spec fn entry_values(bytes: Seq<u8>, section: Seq<char>, key: Seq<char>) -> Seq<Seq<char>>;

/// Relies on `freedesktop_entry_parser::Entry::parse`, which succeeds or
/// fails on the bytes alone, and on `Entry::get`, which gives the values of a
/// key in a section in file order.
#[verifier::external_body]
fn entry_attrs(bytes: &[u8], section: &str, keys: &Vec<String>) -> (r: Option<Vec<Vec<String>>>)
    ensures
        r is Some <==> entry_parses(bytes@),
        r matches Some(v) ==> v@.len() == keys@.len() && forall|i: int|
            0 <= i < keys@.len() ==> (#[trigger] v@[i])@.map_values(|s: String| s@)
                == entry_values(bytes@, section@, keys@[i]@),
{
    let entry = freedesktop_entry_parser::Entry::parse(bytes).ok()?;
    Some(keys.iter().map(|k| entry.get(section, k).map(|v| v.to_vec()).unwrap_or_default()).collect())
}

/// The characters of an optional string.
pub open spec fn opt_chars(o: Option<String>) -> Option<Seq<char>> {
    match o {
        Some(s) => Some(s@),
        None => None,
    }
}

/// The value of a key of the `Desktop Entry` section: a later line for the
/// same key overrides an earlier one.
pub open spec fn entry_attr(bytes: Seq<u8>, key: Seq<char>) -> Option<Seq<char>> {
    let vals = entry_values(bytes, "Desktop Entry"@, key);
    if vals.len() == 0 {
        None
    } else {
        Some(vals.last())
    }
}

/// The keys of an application descriptor that are read.
#[derive(Debug, Clone)]
pub struct DesktopEntry {
    pub name: Option<String>,
    pub command: Option<String>,
    pub icon: Option<String>,
    pub categories: Option<String>,
    pub no_display: Option<String>,
    pub hidden: Option<String>,
    pub kind: Option<String>,
    pub wm_class: Option<String>,
}

/// `e` holds what the descriptor `bytes` gives for each key.
pub open spec fn entry_of(e: DesktopEntry, bytes: Seq<u8>) -> bool {
    &&& opt_chars(e.name) == entry_attr(bytes, "Name"@)
    &&& opt_chars(e.command) == entry_attr(bytes, "Exec"@)
    &&& opt_chars(e.icon) == entry_attr(bytes, "Icon"@)
    &&& opt_chars(e.categories) == entry_attr(bytes, "Categories"@)
    &&& opt_chars(e.no_display) == entry_attr(bytes, "NoDisplay"@)
    &&& opt_chars(e.hidden) == entry_attr(bytes, "Hidden"@)
    &&& opt_chars(e.kind) == entry_attr(bytes, "Type"@)
    &&& opt_chars(e.wm_class) == entry_attr(bytes, "StartupWMClass"@)
}

/// The last value of a list, if any.
fn last_value(v: &Vec<String>) -> (r: Option<String>)
    ensures
        v@.len() == 0 ==> r is None,
        v@.len() > 0 ==> r is Some && r->0@ == v@.last()@,
{
    if v.len() == 0 {
        None
    } else {
        Some(v[v.len() - 1].clone())
    }
}

/// The value at `i` of a list of value lists, read as `entry_attr` does.
fn attr_at(vals: &Vec<Vec<String>>, i: usize) -> (r: Option<String>)
    requires
        i < vals@.len(),
    ensures
        opt_chars(r) == (if vals@[i as int]@.len() == 0 {
            None
        } else {
            Some(vals@[i as int]@.map_values(|s: String| s@).last())
        }),
{
    let r = last_value(&vals[i]);
    r
}

/// Reads the keys of an application descriptor from its bytes; nothing where
/// they do not parse.
pub fn read_desktop_entry(bytes: &[u8]) -> (r: Option<DesktopEntry>)
    ensures
        r is Some <==> entry_parses(bytes@),
        r matches Some(e) ==> entry_of(e, bytes@),
{
    let mut keys: Vec<String> = Vec::new();
    keys.push("Name".to_owned());
    keys.push("Exec".to_owned());
    keys.push("Icon".to_owned());
    keys.push("Categories".to_owned());
    keys.push("NoDisplay".to_owned());
    keys.push("Hidden".to_owned());
    keys.push("Type".to_owned());
    keys.push("StartupWMClass".to_owned());
    let vals = match entry_attrs(bytes, "Desktop Entry", &keys) {
        Some(v) => v,
        None => {
            return None;
        },
    };
    proof {
        assert forall|i: int| 0 <= i < 8 implies vals@[i]@.len() == entry_values(
            bytes@,
            "Desktop Entry"@,
            keys@[i]@,
        ).len() by {
            assert(vals@[i]@.map_values(|s: String| s@).len() == vals@[i]@.len());
        }
    }
    let e = DesktopEntry {
        name: attr_at(&vals, 0),
        command: attr_at(&vals, 1),
        icon: attr_at(&vals, 2),
        categories: attr_at(&vals, 3),
        no_display: attr_at(&vals, 4),
        hidden: attr_at(&vals, 5),
        kind: attr_at(&vals, 6),
        wm_class: attr_at(&vals, 7),
    };
    Some(e)
}

/// An installed application, as the list of applications shows it.
#[derive(Debug, Clone)]
pub struct AppInfo {
    pub name: String,
    pub command: String,
    pub icon_name: String,
    pub icon_path: Option<String>,
    pub desktop_file: PathBuf,
    pub categories: Vec<String>,
}

/// A file of a scanned descriptor directory, as the caller read it.
#[derive(Debug, Clone)]
pub struct DescriptorFile {
    pub path: PathBuf,
    pub extension: Option<String>,
    pub stem: Option<String>,
    pub contents: Option<Vec<u8>>,
}

/// The text of an optional value, or a default.
pub open spec fn or_default(o: Option<Seq<char>>, d: Seq<char>) -> Seq<char> {
    match o {
        Some(v) => v,
        None => d,
    }
}

/// A file whose extension marks it as an application descriptor.
pub open spec fn has_descriptor_extension(f: DescriptorFile) -> bool {
    opt_chars(f.extension) == Some("desktop"@)
}

/// A descriptor file that could be read and parsed.
pub open spec fn parsed(f: DescriptorFile) -> bool {
    has_descriptor_extension(f) && f.contents is Some && entry_parses(f.contents->0@)
}

/// The value of a key of a parsed descriptor file.
pub open spec fn file_attr(f: DescriptorFile, key: Seq<char>) -> Option<Seq<char>> {
    entry_attr(f.contents->0@, key)
}

/// A parsed descriptor that is meant to be listed: neither marked not for
/// display nor hidden, and of type application (the default).
pub open spec fn listed(f: DescriptorFile) -> bool {
    &&& parsed(f)
    &&& file_attr(f, "NoDisplay"@) != Some("true"@)
    &&& file_attr(f, "Hidden"@) != Some("true"@)
    &&& or_default(file_attr(f, "Type"@), "Application"@) == "Application"@
}

/// The display name of a descriptor.
pub open spec fn display_name(f: DescriptorFile) -> Seq<char> {
    or_default(file_attr(f, "Name"@), "Unknown"@)
}

/// The sanitised launch command of a descriptor.
pub open spec fn launch_command(f: DescriptorFile) -> Seq<char> {
    clean_command(or_default(file_attr(f, "Exec"@), seq![]))
}

/// Whether a listed descriptor among the first `k` files has display name `name`.
pub open spec fn name_taken(files: Seq<DescriptorFile>, k: int, name: Seq<char>) -> bool {
    exists|j: int| 0 <= j < k && listed(#[trigger] files[j]) && display_name(files[j]) == name
}

/// Whether file `k` gives an application: it is listed, no earlier listed
/// descriptor has its name, and its launch command is not empty once
/// sanitised.
pub open spec fn becomes_app(files: Seq<DescriptorFile>, k: int) -> bool {
    &&& listed(files[k])
    &&& !name_taken(files, k, display_name(files[k]))
    &&& launch_command(files[k]).len() > 0
}

/// The positions of the files among the first `k` that give applications.
pub open spec fn app_positions(files: Seq<DescriptorFile>, k: int) -> Seq<int>
    decreases k,
{
    if k <= 0 {
        seq![]
    } else if becomes_app(files, k - 1) {
        app_positions(files, k - 1).push(k - 1)
    } else {
        app_positions(files, k - 1)
    }
}

/// The pieces of `s` between separators, empty ones left out.
pub open spec fn split_nonempty(s: Seq<char>, sep: char) -> Seq<Seq<char>>
    decreases s.len(),
{
    if s.len() == 0 {
        seq![]
    } else {
        let prev = split_nonempty(s.drop_last(), sep);
        let c = s.last();
        if c == sep {
            prev
        } else if s.len() >= 2 && s[s.len() - 2] != sep {
            prev.drop_last().push(prev.last().push(c))
        } else {
            prev.push(seq![c])
        }
    }
}

/// Lexicographic order of character sequences by code point, which is the
/// order of their UTF-8 bytes.
pub open spec fn chars_less(a: Seq<char>, b: Seq<char>) -> bool {
    exists|i: int|
        0 <= i <= a.len() && i <= b.len() && #[trigger] a.subrange(0, i) == b.subrange(0, i) && ((i
            == a.len() && i < b.len()) || (i < a.len() && i < b.len() && (a[i] as u32) < (
        b[i] as u32)))
}

/// The sort key of a file: its display name in lower case.
pub open spec fn name_key(files: Seq<DescriptorFile>, i: int) -> Seq<char> {
    lower_of(display_name(files[i]))
}

/// Where a stable insertion puts `key` among sorted `keys`: after every key
/// that is not greater.
pub open spec fn insert_pos(keys: Seq<Seq<char>>, key: Seq<char>) -> int
    decreases keys.len(),
{
    if keys.len() == 0 {
        0
    } else if chars_less(key, keys[0]) {
        0
    } else {
        1 + insert_pos(keys.drop_first(), key)
    }
}

/// The positions sorted by the files' sort keys, stably (insertion sort).
pub open spec fn sort_by_name(pos: Seq<int>, files: Seq<DescriptorFile>) -> Seq<int>
    decreases pos.len(),
{
    if pos.len() == 0 {
        seq![]
    } else {
        let sorted = sort_by_name(pos.drop_last(), files);
        let keys = sorted.map_values(|i: int| name_key(files, i));
        sorted.insert(insert_pos(keys, name_key(files, pos.last())), pos.last())
    }
}

/// The fields of `a` are those that descriptor `f` gives (the icon file
/// aside, which the theme lookup decides).
pub open spec fn app_from(a: AppInfo, f: DescriptorFile) -> bool {
    &&& a.name@ == display_name(f)
    &&& a.command@ == launch_command(f)
    &&& a.icon_name@ == or_default(file_attr(f, "Icon"@), "application-x-executable"@)
    &&& a.categories@.map_values(|c: String| c@) == split_nonempty(
        or_default(file_attr(f, "Categories"@), seq![]),
        ';',
    )
    &&& a.desktop_file == f.path
}

/// Whether an extension marks an application descriptor.
pub fn is_descriptor_extension(ext: &Option<String>) -> (r: bool)
    ensures
        r == (opt_chars(*ext) == Some("desktop"@)),
{
    match ext {
        Some(e) => {
            let c = chars_of(e.as_str());
            let d = chars_of("desktop");
            chars_equal(&c, &d)
        },
        None => false,
    }
}

/// Whether an optional value is the text `true`.
fn is_true(v: &Option<String>) -> (r: bool)
    ensures
        r == (opt_chars(*v) == Some("true"@)),
{
    match v {
        Some(t) => chars_equal(&chars_of(t.as_str()), &chars_of("true")),
        None => false,
    }
}

/// The text of an optional value, or `d`.
fn text_or(v: &Option<String>, d: &str) -> (r: String)
    ensures
        r@ == or_default(opt_chars(*v), d@),
{
    match v {
        Some(t) => t.clone(),
        None => d.to_owned(),
    }
}

/// Splits a list on `;`, leaving out empty pieces.
pub fn split_categories(s: &str) -> (r: Vec<String>)
    ensures
        r@.map_values(|c: String| c@) == split_nonempty(s@, ';'),
{
    let chars = chars_of(s);
    let n = chars.len();
    let mut pieces: Vec<String> = Vec::new();
    let mut cur: Vec<char> = Vec::new();
    let mut i: usize = 0;
    while i < n
        invariant
            n == chars@.len(),
            chars@ == s@,
            i <= n,
            cur@.len() > 0 <==> (i > 0 && chars@[i - 1] != ';'),
            split_nonempty(chars@.subrange(0, i as int), ';') == pieces@.map_values(|c: String| c@) + (
            if cur@.len() > 0 {
                seq![cur@]
            } else {
                seq![]
            }),
        decreases n - i,
    {
        let ghost pre = chars@.subrange(0, i as int);
        let ghost next = chars@.subrange(0, i + 1);
        assert(next.drop_last() =~= pre);
        assert(next.last() == chars@[i as int]);
        let ghost before = pieces@.map_values(|c: String| c@);
        let c = chars[i];
        if c == ';' {
            if cur.len() > 0 {
                let piece = string_of(cur.as_slice());
                pieces.push(piece);
                assert(pieces@.map_values(|c: String| c@) =~= before.push(cur@));
                cur = Vec::new();
            }
            assert(pieces@.map_values(|c: String| c@) + seq![] =~= pieces@.map_values(|c: String| c@));
        } else {
            if cur.len() > 0 {
                assert(next[next.len() - 2] == chars@[i - 1]);
                let ghost old_cur = cur@;
                cur.push(c);
                assert((before + seq![old_cur]).drop_last() =~= before);
                assert((before + seq![old_cur]).last() == old_cur);
                assert(before + seq![cur@] =~= before.push(old_cur.push(c)));
            } else {
                assert(cur@ =~= Seq::<char>::empty());
                cur.push(c);
                assert(cur@ =~= seq![c]);
                assert(before + seq![] =~= before);
                assert(before + seq![cur@] =~= before.push(seq![c]));
            }
        }
        i = i + 1;
    }
    assert(chars@.subrange(0, n as int) =~= chars@);
    if cur.len() > 0 {
        let ghost before = pieces@.map_values(|c: String| c@);
        let piece = string_of(cur.as_slice());
        pieces.push(piece);
        assert(pieces@.map_values(|c: String| c@) =~= before + seq![cur@]);
    } else {
        assert(pieces@.map_values(|c: String| c@) + seq![] =~= pieces@.map_values(|c: String| c@));
    }
    pieces
}

/// Whether `a` comes before `b` in code-point order.
pub fn chars_less_exec(a: &[char], b: &[char]) -> (r: bool)
    ensures
        r == chars_less(a@, b@),
{
    let mut i: usize = 0;
    while i < a.len() && i < b.len()
        invariant
            i <= a@.len(),
            i <= b@.len(),
            a@.subrange(0, i as int) == b@.subrange(0, i as int),
        decreases a@.len() - i,
    {
        if a[i] != b[i] {
            let r = (a[i] as u32) < (b[i] as u32);
            proof {
                if !r {
                    assert forall|j: int|
                        0 <= j <= a@.len() && j <= b@.len() && #[trigger] a@.subrange(0, j)
                            == b@.subrange(0, j) implies !((j == a@.len() && j < b@.len()) || (j
                        < a@.len() && j < b@.len() && (a@[j] as u32) < (b@[j] as u32))) by {
                        if j > i {
                            assert(a@.subrange(0, j)[i as int] == b@.subrange(0, j)[i as int]);
                        } else if j < i {
                            assert(a@.subrange(0, i as int)[j] == b@.subrange(0, i as int)[j]);
                        }
                    }
                }
            }
            return r;
        }
        assert(a@.subrange(0, i + 1) =~= a@.subrange(0, i as int).push(a@[i as int]));
        assert(b@.subrange(0, i + 1) =~= b@.subrange(0, i as int).push(b@[i as int]));
        i = i + 1;
    }
    let r = a.len() < b.len();
    proof {
        if !r {
            assert forall|j: int|
                0 <= j <= a@.len() && j <= b@.len() && #[trigger] a@.subrange(0, j) == b@.subrange(
                    0,
                    j,
                ) implies !((j == a@.len() && j < b@.len()) || (j < a@.len() && j < b@.len() && (
            a@[j] as u32) < (b@[j] as u32))) by {
                if j < i {
                    assert(a@.subrange(0, i as int)[j] == b@.subrange(0, i as int)[j]);
                }
            }
        }
    }
    r
}

proof fn lemma_insert_pos(keys: Seq<Seq<char>>, key: Seq<char>, p: int)
    requires
        0 <= p <= keys.len(),
        forall|j: int| 0 <= j < p ==> !chars_less(key, #[trigger] keys[j]),
        p == keys.len() || chars_less(key, keys[p]),
    ensures
        insert_pos(keys, key) == p,
    decreases p,
{
    if p > 0 {
        let rest = keys.drop_first();
        assert forall|j: int| 0 <= j < p - 1 implies !chars_less(key, #[trigger] rest[j]) by {
            assert(rest[j] == keys[j + 1]);
        }
        if p < keys.len() {
            assert(rest[p - 1] == keys[p]);
        }
        assert(!chars_less(key, keys[0]));
        lemma_insert_pos(rest, key, p - 1);
    }
}

/// The position at which a stable insertion puts `key` among `keys`.
fn insertion_point(keys: &Vec<Vec<char>>, key: &Vec<char>) -> (r: usize)
    ensures
        r as int == insert_pos(keys@.map_values(|k: Vec<char>| k@), key@),
        r <= keys@.len(),
{
    let ghost ks = keys@.map_values(|k: Vec<char>| k@);
    let mut p: usize = 0;
    while p < keys.len()
        invariant
            ks == keys@.map_values(|k: Vec<char>| k@),
            p <= keys@.len(),
            forall|j: int| 0 <= j < p ==> !chars_less(key@, #[trigger] ks[j]),
        decreases keys@.len() - p,
    {
        if chars_less_exec(key.as_slice(), keys[p].as_slice()) {
            proof {
                lemma_insert_pos(ks, key@, p as int);
            }
            return p;
        }
        p = p + 1;
    }
    proof {
        lemma_insert_pos(ks, key@, p as int);
    }
    p
}

proof fn lemma_name_taken_step(files: Seq<DescriptorFile>, k: int, x: Seq<char>)
    requires
        0 <= k < files.len(),
    ensures
        name_taken(files, k + 1, x) <==> (name_taken(files, k, x) || (listed(files[k])
            && display_name(files[k]) == x)),
{
    if name_taken(files, k + 1, x) && !(listed(files[k]) && display_name(files[k]) == x) {
        let j = choose|j: int| 0 <= j < k + 1 && listed(#[trigger] files[j]) && display_name(files[j]) == x;
        assert(j < k);
    }
}

/// The entry of a descriptor file that is to be listed; nothing for any other
/// file.
fn listed_entry(f: &DescriptorFile) -> (r: Option<DesktopEntry>)
    ensures
        r is Some <==> listed(*f),
        r matches Some(e) ==> entry_of(e, f.contents->0@),
{
    if !is_descriptor_extension(&f.extension) {
        return None;
    }
    let bytes = match &f.contents {
        Some(b) => b,
        None => {
            return None;
        },
    };
    let e = match read_desktop_entry(bytes.as_slice()) {
        Some(e) => e,
        None => {
            return None;
        },
    };
    if is_true(&e.no_display) || is_true(&e.hidden) {
        return None;
    }
    let kind = text_or(&e.kind, "Application");
    if !chars_equal(&chars_of(kind.as_str()), &chars_of("Application")) {
        return None;
    }
    Some(e)
}

/// Whether `seen` holds `name`.
fn holds_name(seen: &Vec<Vec<char>>, name: &Vec<char>) -> (r: bool)
    ensures
        r == seen@.map_values(|c: Vec<char>| c@).contains(name@),
{
    let ghost sv = seen@.map_values(|c: Vec<char>| c@);
    let mut i: usize = 0;
    while i < seen.len()
        invariant
            sv == seen@.map_values(|c: Vec<char>| c@),
            i <= seen@.len(),
            forall|j: int| 0 <= j < i ==> sv[j] != name@,
        decreases seen@.len() - i,
    {
        if chars_equal(seen[i].as_slice(), name.as_slice()) {
            assert(sv[i as int] == name@);
            return true;
        }
        i = i + 1;
    }
    false
}

/// Builds the list of installed applications from the files of the scanned
/// descriptor directories, given in scan order (system directories before
/// the user's own). A file counts if it is a parsed descriptor that is
/// neither marked not for display nor hidden and whose type is application;
/// of files with the same display name only the first counts, and one whose
/// sanitised launch command is empty is dropped (its name still counts as
/// taken, so a later file of that name is dropped too). The list is sorted by
/// display name in lower case, stably; each icon file is looked up in the
/// theme `theme`.
pub fn get_all_apps(files: &Vec<DescriptorFile>, theme: &str) -> (r: Vec<AppInfo>)
    ensures
        ({
            let order = sort_by_name(app_positions(files@, files@.len() as int), files@);
            &&& r@.len() == order.len()
            &&& forall|i: int| 0 <= i < order.len() ==> app_from(r@[i], files@[order[i]])
            &&& forall|i: int|
                0 <= i < order.len() ==> 0 <= #[trigger] order[i] < files@.len() && becomes_app(
                    files@,
                    order[i],
                )
            &&& forall|p: int|
                0 <= p < files@.len() && becomes_app(files@, p) ==> #[trigger] order.contains(p)
            &&& order.no_duplicates()
            &&& forall|i: int, j: int| 0 <= i < j < r@.len() ==> r@[i].name@ != r@[j].name@
            &&& forall|i: int, j: int|
                0 <= i < j < r@.len() ==> !chars_less(
                    lower_of(#[trigger] r@[j].name@),
                    lower_of(#[trigger] r@[i].name@),
                )
        }),
{
    proof {
        reveal_strlit("");
    }
    let n = files.len();
    let mut seen: Vec<Vec<char>> = Vec::new();
    let mut apps: Vec<AppInfo> = Vec::new();
    let mut keys: Vec<Vec<char>> = Vec::new();
    let ghost mut order: Seq<int> = seq![];
    let mut k: usize = 0;
    assert(order.map_values(|i: int| name_key(files@, i)) =~= keys@.map_values(|c: Vec<char>| c@));
    while k < n
        invariant
            n == files@.len(),
            k <= n,
            ""@ == Seq::<char>::empty(),
            order == sort_by_name(app_positions(files@, k as int), files@),
            apps@.len() == order.len(),
            keys@.len() == order.len(),
            forall|i: int| 0 <= i < order.len() ==> app_from(#[trigger] apps@[i], files@[order[i]]),
            keys@.map_values(|c: Vec<char>| c@) == order.map_values(|i: int| name_key(files@, i)),
            forall|x: Seq<char>|
                seen@.map_values(|c: Vec<char>| c@).contains(x) <==> name_taken(files@, k as int, x),
        decreases n - k,
    {
        let f = &files[k];
        let ghost ks = k as int;
        match listed_entry(f) {
            None => {
                assert(!becomes_app(files@, ks));
                assert forall|x: Seq<char>|
                    seen@.map_values(|c: Vec<char>| c@).contains(x) <==> #[trigger] name_taken(files@, ks + 1, x) by {
                    lemma_name_taken_step(files@, ks, x);
                }
            },
            Some(e) => {
                let name = text_or(&e.name, "Unknown");
                let name_chars = chars_of(name.as_str());
                assert(display_name(files@[ks]) == name@);
                if holds_name(&seen, &name_chars) {
                    assert(name_taken(files@, ks, name@));
                    assert(!becomes_app(files@, ks));
                    assert forall|x: Seq<char>|
                        seen@.map_values(|c: Vec<char>| c@).contains(x) <==> #[trigger] name_taken(files@, ks + 1, x) by {
                        lemma_name_taken_step(files@, ks, x);
                    }
                } else {
                    let ghost sv = seen@.map_values(|c: Vec<char>| c@);
                    seen.push(name_chars);
                    proof {
                        assert(seen@.map_values(|c: Vec<char>| c@) =~= sv.push(name@));
                        assert forall|x: Seq<char>|
                            sv.push(name@).contains(x) <==> (sv.contains(x) || x == name@) by {
                            if sv.push(name@).contains(x) {
                                let j = choose|j: int| 0 <= j < sv.push(name@).len() && sv.push(name@)[j] == x;
                                if j < sv.len() {
                                    assert(sv[j] == x);
                                }
                            }
                            if sv.contains(x) {
                                let j = choose|j: int| 0 <= j < sv.len() && sv[j] == x;
                                assert(sv.push(name@)[j] == x);
                            }
                            if x == name@ {
                                assert(sv.push(name@)[sv.len() as int] == x);
                            }
                        }
                        assert forall|x: Seq<char>|
                            seen@.map_values(|c: Vec<char>| c@).contains(x) <==> #[trigger] name_taken(files@, ks + 1, x) by {
                            lemma_name_taken_step(files@, ks, x);
                        }
                    }
                    let raw = text_or(&e.command, "");
                    let command = clean_exec_command(raw.as_str());
                    if command.as_str().is_empty() {
                        assert(!becomes_app(files@, ks));
                    } else {
                        assert(becomes_app(files@, ks));
                        let icon_name = text_or(&e.icon, "application-x-executable");
                        let cats = text_or(&e.categories, "");
                        let categories = split_categories(cats.as_str());
                        let icon_path = find_in_theme(icon_name.as_str(), theme);
                        let app = AppInfo {
                            name: name.clone(),
                            command,
                            icon_name,
                            icon_path,
                            desktop_file: f.path.clone(),
                            categories,
                        };
                        let lower = lowercase(name.as_str());
                        let key = chars_of(lower.as_str());
                        let p = insertion_point(&keys, &key);
                        proof {
                            let pos = app_positions(files@, ks + 1);
                            assert(pos.drop_last() =~= app_positions(files@, ks));
                            assert(pos.last() == ks);
                        }
                        let ghost old_keys = keys@.map_values(|c: Vec<char>| c@);
                        keys.insert(p, key);
                        apps.insert(p, app);
                        proof {
                            let old_order = order;
                            order = order.insert(p as int, ks);
                            assert(keys@.map_values(|c: Vec<char>| c@) =~= order.map_values(
                                |i: int| name_key(files@, i),
                            )) by {
                                assert(keys@.map_values(|c: Vec<char>| c@) =~= old_keys.insert(
                                    p as int,
                                    key@,
                                ));
                            }
                            assert forall|i: int| 0 <= i < order.len() implies app_from(
                                #[trigger] apps@[i],
                                files@[order[i]],
                            ) by {
                                if i < p {
                                    assert(order[i] == old_order[i]);
                                } else if i > p {
                                    assert(order[i] == old_order[i - 1]);
                                }
                            }
                        }
                    }
                }
            },
        }
        k = k + 1;
    }
    proof {
        let pos = app_positions(files@, n as int);
        lemma_app_positions(files@, n as int);
        lemma_sort_permutes(pos, files@);
        assert forall|i: int|
            0 <= i < order.len() implies 0 <= #[trigger] order[i] < files@.len() && becomes_app(
                files@,
                order[i],
            ) by {
            assert(order.contains(order[i]));
            assert(pos.contains(order[i]));
        }
        lemma_sort_sorted(pos, files@);
        assert forall|i: int, j: int|
            0 <= i < j < apps@.len() implies !chars_less(
                lower_of(#[trigger] apps@[j].name@),
                lower_of(#[trigger] apps@[i].name@),
            ) by {
            assert(apps@[i].name@ == display_name(files@[order[i]]));
            assert(apps@[j].name@ == display_name(files@[order[j]]));
        }
        assert forall|i: int, j: int| 0 <= i < j < apps@.len() implies apps@[i].name@ != apps@[j].name@ by {
            assert(order[i] != order[j]);
            assert(order.contains(order[i]) && order.contains(order[j]));
            assert(pos.contains(order[i]) && pos.contains(order[j]));
            if order[i] < order[j] {
                lemma_app_names_distinct(files@, order[i], order[j]);
            } else {
                lemma_app_names_distinct(files@, order[j], order[i]);
            }
        }
    }
    apps
}

/// Two files that both give applications have different display names.
pub proof fn lemma_app_names_distinct(files: Seq<DescriptorFile>, x: int, y: int)
    requires
        0 <= x < y < files.len(),
        becomes_app(files, x),
        becomes_app(files, y),
    ensures
        display_name(files[x]) != display_name(files[y]),
{
    if display_name(files[x]) == display_name(files[y]) {
        assert(listed(files[x]));
        assert(name_taken(files, y, display_name(files[y])));
    }
}

/// `m` with `key`, as written and in lower case, mapped to `icon`.
pub open spec fn with_both_cases(m: Map<Seq<char>, Seq<char>>, key: Seq<char>, icon: Seq<char>) -> Map<
    Seq<char>,
    Seq<char>,
> {
    m.insert(key, icon).insert(lower_of(key), icon)
}

/// The index after the insertions that descriptor file `f` makes: where it is
/// a parsed descriptor with an icon, its window-class hint, its file stem and
/// its display name, each as written and in lower case, map to the icon name.
pub open spec fn index_with_file(m: Map<Seq<char>, Seq<char>>, f: DescriptorFile) -> Map<
    Seq<char>,
    Seq<char>,
> {
    if parsed(f) && file_attr(f, "Icon"@) is Some {
        let icon = file_attr(f, "Icon"@)->0;
        let m1 = match file_attr(f, "StartupWMClass"@) {
            Some(w) => with_both_cases(m, w, icon),
            None => m,
        };
        let m2 = match opt_chars(f.stem) {
            Some(t) => with_both_cases(m1, t, icon),
            None => m1,
        };
        match file_attr(f, "Name"@) {
            Some(n) => with_both_cases(m2, n, icon),
            None => m2,
        }
    } else {
        m
    }
}

/// The index that the first `k` descriptor files build, in scan order, a
/// later file overriding an earlier one under the same key.
pub open spec fn index_of_files(files: Seq<DescriptorFile>, k: int) -> Map<Seq<char>, Seq<char>>
    decreases k,
{
    if k <= 0 {
        Map::empty()
    } else {
        index_with_file(index_of_files(files, k - 1), files[k - 1])
    }
}

/// Maps `key`, as written and in lower case, to `icon`.
fn insert_both_cases(index: &mut IconIndex, key: &str, icon: &str)
    requires
        old(index).wf(),
    ensures
        final(index).wf(),
        final(index)@ == with_both_cases(old(index)@, key@, icon@),
{
    index.insert(key, icon);
    let lower = lowercase(key);
    index.insert(lower.as_str(), icon);
}

/// Builds the icon index from the files of the scanned descriptor
/// directories, in scan order (see `index_of_files`). Whether a descriptor
/// is listed plays no part. Under a key that several files give, the file
/// scanned last wins, so the user's own directory overrides the system ones
/// here, while in the application list the first display name wins.
pub fn build_icon_index(files: &Vec<DescriptorFile>) -> (r: IconIndex)
    ensures
        r.wf(),
        r@ == index_of_files(files@, files@.len() as int),
{
    let mut index = IconIndex::new();
    let n = files.len();
    let mut k: usize = 0;
    while k < n
        invariant
            n == files@.len(),
            k <= n,
            index.wf(),
            index@ == index_of_files(files@, k as int),
        decreases n - k,
    {
        let f = &files[k];
        if is_descriptor_extension(&f.extension) {
            match &f.contents {
                Some(bytes) => match read_desktop_entry(bytes.as_slice()) {
                    Some(e) => match &e.icon {
                        Some(icon) => {
                            match &e.wm_class {
                                Some(w) => insert_both_cases(&mut index, w.as_str(), icon.as_str()),
                                None => {},
                            }
                            match &f.stem {
                                Some(t) => insert_both_cases(&mut index, t.as_str(), icon.as_str()),
                                None => {},
                            }
                            match &e.name {
                                Some(nm) => insert_both_cases(&mut index, nm.as_str(), icon.as_str()),
                                None => {},
                            }
                        },
                        None => {},
                    },
                    None => {},
                },
                None => {},
            }
        }
        k = k + 1;
    }
    index
}

proof fn lemma_insert_facts<A>(s: Seq<A>, p: int, x: A)
    requires
        0 <= p <= s.len(),
    ensures
        s.insert(p, x).len() == s.len() + 1,
        forall|y: A| #[trigger] s.insert(p, x).contains(y) <==> (s.contains(y) || y == x),
        s.no_duplicates() && !s.contains(x) ==> s.insert(p, x).no_duplicates(),
{
    let t = s.insert(p, x);
    assert forall|y: A| #[trigger] t.contains(y) <==> (s.contains(y) || y == x) by {
        if t.contains(y) {
            let j = choose|j: int| 0 <= j < t.len() && t[j] == y;
            if j < p {
                assert(s[j] == y);
            } else if j > p {
                assert(s[j - 1] == y);
            }
        }
        if s.contains(y) {
            let j = choose|j: int| 0 <= j < s.len() && s[j] == y;
            if j < p {
                assert(t[j] == y);
            } else {
                assert(t[j + 1] == y);
            }
        }
        if y == x {
            assert(t[p] == y);
        }
    }
    if s.no_duplicates() && !s.contains(x) {
        assert forall|i: int, j: int| 0 <= i < j < t.len() implies t[i] != t[j] by {
            let si = if i < p { i } else { i - 1 };
            let sj = if j < p { j } else { j - 1 };
            if i == p {
                assert(t[j] == s[sj]);
                assert(s.contains(s[sj]));
            } else if j == p {
                assert(t[i] == s[si]);
                assert(s.contains(s[si]));
            } else {
                assert(t[i] == s[si] && t[j] == s[sj]);
            }
        }
    }
}

/// The positions that give applications are exactly the positions below
/// `k` of files that `becomes_app` accepts, each once.
pub proof fn lemma_app_positions(files: Seq<DescriptorFile>, k: int)
    ensures
        forall|x: int| #[trigger] app_positions(files, k).contains(x) <==> (0 <= x < k && becomes_app(files, x)),
        app_positions(files, k).no_duplicates(),
    decreases k,
{
    if k > 0 {
        lemma_app_positions(files, k - 1);
        let prev = app_positions(files, k - 1);
        if !becomes_app(files, k - 1) {
            assert(app_positions(files, k) == prev);
            assert forall|x: int| #[trigger] app_positions(files, k).contains(x) <==> (0 <= x < k
                && becomes_app(files, x)) by {
                if x == k - 1 {
                    assert(!prev.contains(x));
                }
            }
        } else {
            assert(app_positions(files, k) == prev.push(k - 1));
            assert(prev.push(k - 1) == prev.insert(prev.len() as int, k - 1));
            lemma_insert_facts(prev, prev.len() as int, k - 1);
            assert(!prev.contains(k - 1));
            assert forall|x: int| #[trigger] app_positions(files, k).contains(x) <==> (0 <= x < k
                && becomes_app(files, x)) by {
                assert(prev.insert(prev.len() as int, k - 1).contains(x) <==> (prev.contains(x) || x == k - 1));
            }
        }
    } else {
        assert forall|x: int| #[trigger] app_positions(files, k).contains(x) <==> (0 <= x < k
            && becomes_app(files, x)) by {
            assert(app_positions(files, k).len() == 0);
        }
    }
}

/// Sorting by name permutes the positions: it keeps their number, each
/// position, and their distinctness.
pub proof fn lemma_sort_permutes(pos: Seq<int>, files: Seq<DescriptorFile>)
    ensures
        sort_by_name(pos, files).len() == pos.len(),
        forall|x: int| #[trigger] sort_by_name(pos, files).contains(x) <==> pos.contains(x),
        pos.no_duplicates() ==> sort_by_name(pos, files).no_duplicates(),
    decreases pos.len(),
{
    if pos.len() == 0 {
        assert forall|x: int| #[trigger] sort_by_name(pos, files).contains(x) <==> pos.contains(x) by {
            assert(sort_by_name(pos, files).len() == 0);
        }
    } else {
        let pre = pos.drop_last();
        lemma_sort_permutes(pre, files);
        let sorted = sort_by_name(pre, files);
        let keys = sorted.map_values(|i: int| name_key(files, i));
        let p = insert_pos(keys, name_key(files, pos.last()));
        lemma_insert_pos_range(keys, name_key(files, pos.last()));
        lemma_insert_facts(sorted, p, pos.last());
        assert(pre.push(pos.last()) =~= pos);
        assert forall|x: int| #[trigger] pos.contains(x) <==> (pre.contains(x) || x == pos.last()) by {
            if pos.contains(x) {
                let j = choose|j: int| 0 <= j < pos.len() && pos[j] == x;
                if j < pre.len() {
                    assert(pre[j] == x);
                }
            }
            if pre.contains(x) {
                let j = choose|j: int| 0 <= j < pre.len() && pre[j] == x;
                assert(pos[j] == x);
            }
            if x == pos.last() {
                assert(pos[pos.len() - 1] == x);
            }
        }
        assert forall|x: int| #[trigger] sort_by_name(pos, files).contains(x) <==> pos.contains(x) by {
            assert(sorted.insert(p, pos.last()).contains(x) <==> (sorted.contains(x) || x == pos.last()));
        }
        if pos.no_duplicates() {
            assert forall|a: int, b: int| 0 <= a < b < pre.len() implies pre[a] != pre[b] by {
                assert(pos[a] != pos[b]);
            }
            if pre.contains(pos.last()) {
                let j = choose|j: int| 0 <= j < pre.len() && pre[j] == pos.last();
                assert(pos[j] == pos[pos.len() - 1]);
            }
            assert(!sorted.contains(pos.last()));
        }
    }
}

/// The code-point order of character sequences is transitive.
pub proof fn lemma_chars_less_transitive(a: Seq<char>, b: Seq<char>, c: Seq<char>)
    requires
        chars_less(a, b),
        chars_less(b, c),
    ensures
        chars_less(a, c),
{
    let i = choose|i: int|
        0 <= i <= a.len() && i <= b.len() && #[trigger] a.subrange(0, i) == b.subrange(0, i) && ((i
            == a.len() && i < b.len()) || (i < a.len() && i < b.len() && (a[i] as u32) < (
        b[i] as u32)));
    let j = choose|j: int|
        0 <= j <= b.len() && j <= c.len() && #[trigger] b.subrange(0, j) == c.subrange(0, j) && ((j
            == b.len() && j < c.len()) || (j < b.len() && j < c.len() && (b[j] as u32) < (
        c[j] as u32)));
    let m = if i <= j { i } else { j };
    assert(a.subrange(0, m) =~= a.subrange(0, i).subrange(0, m));
    assert(b.subrange(0, m) =~= b.subrange(0, i).subrange(0, m));
    assert(b.subrange(0, m) =~= b.subrange(0, j).subrange(0, m));
    assert(c.subrange(0, m) =~= c.subrange(0, j).subrange(0, m));
    assert(a.subrange(0, m) == c.subrange(0, m));
    if i < j {
        assert(b.subrange(0, j)[i] == c.subrange(0, j)[i]);
    } else if j < i {
        assert(a.subrange(0, i)[j] == b.subrange(0, i)[j]);
    }
    assert(0 <= m <= a.len() && m <= c.len() && a.subrange(0, m) == c.subrange(0, m) && ((m
        == a.len() && m < c.len()) || (m < a.len() && m < c.len() && (a[m] as u32) < (c[m] as u32))));
}

/// Where `insert_pos` puts `key`: after every key it does not come before,
/// and before the key at that place, if any.
pub proof fn lemma_insert_pos_spec(keys: Seq<Seq<char>>, key: Seq<char>)
    ensures
        0 <= insert_pos(keys, key) <= keys.len(),
        forall|j: int| 0 <= j < insert_pos(keys, key) ==> !chars_less(key, #[trigger] keys[j]),
        insert_pos(keys, key) < keys.len() ==> chars_less(key, keys[insert_pos(keys, key)]),
    decreases keys.len(),
{
    if keys.len() > 0 && !chars_less(key, keys[0]) {
        let rest = keys.drop_first();
        lemma_insert_pos_spec(rest, key);
        assert forall|j: int| 0 <= j < insert_pos(keys, key) implies !chars_less(key, #[trigger] keys[j]) by {
            if j > 0 {
                assert(keys[j] == rest[j - 1]);
            }
        }
        if insert_pos(keys, key) < keys.len() {
            assert(keys[insert_pos(keys, key)] == rest[insert_pos(rest, key)]);
        }
    }
}

/// Sorting by name orders the positions by their sort keys: no position
/// comes before one whose key it precedes.
pub proof fn lemma_sort_sorted(pos: Seq<int>, files: Seq<DescriptorFile>)
    ensures
        forall|i: int, j: int|
            0 <= i < j < sort_by_name(pos, files).len() ==> !chars_less(
                name_key(files, #[trigger] sort_by_name(pos, files)[j]),
                name_key(files, #[trigger] sort_by_name(pos, files)[i]),
            ),
    decreases pos.len(),
{
    if pos.len() > 0 {
        let pre = pos.drop_last();
        lemma_sort_sorted(pre, files);
        lemma_sort_permutes(pre, files);
        let sorted = sort_by_name(pre, files);
        let keys = sorted.map_values(|i: int| name_key(files, i));
        let x = pos.last();
        let kx = name_key(files, x);
        let p = insert_pos(keys, kx);
        lemma_insert_pos_spec(keys, kx);
        let t = sorted.insert(p, x);
        assert(t == sort_by_name(pos, files));
        assert forall|i: int, j: int| 0 <= i < j < t.len() implies !chars_less(
            name_key(files, #[trigger] t[j]),
            name_key(files, #[trigger] t[i]),
        ) by {
            if j < p {
                assert(t[i] == sorted[i] && t[j] == sorted[j]);
            } else if i > p {
                assert(t[i] == sorted[i - 1] && t[j] == sorted[j - 1]);
            } else if i == p {
                assert(t[i] == x);
                assert(t[j] == sorted[j - 1]);
                assert(keys[p] == name_key(files, sorted[p]));
                assert(keys[j - 1] == name_key(files, sorted[j - 1]));
                if chars_less(keys[j - 1], kx) {
                    assert(chars_less(kx, keys[p]));
                    lemma_chars_less_transitive(keys[j - 1], kx, keys[p]);
                    if j - 1 > p {
                        assert(!chars_less(name_key(files, sorted[j - 1]), name_key(files, sorted[p])));
                    }
                }
            } else if j == p {
                assert(t[j] == x);
                assert(t[i] == sorted[i]);
                assert(keys[i] == name_key(files, sorted[i]));
            } else {
                assert(t[i] == sorted[i]);
                assert(t[j] == sorted[j - 1]);
            }
        }
    }
}

proof fn lemma_insert_pos_range(keys: Seq<Seq<char>>, key: Seq<char>)
    ensures
        0 <= insert_pos(keys, key) <= keys.len(),
    decreases keys.len(),
{
    if keys.len() > 0 && !chars_less(key, keys[0]) {
        lemma_insert_pos_range(keys.drop_first(), key);
    }
}

/// No application of the list comes from a descriptor marked not for display
/// or hidden.
pub proof fn lemma_hidden_never_listed(files: Seq<DescriptorFile>)
    ensures
        ({
            let order = sort_by_name(app_positions(files, files.len() as int), files);
            forall|i: int|
                0 <= i < order.len() ==> file_attr(files[#[trigger] order[i]], "NoDisplay"@) != Some(
                    "true"@,
                ) && file_attr(files[order[i]], "Hidden"@) != Some("true"@)
        }),
{
    let pos = app_positions(files, files.len() as int);
    let order = sort_by_name(pos, files);
    lemma_app_positions(files, files.len() as int);
    lemma_sort_permutes(pos, files);
    assert forall|i: int| 0 <= i < order.len() implies file_attr(files[#[trigger] order[i]], "NoDisplay"@)
        != Some("true"@) && file_attr(files[order[i]], "Hidden"@) != Some("true"@) by {
        assert(order.contains(order[i]));
        assert(pos.contains(order[i]));
        assert(becomes_app(files, order[i]));
        assert(listed(files[order[i]]));
    }
}

/// Of two listed descriptors with the same display name, the one later in
/// scan order never gives an application; the earlier one gives exactly one
/// where it is the first listed file of that name and its launch command is
/// not empty once sanitised.
pub proof fn lemma_first_name_wins(files: Seq<DescriptorFile>, j: int, k: int)
    requires
        0 <= j < k < files.len(),
        listed(files[j]),
        listed(files[k]),
        display_name(files[j]) == display_name(files[k]),
    ensures
        !sort_by_name(app_positions(files, files.len() as int), files).contains(k),
        !name_taken(files, j, display_name(files[j])) && launch_command(files[j]).len() > 0 ==> sort_by_name(
            app_positions(files, files.len() as int),
            files,
        ).contains(j),
        sort_by_name(app_positions(files, files.len() as int), files).no_duplicates(),
{
    let pos = app_positions(files, files.len() as int);
    lemma_app_positions(files, files.len() as int);
    lemma_sort_permutes(pos, files);
    assert(name_taken(files, k, display_name(files[k])));
}

/// Every application of the list comes from a file whose launch command is
/// not empty once sanitised.
pub proof fn lemma_commands_not_empty(files: Seq<DescriptorFile>)
    ensures
        ({
            let order = sort_by_name(app_positions(files, files.len() as int), files);
            forall|i: int| 0 <= i < order.len() ==> launch_command(files[#[trigger] order[i]]).len() > 0
        }),
{
    let pos = app_positions(files, files.len() as int);
    let order = sort_by_name(pos, files);
    lemma_app_positions(files, files.len() as int);
    lemma_sort_permutes(pos, files);
    assert forall|i: int| 0 <= i < order.len() implies launch_command(files[#[trigger] order[i]]).len() > 0 by {
        assert(order.contains(order[i]));
        assert(pos.contains(order[i]));
    }
}

/// Where the scanned files have distinct paths, no application of the list
/// has the path of a descriptor marked not for display or hidden.
pub proof fn lemma_hidden_file_absent(files: Seq<DescriptorFile>, d: int)
    requires
        0 <= d < files.len(),
        forall|a: int, b: int| 0 <= a < b < files.len() ==> files[a].path != files[b].path,
        file_attr(files[d], "NoDisplay"@) == Some("true"@) || file_attr(files[d], "Hidden"@) == Some(
            "true"@,
        ),
    ensures
        ({
            let order = sort_by_name(app_positions(files, files.len() as int), files);
            forall|i: int| 0 <= i < order.len() ==> files[#[trigger] order[i]].path != files[d].path
        }),
{
    let pos = app_positions(files, files.len() as int);
    let order = sort_by_name(pos, files);
    lemma_app_positions(files, files.len() as int);
    lemma_sort_permutes(pos, files);
    assert forall|i: int| 0 <= i < order.len() implies files[#[trigger] order[i]].path != files[d].path by {
        assert(order.contains(order[i]));
        assert(pos.contains(order[i]));
        assert(order[i] != d);
        if order[i] < d {
            assert(files[order[i]].path != files[d].path);
        } else {
            assert(files[d].path != files[order[i]].path);
        }
    }
}

} // verus!
