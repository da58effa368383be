//! Icon resolution: the index from application names to icon names, the
//! candidate names tried for a window class, and the themed-file lookup.
use vstd::prelude::*;
use crate::text::chars_equal;
use crate::text::chars_of;
use crate::text::lower_of;
use crate::text::lowercase;
use crate::text::string_of;


verus! {

/// The map that a run of insertions builds, later ones overriding earlier.
pub open spec fn map_of_pairs(keys: Seq<Seq<char>>, icons: Seq<Seq<char>>) -> Map<Seq<char>, Seq<char>>
    decreases keys.len(),
{
    if keys.len() == 0 || keys.len() != icons.len() {
        Map::empty()
    } else {
        map_of_pairs(keys.drop_last(), icons.drop_last()).insert(keys.last(), icons.last())
    }
}

/// The lookup table from a name (window class, descriptor file stem or display
/// name, each as written and in lower case) to an icon name. Built once, then
/// only read.
pub struct IconIndex {
    keys: Vec<Vec<char>>,
    icons: Vec<String>,
}

impl View for IconIndex {
    type V = Map<Seq<char>, Seq<char>>;

    closed spec fn view(&self) -> Map<Seq<char>, Seq<char>> {
        map_of_pairs(self.keys@.map_values(|k: Vec<char>| k@), self.icons@.map_values(|v: String| v@))
    }
}

proof fn lemma_map_of_pairs_push(keys: Seq<Seq<char>>, icons: Seq<Seq<char>>, k: Seq<char>, v: Seq<char>)
    requires
        keys.len() == icons.len(),
    ensures
        map_of_pairs(keys.push(k), icons.push(v)) == map_of_pairs(keys, icons).insert(k, v),
{
    assert(keys.push(k).drop_last() =~= keys);
    assert(icons.push(v).drop_last() =~= icons);
}

/// Reading `map_of_pairs` from the end: where no key of `keys[i..]` is `k`,
/// the map of the whole run agrees at `k` with the map of `keys[..i]`.
proof fn lemma_map_of_pairs_prefix(keys: Seq<Seq<char>>, icons: Seq<Seq<char>>, i: int, k: Seq<char>)
    requires
        keys.len() == icons.len(),
        0 <= i <= keys.len(),
        forall|j: int| i <= j < keys.len() ==> keys[j] != k,
    ensures
        map_of_pairs(keys, icons).contains_key(k) == map_of_pairs(
            keys.subrange(0, i),
            icons.subrange(0, i),
        ).contains_key(k),
        map_of_pairs(keys, icons).contains_key(k) ==> map_of_pairs(keys, icons)[k] == map_of_pairs(
            keys.subrange(0, i),
            icons.subrange(0, i),
        )[k],
    decreases keys.len() - i,
{
    if i == keys.len() {
        assert(keys.subrange(0, i) =~= keys);
        assert(icons.subrange(0, i) =~= icons);
    } else {
        let n = keys.len();
        lemma_map_of_pairs_prefix(keys.drop_last(), icons.drop_last(), i, k);
        assert(keys.drop_last().subrange(0, i) =~= keys.subrange(0, i));
        assert(icons.drop_last().subrange(0, i) =~= icons.subrange(0, i));
        assert(keys[n - 1] != k);
    }
}

impl IconIndex {
    /// An index without entries.
    pub fn new() -> (r: IconIndex)
        ensures
            r.wf(),
            r@ == Map::<Seq<char>, Seq<char>>::empty(),
    {
        IconIndex { keys: Vec::new(), icons: Vec::new() }
    }

    /// Each key has its icon.
    pub closed spec fn wf(&self) -> bool {
        self.keys@.len() == self.icons@.len()
    }

    /// Maps `key` to `icon`, replacing what it was mapped to.
    pub fn insert(&mut self, key: &str, icon: &str)
        requires
            old(self).wf(),
        ensures
            final(self).wf(),
            final(self)@ == old(self)@.insert(key@, icon@),
    {
        let ghost ks = self.keys@.map_values(|k: Vec<char>| k@);
        let ghost vs = self.icons@.map_values(|v: String| v@);
        let kc = chars_of(key);
        let ic = string_of(chars_of(icon).as_slice());
        self.keys.push(kc);
        self.icons.push(ic);
        proof {
            lemma_map_of_pairs_push(ks, vs, key@, icon@);
            assert(self.keys@.map_values(|k: Vec<char>| k@) =~= ks.push(key@));
            assert(self.icons@.map_values(|v: String| v@) =~= vs.push(icon@));
        }
    }

    /// The icon name that `key` maps to.
    pub fn get(&self, key: &str) -> (r: Option<String>)
        requires
            self.wf(),
        ensures
            r is Some <==> self@.contains_key(key@),
            r matches Some(v) ==> v@ == self@[key@],
    {
        let ghost ks = self.keys@.map_values(|k: Vec<char>| k@);
        let ghost vs = self.icons@.map_values(|v: String| v@);
        let kc = chars_of(key);
        let mut i: usize = self.keys.len();
        while i > 0
            invariant
                self.wf(),
                ks == self.keys@.map_values(|k: Vec<char>| k@),
                vs == self.icons@.map_values(|v: String| v@),
                kc@ == key@,
                i <= self.keys@.len(),
                forall|j: int| i <= j < ks.len() ==> ks[j] != key@,
            decreases i,
        {
            if chars_equal(self.keys[i - 1].as_slice(), kc.as_slice()) {
                proof {
                    lemma_map_of_pairs_prefix(ks, vs, i as int, key@);
                    let pk = ks.subrange(0, i as int);
                    let pv = vs.subrange(0, i as int);
                    assert(pk.drop_last() =~= ks.subrange(0, i - 1));
                    assert(pv.drop_last() =~= vs.subrange(0, i - 1));
                    assert(pk.last() == key@);
                }
                return Some(self.icons[i - 1].clone());
            }
            i = i - 1;
        }
        proof {
            lemma_map_of_pairs_prefix(ks, vs, 0, key@);
        }
        None
    }
}

/// `s` with each repeated item dropped after its first occurrence.
pub open spec fn dedup_names(s: Seq<Seq<char>>) -> Seq<Seq<char>>
    decreases s.len(),
{
    if s.len() == 0 {
        seq![]
    } else if s.drop_last().contains(s.last()) {
        dedup_names(s.drop_last())
    } else {
        dedup_names(s.drop_last()).push(s.last())
    }
}

/// The icon name that the index gives a class: under the class as written,
/// else under the class in lower case.
pub open spec fn mapped_icon(index: Map<Seq<char>, Seq<char>>, class: Seq<char>) -> Option<Seq<char>> {
    if index.contains_key(class) {
        Some(index[class])
    } else if index.contains_key(lower_of(class)) {
        Some(index[lower_of(class)])
    } else {
        None
    }
}

/// The names tried, in order, for a window class: the icon name that the
/// index gives it, if any, then the class as written, then in lower case;
/// each name once.
pub open spec fn icon_candidates_of(index: Map<Seq<char>, Seq<char>>, class: Seq<char>) -> Seq<
    Seq<char>,
> {
    let base = seq![class, lower_of(class)];
    match mapped_icon(index, class) {
        Some(m) => dedup_names(seq![m] + base),
        None => dedup_names(base),
    }
}

/// Appends `name` to `out` unless `out` holds it already.
fn push_new_name(out: &mut Vec<String>, name: String)
    ensures
        final(out)@.map_values(|s: String| s@) == (if old(out)@.map_values(|s: String| s@).contains(
            name@,
        ) {
            old(out)@.map_values(|s: String| s@)
        } else {
            old(out)@.map_values(|s: String| s@).push(name@)
        }),
{
    let ghost before = out@.map_values(|s: String| s@);
    let mut i: usize = 0;
    while i < out.len()
        invariant
            before == out@.map_values(|s: String| s@),
            i <= out@.len(),
            forall|j: int| 0 <= j < i ==> before[j] != name@,
        decreases out@.len() - i,
    {
        if out[i] == name {
            assert(before[i as int] == name@);
            return;
        }
        i = i + 1;
    }
    out.push(name);
    assert(out@.map_values(|s: String| s@) =~= before.push(name@));
}

proof fn lemma_dedup_contains(s: Seq<Seq<char>>)
    ensures
        forall|x: Seq<char>| dedup_names(s).contains(x) <==> s.contains(x),
    decreases s.len(),
{
    if s.len() > 0 {
        let pre = s.drop_last();
        lemma_dedup_contains(pre);
        assert(pre.push(s.last()) =~= s);
        assert forall|x: Seq<char>| s.contains(x) <==> (pre.contains(x) || x == s.last()) by {
            if s.contains(x) {
                let k = choose|k: int| 0 <= k < s.len() && s[k] == x;
                if k < pre.len() {
                    assert(pre[k] == x);
                }
            }
            if pre.contains(x) {
                let k = choose|k: int| 0 <= k < pre.len() && pre[k] == x;
                assert(s[k] == x);
            }
            if x == s.last() {
                assert(s[s.len() - 1] == x);
            }
        }
        let d = dedup_names(pre);
        assert forall|x: Seq<char>| d.push(s.last()).contains(x) <==> (d.contains(x) || x == s.last()) by {
            if d.push(s.last()).contains(x) {
                let k = choose|k: int| 0 <= k < d.push(s.last()).len() && d.push(s.last())[k] == x;
                if k < d.len() {
                    assert(d[k] == x);
                }
            }
            if d.contains(x) {
                let k = choose|k: int| 0 <= k < d.len() && d[k] == x;
                assert(d.push(s.last())[k] == x);
            }
            if x == s.last() {
                assert(d.push(s.last())[d.len() as int] == x);
            }
        }
    }
}

/// One step of `dedup_names` along a prefix of `s`.
proof fn lemma_dedup_step(s: Seq<Seq<char>>, k: int)
    requires
        0 <= k < s.len(),
    ensures
        dedup_names(s.subrange(0, k + 1)) == (if dedup_names(s.subrange(0, k)).contains(s[k]) {
            dedup_names(s.subrange(0, k))
        } else {
            dedup_names(s.subrange(0, k)).push(s[k])
        }),
{
    let t = s.subrange(0, k + 1);
    assert(t.drop_last() =~= s.subrange(0, k));
    assert(t.last() == s[k]);
    lemma_dedup_contains(s.subrange(0, k));
}

/// The names tried, in order, for a window class (see `icon_candidates_of`).
pub fn icon_candidates(index: &IconIndex, class: &str) -> (r: Vec<String>)
    requires
        index.wf(),
    ensures
        r@.map_values(|s: String| s@) == icon_candidates_of(index@, class@),
{
    let lower = lowercase(class);
    let mapped = match index.get(class) {
        Some(m) => Some(m),
        None => index.get(lower.as_str()),
    };
    assert(mapped is Some <==> mapped_icon(index@, class@) is Some);
    assert(mapped matches Some(m) ==> m@ == mapped_icon(index@, class@)->0);
    let mut out: Vec<String> = Vec::new();
    assert(out@.map_values(|s: String| s@) =~= Seq::<Seq<char>>::empty());
    let ghost base = seq![class@, lower_of(class@)];
    let ghost full = match mapped_icon(index@, class@) {
        Some(m) => seq![m] + base,
        None => base,
    };
    let ghost mut done: int = 0;
    match mapped {
        Some(m) => {
            push_new_name(&mut out, m);
            proof {
                done = 1;
                assert(full.subrange(0, 0) =~= Seq::<Seq<char>>::empty());
                lemma_dedup_step(full, 0);
                assert(full[0] == m@);
            }
        },
        None => {
            assert(full.subrange(0, 0) =~= Seq::<Seq<char>>::empty());
        },
    }
    proof {
        assert(full[done] == class@);
        lemma_dedup_step(full, done);
    }
    push_new_name(&mut out, class.to_owned());
    proof {
        assert(full[done + 1] == lower_of(class@));
        lemma_dedup_step(full, done + 1);
    }
    push_new_name(&mut out, lower);
    proof {
        assert(full.subrange(0, done + 2) =~= full);
    }
    out
}

/// The file format of a themed icon.
#[derive(Debug, Clone, Copy, PartialEq, Eq, Structural)]
pub enum IconFormat {
    Png,
    Svg,
    Xpm,
}

/// A file that an icon theme holds for an icon name: its path, as text,
/// and its format.
#[derive(Debug, Clone)]
pub struct ThemedIcon {
    pub path: String,
    pub format: IconFormat,
}

/// The size of the icons looked for.
pub const ICON_SIZE: u16 = 48;

/// The scale of the icons looked for.
pub const ICON_SCALE: u16 = 1;

/// Whether a themed icon is in a format that is used (vector or PNG).
pub open spec fn usable_format(f: IconFormat) -> bool {
    f == IconFormat::Png || f == IconFormat::Svg
}

/// The file extension of a format.
pub open spec fn format_extension(f: IconFormat) -> Seq<char> {
    match f {
        IconFormat::Png => "png"@,
        IconFormat::Svg => "svg"@,
        IconFormat::Xpm => "xpm"@,
    }
}

/// `path` names the file of icon `name` in format `f`: it ends with the
/// name, a dot and the format's extension.
pub open spec fn icon_file_for(path: Seq<char>, name: Seq<char>, f: IconFormat) -> bool {
    let tail = name + "."@ + format_extension(f);
    path.len() >= tail.len() && path.subrange(path.len() - tail.len(), path.len() as int) == tail
}

/// Whether a format is used (vector or PNG).
pub fn is_usable_format(f: IconFormat) -> (r: bool)
    ensures
        r == usable_format(f),
{
    f == IconFormat::Png || f == IconFormat::Svg
}

/// Relies on `linicon::lookup_icon`, which yields, in the theme `theme` and
/// then the themes it inherits from, the files `<dir>/<name>.svg`, `.png`
/// or `.xpm` of the given size and scale that exist on disk, each with the
/// format of its extension; entries that failed to load are skipped, and
/// the search stops at the first file that `is_usable_format` accepts. A
/// path that is not valid UTF-8 has its invalid bytes replaced, which leaves
/// the file-name part as it was.
#[verifier::external_body]
fn first_theme_icon(theme: &str, name: &str, size: u16, scale: u16) -> (r: Option<ThemedIcon>)
    ensures
        r matches Some(t) ==> usable_format(t.format) && icon_file_for(t.path@, name@, t.format),
{
    linicon::lookup_icon(name).from_theme(theme).with_size(size).with_scale(scale).filter_map(
        |found| found.ok(),
    ).map(
        |icon| ThemedIcon {
            path: icon.path.to_string_lossy().into_owned(),
            format: match icon.icon_type {
                linicon::IconType::PNG => IconFormat::Png,
                linicon::IconType::SVG => IconFormat::Svg,
                linicon::IconType::XMP => IconFormat::Xpm,
            },
        },
    ).find(|icon| is_usable_format(icon.format))
}

/// Relies on `std::path::Path::exists`: whether the file system holds the
/// path at the time of the call.
#[verifier::external_body]
fn path_exists(name: &str) -> (r: bool) {
    std::path::Path::new(name).exists()
}

/// The choice among the outcomes of a themed lookup: `hit` (an existing
/// absolute path) if there is one, else the file found in the theme in use,
/// else the one found in the fallback theme.
pub open spec fn themed_pick(
    hit: Option<String>,
    in_theme: Option<ThemedIcon>,
    fallback: Option<ThemedIcon>,
) -> Option<Seq<char>> {
    if hit is Some {
        Some(hit->0@)
    } else if in_theme is Some {
        Some(in_theme->0.path@)
    } else if fallback is Some {
        Some(fallback->0.path@)
    } else {
        None
    }
}

/// A file that the theme lookup may give for `name`: a usable file of it.
pub open spec fn theme_file_of(t: Option<ThemedIcon>, name: Seq<char>) -> bool {
    t matches Some(f) ==> usable_format(f.format) && icon_file_for(f.path@, name, f.format)
}

/// What a themed lookup of `name` gives, whatever the disk holds: the choice
/// of `themed_pick` where the hit is the name itself, and only where it is
/// an absolute path, and where each theme gives a usable file of the name.
pub open spec fn themed_outcome(name: Seq<char>, r: Option<Seq<char>>) -> bool {
    exists|h: Option<String>, t: Option<ThemedIcon>, f: Option<ThemedIcon>|
        (h is Some ==> h->0@ == name && name.len() > 0 && name[0] == '/') && theme_file_of(t, name)
            && theme_file_of(f, name) && r == #[trigger] themed_pick(h, t, f)
}

/// What a found path is: the name itself where it is absolute, or a file of
/// the name in a usable format.
pub open spec fn found_for(p: Seq<char>, name: Seq<char>) -> bool {
    (p == name && name.len() > 0 && name[0] == '/') || exists|f: IconFormat|
        usable_format(f) && #[trigger] icon_file_for(p, name, f)
}

/// Every found path is one of the two kinds of `found_for`.
pub proof fn lemma_themed_outcome_found(name: Seq<char>, r: Option<Seq<char>>)
    requires
        themed_outcome(name, r),
    ensures
        r matches Some(p) ==> found_for(p, name),
{
    let (h, t, f) = choose|h: Option<String>, t: Option<ThemedIcon>, f: Option<ThemedIcon>|
        (h is Some ==> h->0@ == name && name.len() > 0 && name[0] == '/') && theme_file_of(t, name)
            && theme_file_of(f, name) && r == #[trigger] themed_pick(h, t, f);
    if h is None && t is Some {
        assert(icon_file_for(t->0.path@, name, t->0.format));
    } else if h is None && t is None && f is Some {
        assert(icon_file_for(f->0.path@, name, f->0.format));
    }
}

/// Chooses the icon file among the outcomes of a themed lookup (see
/// `themed_pick`).
pub fn pick_themed_icon(hit: Option<String>, in_theme: Option<ThemedIcon>, fallback: Option<ThemedIcon>) -> (r:
    Option<String>)
    ensures
        (match r {
            Some(p) => Some(p@),
            None => None,
        }) == themed_pick(hit, in_theme, fallback),
{
    match hit {
        Some(h) => Some(h),
        None => match in_theme {
            Some(t) => Some(t.path),
            None => match fallback {
                Some(f) => Some(f.path),
                None => None,
            },
        },
    }
}

/// The text of an optional path.
pub open spec fn opt_text(o: Option<String>) -> Option<Seq<char>> {
    match o {
        Some(p) => Some(p@),
        None => None,
    }
}

/// Whether an icon name is an absolute file path.
pub fn is_absolute_name(name: &str) -> (r: bool)
    ensures
        r == (name@.len() > 0 && name@[0] == '/'),
{
    let c = chars_of(name);
    c.len() > 0 && c[0] == '/'
}

/// Looks for an icon file for `name`: the name itself where it is an
/// absolute path that exists, else the first vector or PNG file of the
/// preferred size in the theme `theme`, then in the universal fallback
/// theme. The fallback theme is only searched where the first gives nothing.
pub fn find_in_theme(name: &str, theme: &str) -> (r: Option<String>)
    ensures
        themed_outcome(name@, opt_text(r)),
        r matches Some(p) ==> found_for(p@, name@),
{
    let hit = if is_absolute_name(name) && path_exists(name) {
        Some(name.to_owned())
    } else {
        None
    };
    let in_theme = if hit.is_some() {
        None
    } else {
        first_theme_icon(theme, name, ICON_SIZE, ICON_SCALE)
    };
    let fallback = if hit.is_some() || in_theme.is_some() {
        None
    } else {
        first_theme_icon("hicolor", name, ICON_SIZE, ICON_SCALE)
    };
    let ghost (h, t, f) = (hit, in_theme, fallback);
    let r = pick_themed_icon(hit, in_theme, fallback);
    proof {
        assert((h is Some ==> h->0@ == name@ && name@.len() > 0 && name@[0] == '/') && theme_file_of(
            t,
            name@,
        ) && theme_file_of(f, name@) && opt_text(r) == themed_pick(h, t, f));
        lemma_themed_outcome_found(name@, opt_text(r));
    }
    r
}

/// The first outcome of `found` that holds a path.
pub open spec fn first_some(found: Seq<Option<Seq<char>>>) -> Option<Seq<char>>
    decreases found.len(),
{
    if found.len() == 0 {
        None
    } else if found[0] is Some {
        found[0]
    } else {
        first_some(found.drop_first())
    }
}

proof fn lemma_first_some_none(found: Seq<Option<Seq<char>>>)
    ensures
        first_some(found) is None <==> forall|j: int| 0 <= j < found.len() ==> found[j] is None,
    decreases found.len(),
{
    if found.len() > 0 {
        let rest = found.drop_first();
        lemma_first_some_none(rest);
        assert forall|j: int| 0 <= j < rest.len() implies rest[j] == found[j + 1] by {}
        if forall|j: int| 0 <= j < found.len() ==> found[j] is None {
            assert forall|j: int| 0 <= j < rest.len() implies rest[j] is None by {
                assert(found[j + 1] is None);
            }
        }
        if first_some(found) is None {
            assert forall|j: int| 0 <= j < found.len() implies found[j] is None by {
                if j > 0 {
                    assert(rest[j - 1] == found[j]);
                }
            }
        }
    }
}

/// The first outcome that holds a path (see `first_some`).
pub fn first_found(found: &Vec<Option<String>>) -> (r: Option<String>)
    ensures
        opt_text(r) == first_some(found@.map_values(|o: Option<String>| opt_text(o))),
{
    let ghost fs = found@.map_values(|o: Option<String>| opt_text(o));
    let mut i: usize = 0;
    assert(fs.subrange(0, fs.len() as int) =~= fs);
    while i < found.len()
        invariant
            fs == found@.map_values(|o: Option<String>| opt_text(o)),
            i <= found@.len(),
            first_some(fs) == first_some(fs.subrange(i as int, fs.len() as int)),
        decreases found@.len() - i,
    {
        let ghost rest = fs.subrange(i as int, fs.len() as int);
        assert(rest[0] == opt_text(found@[i as int]));
        if found[i].is_some() {
            return found[i].clone();
        }
        assert(rest.drop_first() =~= fs.subrange(i + 1, fs.len() as int));
        i = i + 1;
    }
    None
}

/// Resolves the icon file of a window class: tries the names of
/// `icon_candidates` in order, each with `find_in_theme`, and returns the
/// first path found; it stops at the first name that gives one, and gives
/// nothing only where every name was tried in vain. A found path is thus
/// one of the kinds of `found_for` for some candidate name.
pub fn lookup_icon(index: &IconIndex, theme: &str, app_class: &str) -> (r: Option<String>)
    requires
        index.wf(),
    ensures
        exists|found: Seq<Option<Seq<char>>>|
            found.len() <= icon_candidates_of(index@, app_class@).len() && (forall|j: int|
                0 <= j < found.len() ==> themed_outcome(
                    icon_candidates_of(index@, app_class@)[j],
                    #[trigger] found[j],
                )) && (r is None ==> found.len() == icon_candidates_of(index@, app_class@).len())
                && opt_text(r) == first_some(found),
        r matches Some(p) ==> exists|j: int|
            0 <= j < icon_candidates_of(index@, app_class@).len() && found_for(
                p@,
                #[trigger] icon_candidates_of(index@, app_class@)[j],
            ),
{
    let names = icon_candidates(index, app_class);
    let ghost cands = icon_candidates_of(index@, app_class@);
    let n = names.len();
    let mut found: Vec<Option<String>> = Vec::new();
    let mut done = false;
    let mut i: usize = 0;
    while i < n && !done
        invariant
            n == names@.len(),
            cands == names@.map_values(|s: String| s@),
            i <= n,
            found@.len() == i,
            forall|j: int| 0 <= j < i ==> themed_outcome(cands[j], opt_text(#[trigger] found@[j])),
            forall|j: int| 0 <= j < i ==> (#[trigger] found@[j] matches Some(p) ==> found_for(p@, cands[j])),
            !done ==> forall|j: int| 0 <= j < i ==> (#[trigger] found@[j]) is None,
            done ==> i > 0 && found@[i - 1] is Some,
        decreases n - i,
    {
        let o = find_in_theme(names[i].as_str(), theme);
        if o.is_some() {
            done = true;
        }
        found.push(o);
        i = i + 1;
    }
    let r = first_found(&found);
    proof {
        let fs = found@.map_values(|o: Option<String>| opt_text(o));
        lemma_first_some_none(fs);
        assert forall|j: int| 0 <= j < fs.len() implies themed_outcome(cands[j], #[trigger] fs[j]) by {
            assert(fs[j] == opt_text(found@[j]));
        }
        if r is None {
            assert forall|j: int| 0 <= j < found@.len() implies found@[j] is None by {
                assert(fs[j] is None);
            }
            assert(!done);
            assert(i == n);
        }
        lemma_first_some_at(fs);
        if r is Some {
            let j = choose|j: int| 0 <= j < fs.len() && fs[j] == first_some(fs);
            assert(fs[j] == opt_text(found@[j]));
            assert(found_for(r->0@, cands[j]));
        }
    }
    r
}

proof fn lemma_first_some_at(found: Seq<Option<Seq<char>>>)
    ensures
        first_some(found) is Some ==> exists|j: int| 0 <= j < found.len() && found[j] == first_some(found),
    decreases found.len(),
{
    if found.len() > 0 && found[0] is None {
        let rest = found.drop_first();
        lemma_first_some_at(rest);
        if first_some(found) is Some {
            let j = choose|j: int| 0 <= j < rest.len() && rest[j] == first_some(rest);
            assert(found[j + 1] == rest[j]);
        }
    } else if found.len() > 0 {
        assert(found[0] == first_some(found));
    }
}

} // verus!
