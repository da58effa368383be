//! The window sensor's decisions: membership of the window list, the events
//! that a change of it gives, and the record of each window.
use vstd::prelude::*;
use crate::filter::should_skip_window;
use crate::filter::skip_rule;
use crate::model::Atoms;
use crate::model::RawIcon;
use crate::model::SensorEvent;
use crate::model::WindowIcon;
use crate::model::WindowInfo;
use crate::property::PropertyError;
use crate::text::chars_of;
use crate::text::lower_of;
use crate::text::string_of;
use std::collections::HashSet;
use vstd::slice::slice_subrange;

verus! {

broadcast use vstd::std_specs::hash::group_hash_axioms;

/// The ids of `list` that `known` lacks, each once, in list order.
pub open spec fn new_ids(known: Set<u32>, list: Seq<u32>) -> Seq<u32>
    decreases list.len(),
{
    if list.len() == 0 {
        seq![]
    } else {
        let prev = new_ids(known, list.drop_last());
        let x = list.last();
        if known.contains(x) || list.drop_last().contains(x) {
            prev
        } else {
            prev.push(x)
        }
    }
}

/// Whether the filter leaves a window out.
pub open spec fn skipped(info: WindowInfo) -> bool {
    skip_rule(info.title@, info.class@, lower_of(info.class@))
}

/// The open events for the records of newly listed windows: one per record
/// that the filter lets through, in order.
pub open spec fn open_events(records: Seq<WindowInfo>) -> Seq<SensorEvent>
    decreases records.len(),
{
    if records.len() == 0 {
        seq![]
    } else {
        let prev = open_events(records.drop_last());
        if skipped(records.last()) {
            prev
        } else {
            prev.push(SensorEvent::WindowOpen(records.last()))
        }
    }
}

/// One close event per id, in order.
pub open spec fn close_events(ids: Seq<u32>) -> Seq<SensorEvent>
    decreases ids.len(),
{
    if ids.len() == 0 {
        seq![]
    } else {
        close_events(ids.drop_last()).push(SensorEvent::WindowClose(ids.last()))
    }
}

/// The windows that a change of the window list opened and closed.
#[derive(Debug, Clone)]
pub struct WindowListChange {
    pub opened: Vec<u32>,
    pub closed: Vec<u32>,
}

/// The sensor's own state: the set of ids of the window list as last
/// observed. Windows that the filter leaves out are tracked too, so that
/// their removal is seen.
pub struct Sensor {
    known: HashSet<u32>,
}

impl View for Sensor {
    type V = Set<u32>;

    closed spec fn view(&self) -> Set<u32> {
        self.known@
    }
}

impl Sensor {
    /// A sensor that knows no window yet.
    pub fn new() -> (s: Sensor)
        ensures
            s@ == Set::<u32>::empty(),
    {
        Sensor { known: HashSet::new() }
    }

    /// Whether the window `id` is known.
    pub fn is_known(&self, id: u32) -> (r: bool)
        ensures
            r == self@.contains(id),
    {
        self.known.contains(&id)
    }

    /// The ids known, each once, in no particular order.
    pub fn known_windows(&self) -> (r: Vec<u32>)
        ensures
            r@.no_duplicates(),
            r@.to_set() == self@,
    {
        let none: Vec<u32> = Vec::new();
        let r = ids_not_in(&self.known, &none);
        assert(self@.difference(none@.to_set()) =~= self@);
        r
    }

    /// Takes in the window list as it now stands. Ids that were not known are
    /// opened (in list order, each once), known ids that the list lacks are
    /// closed (each once, in no particular order), and the known set becomes
    /// the list's.
    pub fn apply_window_list(&mut self, current: &Vec<u32>) -> (d: WindowListChange)
        ensures
            final(self)@ == current@.to_set(),
            d.opened@ == new_ids(old(self)@, current@),
            d.closed@.no_duplicates(),
            d.closed@.to_set() == old(self)@.difference(current@.to_set()),
    {
        let ghost before = self@;
        let closed = ids_not_in(&self.known, current);
        let m = current.len();
        let mut opened: Vec<u32> = Vec::new();
        let mut next: HashSet<u32> = HashSet::new();
        let mut j: usize = 0;
        assert(current@.subrange(0, 0).to_set() =~= Set::<u32>::empty());
        while j < m
            invariant
                m == current@.len(),
                self@ == before,
                j <= m,
                opened@ == new_ids(before, current@.subrange(0, j as int)),
                next@ == current@.subrange(0, j as int).to_set(),
            decreases m - j,
        {
            let id = current[j];
            let ghost pre = current@.subrange(0, j as int);
            let ghost now = current@.subrange(0, j + 1);
            assert(now.drop_last() =~= pre);
            assert(now.last() == current@[j as int]);
            assert(now =~= pre.push(id));
            let seen_before = self.known.contains(&id);
            let seen_in_list = contains_id_prefix(current, j, id);
            if !seen_before && !seen_in_list {
                opened.push(id);
            }
            next.insert(id);
            proof {
                lemma_push_contains(pre, id);
                assert(next@ =~= now.to_set());
            }
            j = j + 1;
        }
        assert(current@.subrange(0, m as int) =~= current@);
        self.known = next;
        WindowListChange { opened, closed }
    }
}

/// The ids of `known` that `current` lacks, each once, in no particular
/// order.
fn ids_not_in(known: &HashSet<u32>, current: &Vec<u32>) -> (r: Vec<u32>)
    ensures
        r@.no_duplicates(),
        r@.to_set() == known@.difference(current@.to_set()),
{
    let mut r: Vec<u32> = Vec::new();
    let ghost mut visited: Seq<u32> = Seq::empty();
    for k in it: known.iter()
        invariant
            it.seq().unref().no_duplicates(),
            it.seq().unref().to_set() == known@,
            visited == it.seq().unref().subrange(0, it.index() as int),
            forall|x: u32| r@.contains(x) <==> (visited.contains(x) && !current@.contains(x)),
            it.index() == it.seq().len() ==> visited.to_set() == known@,
            r@.no_duplicates(),
    {
        let ghost s = it.seq().unref();
        let ghost i0 = it.index() as int;
        assert(s[i0] == *k);
        let ghost before = r@;
        let ghost vis0 = visited;
        proof {
            if s.subrange(0, i0).contains(*k) {
                let j = choose|j: int| 0 <= j < i0 && s.subrange(0, i0)[j] == *k;
                assert(s[j] == s[i0]);
            }
            assert(!before.contains(*k));
        }
        if !contains_id(current, *k) {
            r.push(*k);
        }
        proof {
            visited = visited.push(*k);
            let t = s.subrange(0, i0 + 1);
            assert(visited =~= t);
            if i0 + 1 == s.len() {
                assert(t =~= s);
            }
            if r@.len() > before.len() {
                lemma_push_no_dup(before, *k);
                assert(r@ == before.push(*k));
            } else {
                assert(r@ == before);
            }
            lemma_push_contains(vis0, *k);
            if r@.len() > before.len() {
                lemma_push_contains(before, *k);
            }
            assert(vis0 == s.subrange(0, i0));
            assert forall|x: u32| r@.contains(x) <==> (visited.contains(x) && !current@.contains(x)) by {
                assert(before.contains(x) <==> (vis0.contains(x) && !current@.contains(x)));
            }
        }
    }
    proof {
        assert forall|x: u32|
            r@.to_set().contains(x) <==> known@.difference(current@.to_set()).contains(x) by {
            assert(r@.to_set().contains(x) == r@.contains(x));
            assert(visited.to_set().contains(x) == visited.contains(x));
            assert(current@.to_set().contains(x) == current@.contains(x));
        }
        assert(r@.to_set() =~= known@.difference(current@.to_set()));
    }
    r
}

/// What the sensor does on a protocol event: read the window list again
/// and diff it, and/or read the active window again.
#[derive(Debug, Clone, Copy, PartialEq, Eq, Structural)]
pub struct SensorAction {
    pub refresh_window_list: bool,
    pub refresh_focus: bool,
}

/// The step for a protocol event. `changed_property` is the property that a
/// property-change notification on the root window names, and nothing for
/// any other kind of event, which is ignored.
pub fn action_for_event(atoms: &Atoms, changed_property: Option<u32>) -> (a: SensorAction)
    ensures
        a.refresh_window_list == (changed_property == Some(atoms.client_list)),
        a.refresh_focus == (changed_property == Some(atoms.active_window)),
{
    match changed_property {
        Some(p) => SensorAction {
            refresh_window_list: p == atoms.client_list,
            refresh_focus: p == atoms.active_window,
        },
        None => SensorAction { refresh_window_list: false, refresh_focus: false },
    }
}

/// The event for a newly listed window, unless the filter leaves it out.
pub fn open_event(info: WindowInfo) -> (r: Option<SensorEvent>)
    ensures
        skipped(info) ==> r is None,
        !skipped(info) ==> r == Some(SensorEvent::WindowOpen(info)),
{
    if should_skip_window(&info) {
        None
    } else {
        Some(SensorEvent::WindowOpen(info))
    }
}

/// The events of a change of the window list: an open event for each record
/// of a newly listed window that the filter lets through, in order, then a
/// close event for each id that left the list, whether or not it was ever
/// reported open.
pub fn transition_events(records: Vec<WindowInfo>, closed: &Vec<u32>) -> (r: Vec<SensorEvent>)
    ensures
        r@ == open_events(records@) + close_events(closed@),
{
    let ghost all = records@;
    let n = records.len();
    let mut rest = records;
    let mut events: Vec<SensorEvent> = Vec::new();
    let mut i: usize = 0;
    while i < n
        invariant
            n == all.len(),
            i <= n,
            rest@ == all.subrange(i as int, n as int),
            events@ == open_events(all.subrange(0, i as int)),
        decreases n - i,
    {
        assert(rest@[0] == all[i as int]);
        let info = rest.remove(0);
        assert(all.subrange(0, i + 1).drop_last() =~= all.subrange(0, i as int));
        assert(all.subrange(0, i + 1).last() == all[i as int]);
        let ev = open_event(info);
        match ev {
            Some(e) => {
                events.push(e);
            },
            None => {},
        }
        i = i + 1;
        assert(rest@ =~= all.subrange(i as int, n as int));
    }
    assert(all.subrange(0, n as int) =~= all);
    let ghost opens = events@;
    let m = closed.len();
    let mut j: usize = 0;
    while j < m
        invariant
            m == closed@.len(),
            j <= m,
            events@ == opens + close_events(closed@.subrange(0, j as int)),
        decreases m - j,
    {
        assert(closed@.subrange(0, j + 1).drop_last() =~= closed@.subrange(0, j as int));
        assert(closed@.subrange(0, j + 1).last() == closed@[j as int]);
        events.push(SensorEvent::WindowClose(closed[j]));
        j = j + 1;
        assert(events@ =~= opens + close_events(closed@.subrange(0, j as int)));
    }
    assert(closed@.subrange(0, m as int) =~= closed@);
    events
}

/// The event for a change of the active window: the first id of the
/// property, if it holds any.
pub fn focus_event(active: &Vec<u32>) -> (r: Option<SensorEvent>)
    ensures
        active@.len() == 0 ==> r is None,
        active@.len() > 0 ==> r == Some(SensorEvent::FocusChange(active@[0])),
{
    if active.len() == 0 {
        None
    } else {
        Some(SensorEvent::FocusChange(active[0]))
    }
}

/// The position of the first NUL character of `s`, or its length.
pub open spec fn first_nul(s: Seq<char>) -> int
    decreases s.len(),
{
    if s.len() == 0 {
        0
    } else if s[0] == '\0' {
        0
    } else {
        1 + first_nul(s.subrange(1, s.len() as int))
    }
}

/// The class name of a raw class property: NUL-terminated fields, instance
/// then class. The second field is taken; where there is none, the first.
pub open spec fn wm_class_name(raw: Seq<char>) -> Seq<char> {
    let p = first_nul(raw);
    let rest = raw.subrange(p + 1, raw.len() as int);
    if p < raw.len() && rest.len() > 0 {
        rest.subrange(0, first_nul(rest))
    } else {
        raw.subrange(0, p)
    }
}

proof fn lemma_first_nul(s: Seq<char>)
    ensures
        0 <= first_nul(s) <= s.len(),
        forall|k: int| 0 <= k < first_nul(s) ==> s[k] != '\0',
        first_nul(s) < s.len() ==> s[first_nul(s)] == '\0',
    decreases s.len(),
{
    if s.len() > 0 && s[0] != '\0' {
        let t = s.subrange(1, s.len() as int);
        lemma_first_nul(t);
        assert forall|k: int| 0 <= k < first_nul(s) implies s[k] != '\0' by {
            if k > 0 {
                assert(s[k] == t[k - 1]);
            }
        }
    }
}

/// The first NUL of `s` at or after `from`, or its length.
fn find_nul(s: &Vec<char>, from: usize) -> (r: usize)
    requires
        from <= s@.len(),
    ensures
        r as int == from + first_nul(s@.subrange(from as int, s@.len() as int)),
{
    let n = s.len();
    let ghost t = s@.subrange(from as int, n as int);
    proof {
        lemma_first_nul(t);
    }
    let mut i: usize = from;
    while i < n && s[i] != '\0'
        invariant
            n == s@.len(),
            from <= i <= n,
            forall|k: int| from <= k < i ==> s@[k] != '\0',
        decreases n - i,
    {
        i = i + 1;
    }
    proof {
        let f = first_nul(t);
        assert forall|k: int| 0 <= k < i - from implies t[k] != '\0' by {
            assert(t[k] == s@[from + k]);
        }
        if f < i - from {
            assert(t[f] == s@[from + f]);
        }
        if i - from < f {
            assert(t[i - from] == s@[i as int]);
        }
    }
    i
}

/// The class name of a raw class property (see `wm_class_name`).
pub fn parse_wm_class(raw: &str) -> (r: String)
    ensures
        r@ == wm_class_name(raw@),
{
    let s = chars_of(raw);
    let n = s.len();
    let p = find_nul(&s, 0);
    assert(s@.subrange(0, n as int) =~= s@);
    if p < n && p + 1 < n {
        let q = find_nul(&s, p + 1);
        let ghost rest = s@.subrange(p + 1, n as int);
        proof {
            lemma_first_nul(rest);
        }
        assert(s@.subrange(p + 1, q as int) =~= rest.subrange(0, first_nul(rest)));
        string_of(slice_of(&s, p + 1, q))
    } else {
        proof {
            lemma_first_nul(s@);
        }
        string_of(slice_of(&s, 0, p))
    }
}

/// `s[from..to]`.
fn slice_of(s: &Vec<char>, from: usize, to: usize) -> (r: &[char])
    requires
        from <= to <= s@.len(),
    ensures
        r@ == s@.subrange(from as int, to as int),
{
    slice_subrange(s.as_slice(), from, to)
}

/// The class of a window from the reply to its class property: empty where
/// the read failed.
pub fn class_from_reply(raw: Result<String, PropertyError>) -> (r: String)
    ensures
        raw is Ok ==> r@ == wm_class_name(raw->Ok_0@),
        raw is Err ==> r@.len() == 0,
{
    match raw {
        Ok(s) => parse_wm_class(s.as_str()),
        Err(_) => String::new(),
    }
}

/// The title of a window: the UTF-8 title where it could be read, else the
/// legacy-encoded one, else `Unknown`.
pub fn window_title(utf8: Result<String, PropertyError>, legacy: Result<String, PropertyError>) -> (r:
    String)
    ensures
        utf8 is Ok ==> r@ == utf8->Ok_0@,
        utf8 is Err && legacy is Ok ==> r@ == legacy->Ok_0@,
        utf8 is Err && legacy is Err ==> r@ == "Unknown"@,
{
    match utf8 {
        Ok(t) => t,
        Err(_) => match legacy {
            Ok(t) => t,
            Err(_) => "Unknown".to_owned(),
        },
    }
}

/// Whether the bitmap of a window is to be read: only where no themed icon
/// file was found.
pub fn needs_embedded_icon(icon_path: &Option<String>) -> (r: bool)
    ensures
        r == icon_path.is_none(),
{
    icon_path.is_none()
}

/// The record of a window. The themed icon file wins; the bitmap counts
/// only where there is none.
pub fn window_info(
    xid: u32,
    title: String,
    class: String,
    icon_path: Option<String>,
    icon_data: Option<RawIcon>,
) -> (r: WindowInfo)
    ensures
        r.xid == xid,
        r.title == title,
        r.class == class,
        !r.is_active,
        icon_path matches Some(p) ==> r.icon == WindowIcon::Themed(p),
        icon_path is None && icon_data is Some ==> r.icon == WindowIcon::Embedded(icon_data->0),
        icon_path is None && icon_data is None ==> r.icon == WindowIcon::Missing,
{
    let icon = match icon_path {
        Some(p) => WindowIcon::Themed(p),
        None => match icon_data {
            Some(d) => WindowIcon::Embedded(d),
            None => WindowIcon::Missing,
        },
    };
    WindowInfo { xid, title, class, is_active: false, icon }
}

/// Whether some record with id `x` is let through by the filter.
pub open spec fn opens_id(records: Seq<WindowInfo>, x: u32) -> bool {
    exists|i: int| 0 <= i < records.len() && #[trigger] records[i].xid == x && !skipped(records[i])
}

/// The ids of the open events of `ev`, in order.
pub open spec fn opened_ids(ev: Seq<SensorEvent>) -> Seq<u32>
    decreases ev.len(),
{
    if ev.len() == 0 {
        seq![]
    } else {
        match ev.last() {
            SensorEvent::WindowOpen(info) => opened_ids(ev.drop_last()).push(info.xid),
            _ => opened_ids(ev.drop_last()),
        }
    }
}

/// The ids of the close events of `ev`, in order.
pub open spec fn closed_ids(ev: Seq<SensorEvent>) -> Seq<u32>
    decreases ev.len(),
{
    if ev.len() == 0 {
        seq![]
    } else {
        match ev.last() {
            SensorEvent::WindowClose(id) => closed_ids(ev.drop_last()).push(id),
            _ => closed_ids(ev.drop_last()),
        }
    }
}

proof fn lemma_ids_concat(a: Seq<SensorEvent>, b: Seq<SensorEvent>)
    ensures
        opened_ids(a + b) == opened_ids(a) + opened_ids(b),
        closed_ids(a + b) == closed_ids(a) + closed_ids(b),
    decreases b.len(),
{
    if b.len() == 0 {
        assert(a + b =~= a);
        assert(opened_ids(a) + opened_ids(b) =~= opened_ids(a));
        assert(closed_ids(a) + closed_ids(b) =~= closed_ids(a));
    } else {
        lemma_ids_concat(a, b.drop_last());
        assert((a + b).drop_last() =~= a + b.drop_last());
        assert((a + b).last() == b.last());
        assert(opened_ids(a) + opened_ids(b.drop_last()).push(0) =~= (opened_ids(a)
            + opened_ids(b.drop_last())).push(0));
        match b.last() {
            SensorEvent::WindowOpen(info) => {
                assert(opened_ids(a) + opened_ids(b.drop_last()).push(info.xid) =~= (opened_ids(a)
                    + opened_ids(b.drop_last())).push(info.xid));
            },
            SensorEvent::WindowClose(id) => {
                assert(closed_ids(a) + closed_ids(b.drop_last()).push(id) =~= (closed_ids(a)
                    + closed_ids(b.drop_last())).push(id));
            },
            _ => {},
        }
    }
}

proof fn lemma_close_events_ids(ids: Seq<u32>)
    ensures
        opened_ids(close_events(ids)) == Seq::<u32>::empty(),
        closed_ids(close_events(ids)) == ids,
        forall|i: int| 0 <= i < close_events(ids).len() ==> close_events(ids)[i] is WindowClose,
        close_events(ids).len() == ids.len(),
    decreases ids.len(),
{
    if ids.len() == 0 {
        assert(opened_ids(close_events(ids)) =~= Seq::<u32>::empty());
        assert(closed_ids(close_events(ids)) =~= ids);
    } else {
        lemma_close_events_ids(ids.drop_last());
        let ev = close_events(ids);
        assert(ev.drop_last() =~= close_events(ids.drop_last()));
        assert(ids.drop_last().push(ids.last()) =~= ids);
    }
}

proof fn lemma_open_events_ids(records: Seq<WindowInfo>)
    ensures
        closed_ids(open_events(records)) == Seq::<u32>::empty(),
        forall|i: int| 0 <= i < open_events(records).len() ==> open_events(records)[i] is WindowOpen,
        forall|x: u32| opened_ids(open_events(records)).contains(x) <==> opens_id(records, x),
        (forall|i: int, j: int|
            0 <= i < j < records.len() ==> records[i].xid != records[j].xid) ==> opened_ids(
            open_events(records),
        ).no_duplicates(),
    decreases records.len(),
{
    if records.len() == 0 {
        assert(closed_ids(open_events(records)) =~= Seq::<u32>::empty());
    } else {
        let pre = records.drop_last();
        let last = records.last();
        lemma_open_events_ids(pre);
        let ev = open_events(records);
        let pev = open_events(pre);
        assert forall|x: u32|
            #[trigger] opens_id(records, x) <==> (opens_id(pre, x) || (last.xid == x && !skipped(
                last,
            ))) by {
            if opens_id(records, x) {
                let i = choose|i: int| 0 <= i < records.len() && #[trigger] records[i].xid == x && !skipped(records[i]);
                if i < pre.len() {
                    assert(pre[i] == records[i]);
                }
            }
            if opens_id(pre, x) {
                let i = choose|i: int| 0 <= i < pre.len() && #[trigger] pre[i].xid == x && !skipped(pre[i]);
                assert(records[i] == pre[i]);
            }
            if last.xid == x && !skipped(last) {
                assert(records[records.len() - 1] == last);
            }
        }
        if skipped(last) {
            assert(ev == pev);
        } else {
            assert(ev.drop_last() =~= pev);
            assert(ev.last() == SensorEvent::WindowOpen(last));
            lemma_push_contains(opened_ids(pev), last.xid);
            assert(opened_ids(ev) == opened_ids(pev).push(last.xid));
            assert(closed_ids(ev) == closed_ids(pev));
            assert forall|i: int| 0 <= i < ev.len() implies ev[i] is WindowOpen by {
                if i < pev.len() {
                    assert(ev[i] == pev[i]);
                }
            }
            if forall|i: int, j: int|
                0 <= i < j < records.len() ==> records[i].xid != records[j].xid {
                assert forall|i: int, j: int|
                    0 <= i < j < pre.len() implies pre[i].xid != pre[j].xid by {
                    assert(pre[i] == records[i] && pre[j] == records[j]);
                }
                if opened_ids(pev).contains(last.xid) {
                    assert(opens_id(pre, last.xid));
                    let i = choose|i: int| 0 <= i < pre.len() && #[trigger] pre[i].xid == last.xid && !skipped(pre[i]);
                    assert(records[i] == pre[i]);
                    assert(records[records.len() - 1] == last);
                }
                lemma_push_no_dup(opened_ids(pev), last.xid);
            }
        }
    }
}

/// Over a change of the window list from the known ids `known` to the list
/// `list`, with `records` the records built for the ids that it opens, in
/// order, and `closed` the ids that it closes: the events open exactly the
/// ids of `list` that `known` lacks and that the filter lets through, and
/// close exactly the known ids that `list` lacks, each id once; every event
/// is an open or a close event.
pub proof fn lemma_transition_exact(
    known: Set<u32>,
    list: Seq<u32>,
    records: Seq<WindowInfo>,
    closed: Seq<u32>,
)
    requires
        records.len() == new_ids(known, list).len(),
        forall|i: int| 0 <= i < records.len() ==> records[i].xid == new_ids(known, list)[i],
        closed.no_duplicates(),
        closed.to_set() == known.difference(list.to_set()),
    ensures
        ({
            let ev = open_events(records) + close_events(closed);
            &&& opened_ids(ev).no_duplicates()
            &&& closed_ids(ev).no_duplicates()
            &&& forall|x: u32|
                opened_ids(ev).contains(x) <==> (list.contains(x) && !known.contains(x) && opens_id(
                    records,
                    x,
                ))
            &&& forall|x: u32| closed_ids(ev).contains(x) <==> (known.contains(x) && !list.contains(x))
            &&& forall|i: int| 0 <= i < ev.len() ==> (ev[i] is WindowOpen || ev[i] is WindowClose)
        }),
{
    let opens = open_events(records);
    let closes = close_events(closed);
    let ev = opens + closes;
    let fresh = new_ids(known, list);
    lemma_ids_concat(opens, closes);
    lemma_close_events_ids(closed);
    lemma_open_events_ids(records);
    lemma_new_ids_members(known, list);
    assert(opened_ids(ev) =~= opened_ids(opens));
    assert(closed_ids(ev) =~= closed_ids(closes));
    assert forall|i: int, j: int| 0 <= i < j < records.len() implies records[i].xid != records[j].xid by {
        assert(fresh[i] != fresh[j]);
    }
    assert forall|x: u32|
        opened_ids(ev).contains(x) implies list.contains(x) && !known.contains(x) by {
        assert(opened_ids(opens).contains(x));
        assert(opens_id(records, x));
        let i = choose|i: int| 0 <= i < records.len() && #[trigger] records[i].xid == x && !skipped(records[i]);
        assert(fresh[i] == x);
        assert(fresh.contains(x));
    }
    assert forall|x: u32| closed_ids(ev).contains(x) <==> (known.contains(x) && !list.contains(x)) by {
        assert(closed.to_set().contains(x) == closed.contains(x));
        assert(list.to_set().contains(x) == list.contains(x));
    }
    assert forall|i: int| 0 <= i < ev.len() implies (ev[i] is WindowOpen || ev[i] is WindowClose) by {
        if i < opens.len() {
            assert(ev[i] == opens[i]);
        } else {
            assert(ev[i] == closes[i - opens.len()]);
        }
    }
}

/// Whether `v` holds `id`.
fn contains_id(v: &Vec<u32>, id: u32) -> (r: bool)
    ensures
        r == v@.contains(id),
{
    let r = contains_id_prefix(v, v.len(), id);
    assert(v@.subrange(0, v@.len() as int) =~= v@);
    r
}

/// Whether the first `n` items of `v` hold `id`.
fn contains_id_prefix(v: &Vec<u32>, n: usize, id: u32) -> (r: bool)
    requires
        n <= v@.len(),
    ensures
        r == v@.subrange(0, n as int).contains(id),
{
    let mut i: usize = 0;
    while i < n
        invariant
            n <= v@.len(),
            i <= n,
            forall|k: int| 0 <= k < i ==> v@[k] != id,
        decreases n - i,
    {
        if v[i] == id {
            assert(v@.subrange(0, n as int)[i as int] == id);
            return true;
        }
        i = i + 1;
    }
    assert(forall|k: int| 0 <= k < n ==> v@.subrange(0, n as int)[k] != id);
    false
}

proof fn lemma_push_contains(s: Seq<u32>, x: u32)
    ensures
        forall|y: u32| s.push(x).contains(y) <==> (s.contains(y) || y == x),
{
    assert forall|y: u32| s.push(x).contains(y) <==> (s.contains(y) || y == x) by {
        if s.push(x).contains(y) {
            let k = choose|k: int| 0 <= k < s.push(x).len() && s.push(x)[k] == y;
            if k < s.len() {
                assert(s[k] == y);
            }
        }
        if s.contains(y) {
            let k = choose|k: int| 0 <= k < s.len() && s[k] == y;
            assert(s.push(x)[k] == y);
        }
        if y == x {
            assert(s.push(x)[s.len() as int] == y);
        }
    }
}

proof fn lemma_drop_last_contains(s: Seq<u32>)
    requires
        s.len() > 0,
    ensures
        forall|y: u32| s.contains(y) <==> (s.drop_last().contains(y) || y == s.last()),
{
    assert(s.drop_last().push(s.last()) =~= s);
    lemma_push_contains(s.drop_last(), s.last());
}

proof fn lemma_push_no_dup(s: Seq<u32>, x: u32)
    requires
        s.no_duplicates(),
        !s.contains(x),
    ensures
        s.push(x).no_duplicates(),
{
    let t = s.push(x);
    assert forall|i: int, j: int| 0 <= i < j < t.len() implies t[i] != t[j] by {
        if j == s.len() {
            assert(t[i] == s[i]);
            assert(s.contains(s[i]));
        } else {
            assert(t[i] == s[i] && t[j] == s[j]);
        }
    }
}

proof fn lemma_new_ids_members(known: Set<u32>, list: Seq<u32>)
    ensures
        new_ids(known, list).no_duplicates(),
        forall|x: u32| new_ids(known, list).contains(x) <==> (list.contains(x) && !known.contains(x)),
    decreases list.len(),
{
    if list.len() > 0 {
        let pre = list.drop_last();
        let prev = new_ids(known, pre);
        lemma_new_ids_members(known, pre);
        lemma_drop_last_contains(list);
        let x = list.last();
        if !(known.contains(x) || pre.contains(x)) {
            lemma_push_contains(prev, x);
            lemma_push_no_dup(prev, x);
        }
    }
}

} // verus!
