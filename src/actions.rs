//! Window-manager requests: the messages sent to the root window, and the
//! choice of the window that a title names.
use vstd::prelude::*;
use crate::property::PropertyError;

verus! {

/// A client message for the root window: its target window, its type atom
/// and its five 32-bit data words.
#[derive(Debug, Clone, Copy)]
pub struct ClientMessage {
    pub window: u32,
    pub message_type: u32,
    pub data: [u32; 5],
}

/// The action word that asks to add a state.
pub const STATE_ADD: u32 = 1;

/// The source word that marks a request from an application.
pub const SOURCE_APPLICATION: u32 = 1;

/// The message that asks the window manager to activate `window`, with the
/// current time as timestamp (0).
pub fn activate_message(window: u32, active_window_atom: u32) -> (m: ClientMessage)
    ensures
        m.window == window,
        m.message_type == active_window_atom,
        m.data@ == seq![1u32, 0u32, 0u32, 0u32, 0u32],
{
    let m = ClientMessage {
        window,
        message_type: active_window_atom,
        data: [SOURCE_APPLICATION, 0, 0, 0, 0],
    };
    assert(m.data@ =~= seq![1u32, 0u32, 0u32, 0u32, 0u32]);
    m
}

/// The message that asks the window manager to add the state `state` to
/// `window`.
pub fn add_state_message(window: u32, wm_state_atom: u32, state: u32) -> (m: ClientMessage)
    ensures
        m.window == window,
        m.message_type == wm_state_atom,
        m.data@ == seq![1u32, state, 0u32, 1u32, 0u32],
{
    let m = ClientMessage {
        window,
        message_type: wm_state_atom,
        data: [STATE_ADD, state, 0, SOURCE_APPLICATION, 0],
    };
    assert(m.data@ =~= seq![1u32, state, 0u32, 1u32, 0u32]);
    m
}

/// The messages that keep `window` out of the taskbar and the pager: the
/// skip-taskbar state, then the skip-pager state.
pub fn skip_taskbar_messages(window: u32, wm_state_atom: u32, skip_taskbar: u32, skip_pager: u32) -> (r:
    Vec<ClientMessage>)
    ensures
        r@.len() == 2,
        r@[0].window == window && r@[1].window == window,
        r@[0].message_type == wm_state_atom && r@[1].message_type == wm_state_atom,
        r@[0].data@ == seq![1u32, skip_taskbar, 0u32, 1u32, 0u32],
        r@[1].data@ == seq![1u32, skip_pager, 0u32, 1u32, 0u32],
{
    let mut r: Vec<ClientMessage> = Vec::new();
    let a = add_state_message(window, wm_state_atom, skip_taskbar);
    let b = add_state_message(window, wm_state_atom, skip_pager);
    r.push(a);
    r.push(b);
    r
}

/// A window found by walking the window tree from the root: a direct child
/// of the root with its title, and the titles of its own children where
/// they could be listed.
#[derive(Debug, Clone)]
pub struct TreeWindow {
    pub id: u32,
    pub title: String,
    pub child_titles: Option<Vec<String>>,
}

/// The title of a window as the title search reads it: the UTF-8 title,
/// else the legacy-encoded one, else empty.
pub fn search_title(utf8: Result<String, PropertyError>, legacy: Result<String, PropertyError>) -> (r:
    String)
    ensures
        utf8 is Ok ==> r@ == utf8->Ok_0@,
        utf8 is Err && legacy is Ok ==> r@ == legacy->Ok_0@,
        utf8 is Err && legacy is Err ==> r@.len() == 0,
{
    match utf8 {
        Ok(t) => t,
        Err(_) => match legacy {
            Ok(t) => t,
            Err(_) => String::new(),
        },
    }
}

/// Whether a tree window answers to `title`: its own title, or that of one
/// of its children (a frame wrapping the real window).
pub open spec fn tree_window_matches(w: TreeWindow, title: Seq<char>) -> bool {
    w.title@ == title || (w.child_titles matches Some(c) && exists|j: int|
        0 <= j < c@.len() && c@[j]@ == title)
}

/// The window that `title` names: the first window of the window list with
/// that title; else the first direct child of the root that answers to it
/// (see `tree_window_matches`).
pub open spec fn title_target(
    client_ids: Seq<u32>,
    client_titles: Seq<Seq<char>>,
    tree: Seq<TreeWindow>,
    title: Seq<char>,
) -> Option<u32> {
    if exists|i: int| 0 <= i < client_ids.len() && client_titles[i] == title {
        let i = choose|i: int|
            0 <= i < client_ids.len() && client_titles[i] == title && forall|j: int|
                0 <= j < i ==> client_titles[j] != title;
        Some(client_ids[i])
    } else if exists|i: int| 0 <= i < tree.len() && tree_window_matches(tree[i], title) {
        let i = choose|i: int|
            0 <= i < tree.len() && tree_window_matches(tree[i], title) && forall|j: int|
                0 <= j < i ==> !tree_window_matches(tree[j], title);
        Some(tree[i].id)
    } else {
        None
    }
}

/// Whether `a` and `b` hold the same text.
fn same_text(a: &String, b: &str) -> (r: bool)
    ensures
        r == (a@ == b@),
{
    let bs = b.to_owned();
    *a == bs
}

/// Whether a tree window answers to `title`.
fn tree_window_answers(w: &TreeWindow, title: &str) -> (r: bool)
    ensures
        r == tree_window_matches(*w, title@),
{
    if same_text(&w.title, title) {
        return true;
    }
    match &w.child_titles {
        None => false,
        Some(c) => {
            let mut j: usize = 0;
            while j < c.len()
                invariant
                    w.child_titles == Some(*c),
                    j <= c@.len(),
                    forall|k: int| 0 <= k < j ==> c@[k]@ != title@,
                decreases c@.len() - j,
            {
                if same_text(&c[j], title) {
                    assert(w.child_titles->0@[j as int]@ == title@);
                    return true;
                }
                j = j + 1;
            }
            false
        },
    }
}

/// Finds the window that `title` names (see `title_target`); `client_ids`
/// and `client_titles` are the windows of the window list and their titles.
pub fn find_window_by_title(
    client_ids: &Vec<u32>,
    client_titles: &Vec<String>,
    tree: &Vec<TreeWindow>,
    title: &str,
) -> (r: Option<u32>)
    requires
        client_ids@.len() == client_titles@.len(),
    ensures
        r == title_target(client_ids@, client_titles@.map_values(|t: String| t@), tree@, title@),
{
    let ghost ts = client_titles@.map_values(|t: String| t@);
    let mut i: usize = 0;
    while i < client_ids.len()
        invariant
            client_ids@.len() == client_titles@.len(),
            ts == client_titles@.map_values(|t: String| t@),
            i <= client_ids@.len(),
            forall|j: int| 0 <= j < i ==> ts[j] != title@,
        decreases client_ids@.len() - i,
    {
        if same_text(&client_titles[i], title) {
            proof {
                assert(ts[i as int] == title@);
                let k = choose|k: int|
                    0 <= k < client_ids@.len() && ts[k] == title@ && forall|j: int|
                        0 <= j < k ==> ts[j] != title@;
                if k > i {
                    assert(ts[i as int] == title@);
                }
            }
            return Some(client_ids[i]);
        }
        i = i + 1;
    }
    let mut w: usize = 0;
    while w < tree.len()
        invariant
            i == client_ids@.len(),
            ts == client_titles@.map_values(|t: String| t@),
            forall|j: int| 0 <= j < i ==> ts[j] != title@,
            w <= tree@.len(),
            forall|j: int| 0 <= j < w ==> !tree_window_matches(tree@[j], title@),
        decreases tree@.len() - w,
    {
        if tree_window_answers(&tree[w], title) {
            proof {
                let k = choose|k: int|
                    0 <= k < tree@.len() && tree_window_matches(tree@[k], title@) && forall|j: int|
                        0 <= j < k ==> !tree_window_matches(tree@[j], title@);
                if k > w {
                    assert(tree_window_matches(tree@[w as int], title@));
                }
            }
            return Some(tree[w].id);
        }
        w = w + 1;
    }
    None
}

} // verus!
