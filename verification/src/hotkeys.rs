//! Which global hotkeys to register for the four pages, and the table of
//! hotkeys that registered successfully.
use vstd::prelude::*;
use crate::settings::{
    default_agent_shortcut_binding, default_clipboard_shortcut_binding,
    default_music_shortcut_binding, default_todo_shortcut_binding, ClipboardHistorySettings,
    SettingsView, DEFAULT_AGENT_SHORTCUT, DEFAULT_CLIPBOARD_SHORTCUT, DEFAULT_MUSIC_SHORTCUT,
    DEFAULT_TODO_SHORTCUT,
};
use crate::shortcut::{parse_shortcut, parse_shortcut_binding, ShortcutBinding};
use crate::text::{chars_eq, chars_of};
use std::collections::HashMap;
use vstd::std_specs::iter::IteratorSpec;

verus! {

pub const AGENT_HOTKEY_ID: i32 = 0x4643;

pub const MUSIC_HOTKEY_ID: i32 = 0x4644;

pub const TODO_HOTKEY_ID: i32 = 0x4645;

pub const CLIPBOARD_HOTKEY_ID: i32 = 0x4646;

/// The window message of a pressed hotkey.
pub const WM_HOTKEY: u32 = 0x0312;

/// The window message of a clipboard change.
pub const WM_CLIPBOARDUPDATE: u32 = 0x031D;

/// The first window message an application may define.
pub const WM_APP: u32 = 0x8000;

/// The message asking the listener window to register the hotkeys again.
pub const HOTKEY_REFRESH_MESSAGE: u32 = WM_APP + 0x51;

/// What the clipboard listener window does with a message.
#[derive(Debug)]
pub enum WindowMessageAction {
    /// Read the clipboard.
    ClipboardChanged,
    /// Show the page of the shortcut with this label.
    PageShortcut(String),
    /// Register the hotkeys again.
    RefreshHotkeys,
    /// Leave the message to the default window procedure.
    Default,
}

/// A binding as plain values: label, modifier bits, key code.
pub type BindingView = (Seq<char>, u32, u32);

/// The binding a page shortcut resolves to: its own when it parses, else
/// its default's.
pub open spec fn resolved_binding(s: Seq<char>, default: Seq<char>) -> BindingView {
    match parse_shortcut(s) {
        Some(b) => b,
        None => parse_shortcut(default).unwrap(),
    }
}

/// The four page hotkeys in cycle order: Agent, Music, Todo, Clipboard.
pub open spec fn shortcut_candidates(v: SettingsView) -> Seq<(i32, BindingView)> {
    seq![
        (AGENT_HOTKEY_ID, resolved_binding(v.agent_shortcut, DEFAULT_AGENT_SHORTCUT@)),
        (MUSIC_HOTKEY_ID, resolved_binding(v.music_shortcut, DEFAULT_MUSIC_SHORTCUT@)),
        (TODO_HOTKEY_ID, resolved_binding(v.todo_shortcut, DEFAULT_TODO_SHORTCUT@)),
        (CLIPBOARD_HOTKEY_ID, resolved_binding(v.shortcut, DEFAULT_CLIPBOARD_SHORTCUT@)),
    ]
}

pub open spec fn has_label(c: Seq<(i32, BindingView)>, label: Seq<char>) -> bool {
    exists|i: int| 0 <= i < c.len() && (#[trigger] c[i]).1.0 == label
}

/// The candidates with every later one whose label already occurs dropped.
pub open spec fn first_per_label(c: Seq<(i32, BindingView)>) -> Seq<(i32, BindingView)>
    decreases c.len(),
{
    if c.len() == 0 {
        Seq::empty()
    } else {
        let r = first_per_label(c.drop_last());
        if has_label(r, c.last().1.0) {
            r
        } else {
            r.push(c.last())
        }
    }
}

pub open spec fn candidate_views(v: Seq<(i32, ShortcutBinding)>) -> Seq<(i32, BindingView)> {
    v.map_values(|p: (i32, ShortcutBinding)| (p.0, p.1@))
}

fn resolve_binding(s: &String, which: u8) -> (r: ShortcutBinding)
    requires
        which < 4,
    ensures
        which == 0 ==> r@ == resolved_binding(s@, DEFAULT_AGENT_SHORTCUT@),
        which == 1 ==> r@ == resolved_binding(s@, DEFAULT_MUSIC_SHORTCUT@),
        which == 2 ==> r@ == resolved_binding(s@, DEFAULT_TODO_SHORTCUT@),
        which == 3 ==> r@ == resolved_binding(s@, DEFAULT_CLIPBOARD_SHORTCUT@),
{
    match parse_shortcut_binding(s.as_str()) {
        Some(b) => b,
        None => if which == 0 {
            default_agent_shortcut_binding()
        } else if which == 1 {
            default_music_shortcut_binding()
        } else if which == 2 {
            default_todo_shortcut_binding()
        } else {
            default_clipboard_shortcut_binding()
        },
    }
}

/// The hotkeys to register: the four page shortcuts in cycle order (Agent,
/// Music, Todo, Clipboard), each resolved to its binding, keeping only the
/// first page of each distinct combination.
pub fn unique_shortcut_candidates(settings: &ClipboardHistorySettings) -> (r: Vec<(i32, ShortcutBinding)>)
    ensures
        candidate_views(r@) == first_per_label(shortcut_candidates(settings@)),
{
    let ghost all = shortcut_candidates(settings@);
    // Held last page first, so that popping yields the cycle order.
    let mut rest: Vec<(i32, ShortcutBinding)> = Vec::new();
    rest.push((CLIPBOARD_HOTKEY_ID, resolve_binding(&settings.shortcut, 3)));
    rest.push((TODO_HOTKEY_ID, resolve_binding(&settings.todo_shortcut, 2)));
    rest.push((MUSIC_HOTKEY_ID, resolve_binding(&settings.music_shortcut, 1)));
    rest.push((AGENT_HOTKEY_ID, resolve_binding(&settings.agent_shortcut, 0)));
    let mut unique: Vec<(i32, ShortcutBinding)> = Vec::new();
    assert(first_per_label(all.take(0)) =~= Seq::<(i32, BindingView)>::empty());
    assert(candidate_views(unique@) =~= Seq::<(i32, BindingView)>::empty());
    let mut taken: usize = 0;
    while rest.len() > 0
        invariant
            taken + rest.len() == 4,
            all.len() == 4,
            candidate_views(unique@) == first_per_label(all.take(taken as int)),
            forall|j: int| 0 <= j < rest.len() ==> (#[trigger] candidate_views(rest@)[j]) == all[3 - j],
        decreases rest.len(),
    {
        let ghost before = rest@;
        let candidate = rest.pop().unwrap();
        assert(candidate_views(before)[before.len() - 1] == (candidate.0, candidate.1@));
        assert((candidate.0, candidate.1@) == all[taken as int]);
        assert forall|j: int| 0 <= j < rest.len() implies (#[trigger] candidate_views(rest@)[j]) == all[3 - j] by {
            assert(rest@[j] == before[j]);
            assert(candidate_views(before)[j] == all[3 - j]);
        }
        let ghost prev = first_per_label(all.take(taken as int));
        assert(all.take(taken + 1).drop_last() =~= all.take(taken as int));
        let label = chars_of(candidate.1.label.as_str());
        let mut seen = false;
        let mut k: usize = 0;
        while k < unique.len()
            invariant
                k <= unique.len(),
                candidate_views(unique@) == prev,
                label@ == candidate.1.label@,
                seen == exists|i: int| 0 <= i < k && prev[i].1.0 == label@,
            decreases unique.len() - k,
        {
            let other = chars_of(unique[k].1.label.as_str());
            assert(prev[k as int].1.0 == unique@[k as int].1.label@);
            if chars_eq(&other, &label) {
                seen = true;
            }
            k += 1;
        }
        assert(seen == has_label(prev, label@));
        if !seen {
            unique.push(candidate);
            assert(candidate_views(unique@) =~= prev.push(all[taken as int]));
        }
        taken += 1;
    }
    assert(all.take(4) =~= all);
    unique
}

/// No two kept candidates share a label.
pub proof fn lemma_first_per_label_distinct(c: Seq<(i32, BindingView)>)
    ensures
        forall|i: int, j: int|
            0 <= i < j < first_per_label(c).len() ==> (#[trigger] first_per_label(c)[i]).1.0
                != (#[trigger] first_per_label(c)[j]).1.0,
    decreases c.len(),
{
    if c.len() > 0 {
        lemma_first_per_label_distinct(c.drop_last());
        let r = first_per_label(c.drop_last());
        if !has_label(r, c.last().1.0) {
            assert forall|i: int, j: int|
                0 <= i < j < first_per_label(c).len() implies (#[trigger] first_per_label(c)[i]).1.0
                    != (#[trigger] first_per_label(c)[j]).1.0 by {
                if j == r.len() {
                    assert(first_per_label(c)[i] == r[i]);
                } else {
                    assert(first_per_label(c)[i] == r[i]);
                    assert(first_per_label(c)[j] == r[j]);
                }
            }
        }
    }
}

/// Every candidate's label is kept, by the first candidate that has it.
pub proof fn lemma_first_per_label_covers(c: Seq<(i32, BindingView)>)
    ensures
        forall|i: int| 0 <= i < c.len() ==> has_label(first_per_label(c), (#[trigger] c[i]).1.0),
        forall|j: int|
            0 <= j < first_per_label(c).len() ==> c.contains(#[trigger] first_per_label(c)[j]),
    decreases c.len(),
{
    if c.len() > 0 {
        let init = c.drop_last();
        lemma_first_per_label_covers(init);
        let r = first_per_label(init);
        assert forall|i: int| 0 <= i < c.len() implies has_label(first_per_label(c), (#[trigger] c[i]).1.0) by {
            if i < init.len() {
                assert(c[i] == init[i]);
                assert(has_label(r, init[i].1.0));
                let w = choose|w: int| 0 <= w < r.len() && (#[trigger] r[w]).1.0 == init[i].1.0;
                assert(first_per_label(c)[w] == r[w]);
            } else if !has_label(r, c.last().1.0) {
                assert(first_per_label(c)[r.len() as int] == c.last());
            }
        }
        assert forall|j: int| 0 <= j < first_per_label(c).len() implies c.contains(#[trigger] first_per_label(c)[j]) by {
            if j < r.len() {
                assert(first_per_label(c)[j] == r[j]);
                assert(init.contains(r[j]));
                let w = choose|w: int| 0 <= w < init.len() && init[w] == r[j];
                assert(c[w] == init[w]);
            } else {
                assert(c[c.len() - 1] == c.last());
            }
        }
    }
}

// ---------------------------------------------------------------------------
// The table of registered hotkeys
// ---------------------------------------------------------------------------

/// The hotkeys currently registered with the system, by id, with the label
/// each was registered for.
pub struct HotkeyRegistry {
    entries: HashMap<i32, String>,
}

impl HotkeyRegistry {
    /// The registered labels by hotkey id.
    pub closed spec fn map(&self) -> Map<i32, Seq<char>> {
        self.entries@.map_values(|s: String| s@)
    }

    pub fn new() -> (r: Self)
        ensures
            r.map() == Map::<i32, Seq<char>>::empty(),
    {
        let r = HotkeyRegistry { entries: HashMap::new() };
        assert(r.map() =~= Map::<i32, Seq<char>>::empty());
        r
    }

    /// Records that `id` is registered for `label`.
    pub fn insert(&mut self, id: i32, label: String)
        ensures
            final(self).map() == old(self).map().insert(id, label@),
    {
        broadcast use vstd::std_specs::hash::group_hash_axioms;
        let ghost before = self.entries@;
        let ghost l = label@;
        self.entries.insert(id, label);
        assert(self.map() =~= before.map_values(|s: String| s@).insert(id, l));
    }

    /// The label `id` is registered for, if any.
    pub fn registered_shortcut_for_id(&self, id: i32) -> (r: Option<String>)
        ensures
            match r {
                Some(l) => self.map().contains_key(id) && self.map()[id] == l@,
                None => !self.map().contains_key(id),
            },
    {
        broadcast use vstd::std_specs::hash::group_hash_axioms;
        match self.entries.get(&id) {
            Some(label) => Some(label.clone()),
            None => None,
        }
    }

    /// The registered hotkeys: each id with its label, each id once.
    pub fn registered_hotkeys(&self) -> (r: Vec<(i32, String)>)
        ensures
            r@.len() == self.map().len(),
            forall|k: int| 0 <= k < r@.len() ==> self.map().contains_key((#[trigger] r@[k]).0) && self.map()[r@[k].0] == r@[k].1@,
            forall|a: int, b: int| 0 <= a < b < r@.len() ==> (#[trigger] r@[a]).0 != (#[trigger] r@[b]).0,
    {
        broadcast use vstd::std_specs::hash::group_hash_axioms;
        let ids = self.ids();
        let mut out: Vec<(i32, String)> = Vec::new();
        let mut i: usize = 0;
        while i < ids.len()
            invariant
                i <= ids@.len(),
                ids@.to_set() == self.entries@.dom(),
                ids@.no_duplicates(),
                out@.len() == i,
                forall|k: int| 0 <= k < i ==> (#[trigger] out@[k]).0 == ids@[k] && self.map().contains_key(ids@[k])
                    && self.map()[ids@[k]] == out@[k].1@,
            decreases ids.len() - i,
        {
            let id = ids[i];
            assert(ids@.to_set().contains(id)) by {
                assert(ids@.contains(id));
            }
            let label = self.entries.get(&id).unwrap().clone();
            out.push((id, label));
            i += 1;
        }
        proof {
            assert forall|a: int, b: int| 0 <= a < b < out@.len() implies (#[trigger] out@[a]).0 != (#[trigger] out@[b]).0 by {
                assert(ids@[a] != ids@[b]);
            }
            ids@.unique_seq_to_set();
            assert(self.map().dom() =~= self.entries@.dom());
        }
        out
    }

    /// The registered ids, each once.
    fn ids(&self) -> (r: Vec<i32>)
        ensures
            r@.to_set() == self.entries@.dom(),
            r@.no_duplicates(),
    {
        broadcast use vstd::std_specs::hash::group_hash_axioms;
        let ghost g = vstd::std_specs::hash::spec_keys_iter(&self.entries).remaining();
        let mut r: Vec<i32> = Vec::new();
        for k in it: self.entries.keys()
            invariant
                it.seq() == g,
                r@ == g.take(it.index() as int).unref(),
        {
            r.push(*k);
            assert(g.take(it.index() + 1).unref() =~= g.take(it.index() as int).unref().push(*k));
        }
        assert(g.take(g.len() as int) =~= g);
        r
    }

    /// What the listener window does with `message`, whose `wparam` holds
    /// the hotkey id of a hotkey message (cut to `i32`): a hotkey that is not
    /// registered goes to the default window procedure.
    pub fn window_message_action(&self, message: u32, wparam: usize) -> (r: WindowMessageAction)
        ensures
            message == WM_CLIPBOARDUPDATE ==> r is ClipboardChanged,
            message == WM_HOTKEY && self.map().contains_key(wparam as i32) ==> (r matches WindowMessageAction::PageShortcut(label)
                && label@ == self.map()[wparam as i32]),
            message == WM_HOTKEY && !self.map().contains_key(wparam as i32) ==> r is Default,
            message == HOTKEY_REFRESH_MESSAGE ==> r is RefreshHotkeys,
            message != WM_CLIPBOARDUPDATE && message != WM_HOTKEY && message != HOTKEY_REFRESH_MESSAGE ==> r is Default,
    {
        if message == WM_CLIPBOARDUPDATE {
            return WindowMessageAction::ClipboardChanged;
        }
        if message == WM_HOTKEY {
            let id: i32 = #[verifier::truncate] (wparam as i32);
            if let Some(label) = self.registered_shortcut_for_id(id) {
                return WindowMessageAction::PageShortcut(label);
            }
        }
        if message == HOTKEY_REFRESH_MESSAGE {
            return WindowMessageAction::RefreshHotkeys;
        }
        WindowMessageAction::Default
    }

    /// Whether some id is registered for the label `shortcut`.
    pub fn shortcut_is_registered(&self, shortcut: &str) -> (r: bool)
        ensures
            r == exists|id: i32| self.map().contains_key(id) && self.map()[id] == shortcut@,
    {
        broadcast use vstd::std_specs::hash::group_hash_axioms;
        let ids = self.ids();
        let wanted = chars_of(shortcut);
        let mut i: usize = 0;
        while i < ids.len()
            invariant
                i <= ids@.len(),
                ids@.to_set() == self.entries@.dom(),
                wanted@ == shortcut@,
                forall|k: int| 0 <= k < i ==> self.map()[#[trigger] ids@[k]] != shortcut@,
            decreases ids.len() - i,
        {
            let id = ids[i];
            assert(ids@.to_set().contains(id)) by {
                assert(ids@.contains(id));
            }
            match self.entries.get(&id) {
                Some(label) => {
                    let label_chars = chars_of(label.as_str());
                    if chars_eq(&label_chars, &wanted) {
                        assert(self.map().contains_key(id) && self.map()[id] == shortcut@);
                        return true;
                    }
                },
                None => {},
            }
            i += 1;
        }
        assert forall|id: i32| !(self.map().contains_key(id) && self.map()[id] == shortcut@) by {
            if self.map().contains_key(id) {
                assert(ids@.to_set().contains(id));
                let w = choose|w: int| 0 <= w < ids@.len() && ids@[w] == id;
                assert(self.map()[ids@[w]] != shortcut@);
            }
        }
        false
    }

    /// Empties the table and returns the ids it held, each once.
    pub fn drain_ids(&mut self) -> (r: Vec<i32>)
        ensures
            final(self).map() == Map::<i32, Seq<char>>::empty(),
            r@.no_duplicates(),
            r@.to_set() == old(self).map().dom(),
    {
        broadcast use vstd::std_specs::hash::group_hash_axioms;
        let ids = self.ids();
        self.entries.clear();
        assert(self.map() =~= Map::<i32, Seq<char>>::empty());
        assert(old(self).map().dom() =~= old(self).entries@.dom());
        ids
    }
}

} // verus!
