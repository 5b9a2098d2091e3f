//! Clipboard-history settings: their defaults and their normal form.
use vstd::prelude::*;
use crate::shortcut::{
    canonical_label, lemma_parse_label_fixed_point, lemma_parse_letter_shortcut, modifier_bits,
    parse_shortcut, parse_shortcut_binding, ShortcutBinding, MOD_ALT, MOD_CONTROL,
};
use crate::text::{join, string_from};
use vstd::pervasive::unreached;

verus! {

pub const DEFAULT_MAX_ITEMS: usize = 30;

pub const MIN_MAX_ITEMS: usize = 5;

pub const MAX_MAX_ITEMS: usize = 200;

pub const DEFAULT_CLIPBOARD_SHORTCUT: &'static str = "Ctrl+X";

pub const DEFAULT_AGENT_SHORTCUT: &'static str = "Ctrl+Q";

pub const DEFAULT_TODO_SHORTCUT: &'static str = "Ctrl+Alt+T";

pub const DEFAULT_MUSIC_SHORTCUT: &'static str = "Ctrl+Alt+M";

/// The user's clipboard-history settings, with the four page shortcuts.
#[derive(Debug)]
pub struct ClipboardHistorySettings {
    pub enabled: bool,
    pub capture_images: bool,
    pub max_items: usize,
    pub shortcut: String,
    pub agent_shortcut: String,
    pub todo_shortcut: String,
    pub music_shortcut: String,
}

/// The settings as plain values.
pub struct SettingsView {
    pub enabled: bool,
    pub capture_images: bool,
    pub max_items: usize,
    pub shortcut: Seq<char>,
    pub agent_shortcut: Seq<char>,
    pub todo_shortcut: Seq<char>,
    pub music_shortcut: Seq<char>,
}

impl View for ClipboardHistorySettings {
    type V = SettingsView;

    open spec fn view(&self) -> SettingsView {
        SettingsView {
            enabled: self.enabled,
            capture_images: self.capture_images,
            max_items: self.max_items,
            shortcut: self.shortcut@,
            agent_shortcut: self.agent_shortcut@,
            todo_shortcut: self.todo_shortcut@,
            music_shortcut: self.music_shortcut@,
        }
    }
}

pub open spec fn default_settings_view() -> SettingsView {
    SettingsView {
        enabled: true,
        capture_images: true,
        max_items: DEFAULT_MAX_ITEMS,
        shortcut: DEFAULT_CLIPBOARD_SHORTCUT@,
        agent_shortcut: DEFAULT_AGENT_SHORTCUT@,
        todo_shortcut: DEFAULT_TODO_SHORTCUT@,
        music_shortcut: DEFAULT_MUSIC_SHORTCUT@,
    }
}

/// `max_items` held within `MIN_MAX_ITEMS..=MAX_MAX_ITEMS`.
pub open spec fn clamp_max_items(n: usize) -> usize {
    if n < MIN_MAX_ITEMS {
        MIN_MAX_ITEMS
    } else if n > MAX_MAX_ITEMS {
        MAX_MAX_ITEMS
    } else {
        n
    }
}

/// A shortcut in normal form: its canonical label when it parses, else the
/// fallback label.
pub open spec fn normalized_shortcut(s: Seq<char>, fallback: Seq<char>) -> Seq<char> {
    match parse_shortcut(s) {
        Some(b) => b.0,
        None => fallback,
    }
}

pub open spec fn normalize_view(v: SettingsView) -> SettingsView {
    SettingsView {
        enabled: v.enabled,
        capture_images: v.capture_images,
        max_items: clamp_max_items(v.max_items),
        shortcut: normalized_shortcut(v.shortcut, DEFAULT_CLIPBOARD_SHORTCUT@),
        agent_shortcut: normalized_shortcut(v.agent_shortcut, DEFAULT_AGENT_SHORTCUT@),
        todo_shortcut: normalized_shortcut(v.todo_shortcut, DEFAULT_TODO_SHORTCUT@),
        music_shortcut: normalized_shortcut(v.music_shortcut, DEFAULT_MUSIC_SHORTCUT@),
    }
}

proof fn lemma_join3(a: Seq<char>, b: Seq<char>, c: Seq<char>, sep: Seq<char>)
    ensures
        join(seq![a, b, c], sep) == a + sep + b + sep + c,
{
    assert(seq![a, b, c].drop_last() =~= seq![a, b]);
    assert(seq![a, b].drop_last() =~= seq![a]);
    assert(join(seq![a], sep) == a);
    assert(join(seq![a, b], sep) == a + sep + b);
}

/// The four default shortcuts parse to themselves.
pub proof fn lemma_default_shortcuts()
    ensures
        parse_shortcut(DEFAULT_CLIPBOARD_SHORTCUT@) == Some(
            (DEFAULT_CLIPBOARD_SHORTCUT@, MOD_CONTROL, 'X' as u32),
        ),
        parse_shortcut(DEFAULT_AGENT_SHORTCUT@) == Some(
            (DEFAULT_AGENT_SHORTCUT@, MOD_CONTROL, 'Q' as u32),
        ),
        parse_shortcut(DEFAULT_TODO_SHORTCUT@) == Some(
            (DEFAULT_TODO_SHORTCUT@, (MOD_CONTROL + MOD_ALT) as u32, 'T' as u32),
        ),
        parse_shortcut(DEFAULT_MUSIC_SHORTCUT@) == Some(
            (DEFAULT_MUSIC_SHORTCUT@, (MOD_CONTROL + MOD_ALT) as u32, 'M' as u32),
        ),
{
    reveal_strlit("Ctrl+X");
    reveal_strlit("Ctrl+Q");
    reveal_strlit("Ctrl+Alt+T");
    reveal_strlit("Ctrl+Alt+M");
    reveal_strlit("Ctrl");
    reveal_strlit("Alt");
    reveal_strlit("+");
    lemma_parse_letter_shortcut(true, false, 'X');
    lemma_parse_letter_shortcut(true, false, 'Q');
    lemma_parse_letter_shortcut(true, true, 'T');
    lemma_parse_letter_shortcut(true, true, 'M');
    assert(canonical_label(true, false, false, false, seq!['X']) =~= DEFAULT_CLIPBOARD_SHORTCUT@) by {
        assert(seq!["Ctrl"@].push(seq!['X']).drop_last() =~= seq!["Ctrl"@]);
        assert(join(seq!["Ctrl"@], "+"@) == "Ctrl"@);
        assert(join(seq!["Ctrl"@].push(seq!['X']), "+"@) == "Ctrl"@ + "+"@ + seq!['X']);
        assert(crate::shortcut::modifier_names(true, false, false, false) =~= seq!["Ctrl"@]);
    }
    assert(canonical_label(true, false, false, false, seq!['Q']) =~= DEFAULT_AGENT_SHORTCUT@) by {
        assert(seq!["Ctrl"@].push(seq!['Q']).drop_last() =~= seq!["Ctrl"@]);
        assert(join(seq!["Ctrl"@], "+"@) == "Ctrl"@);
        assert(join(seq!["Ctrl"@].push(seq!['Q']), "+"@) == "Ctrl"@ + "+"@ + seq!['Q']);
        assert(crate::shortcut::modifier_names(true, false, false, false) =~= seq!["Ctrl"@]);
    }
    assert(canonical_label(true, true, false, false, seq!['T']) =~= DEFAULT_TODO_SHORTCUT@) by {
        let n = seq!["Ctrl"@, "Alt"@];
        assert(crate::shortcut::modifier_names(true, true, false, false) =~= n);
        assert(n.push(seq!['T']).drop_last() =~= n);
        lemma_join3("Ctrl"@, "Alt"@, seq!['T'], "+"@);
        assert(n.push(seq!['T']) =~= seq!["Ctrl"@, "Alt"@, seq!['T']]);
    }
    assert(canonical_label(true, true, false, false, seq!['M']) =~= DEFAULT_MUSIC_SHORTCUT@) by {
        let n = seq!["Ctrl"@, "Alt"@];
        assert(crate::shortcut::modifier_names(true, true, false, false) =~= n);
        assert(n.push(seq!['M']).drop_last() =~= n);
        lemma_join3("Ctrl"@, "Alt"@, seq!['M'], "+"@);
        assert(n.push(seq!['M']) =~= seq!["Ctrl"@, "Alt"@, seq!['M']]);
    }
    assert(modifier_bits(true, false, false, false) == MOD_CONTROL);
    assert(modifier_bits(true, true, false, false) == (MOD_CONTROL + MOD_ALT) as u32);
}

pub fn default_clipboard_shortcut() -> (r: String)
    ensures
        r@ == DEFAULT_CLIPBOARD_SHORTCUT@,
{
    string_from(DEFAULT_CLIPBOARD_SHORTCUT)
}

pub fn default_agent_shortcut() -> (r: String)
    ensures
        r@ == DEFAULT_AGENT_SHORTCUT@,
{
    string_from(DEFAULT_AGENT_SHORTCUT)
}

pub fn default_todo_shortcut() -> (r: String)
    ensures
        r@ == DEFAULT_TODO_SHORTCUT@,
{
    string_from(DEFAULT_TODO_SHORTCUT)
}

pub fn default_music_shortcut() -> (r: String)
    ensures
        r@ == DEFAULT_MUSIC_SHORTCUT@,
{
    string_from(DEFAULT_MUSIC_SHORTCUT)
}

/// The binding of the default clipboard shortcut.
pub fn default_clipboard_shortcut_binding() -> (r: ShortcutBinding)
    ensures
        Some(r@) == parse_shortcut(DEFAULT_CLIPBOARD_SHORTCUT@),
        r.label@ == DEFAULT_CLIPBOARD_SHORTCUT@,
{
    proof {
        lemma_default_shortcuts();
    }
    match parse_shortcut_binding(DEFAULT_CLIPBOARD_SHORTCUT) {
        Some(b) => b,
        None => unreached(),
    }
}

/// The binding of the default Agent page shortcut.
pub fn default_agent_shortcut_binding() -> (r: ShortcutBinding)
    ensures
        Some(r@) == parse_shortcut(DEFAULT_AGENT_SHORTCUT@),
        r.label@ == DEFAULT_AGENT_SHORTCUT@,
{
    proof {
        lemma_default_shortcuts();
    }
    match parse_shortcut_binding(DEFAULT_AGENT_SHORTCUT) {
        Some(b) => b,
        None => unreached(),
    }
}

/// The binding of the default Todo page shortcut.
pub fn default_todo_shortcut_binding() -> (r: ShortcutBinding)
    ensures
        Some(r@) == parse_shortcut(DEFAULT_TODO_SHORTCUT@),
        r.label@ == DEFAULT_TODO_SHORTCUT@,
{
    proof {
        lemma_default_shortcuts();
    }
    match parse_shortcut_binding(DEFAULT_TODO_SHORTCUT) {
        Some(b) => b,
        None => unreached(),
    }
}

/// The binding of the default Music page shortcut.
pub fn default_music_shortcut_binding() -> (r: ShortcutBinding)
    ensures
        Some(r@) == parse_shortcut(DEFAULT_MUSIC_SHORTCUT@),
        r.label@ == DEFAULT_MUSIC_SHORTCUT@,
{
    proof {
        lemma_default_shortcuts();
    }
    match parse_shortcut_binding(DEFAULT_MUSIC_SHORTCUT) {
        Some(b) => b,
        None => unreached(),
    }
}

impl Default for ClipboardHistorySettings {
    fn default() -> (r: Self)
        ensures
            r@ == default_settings_view(),
    {
        ClipboardHistorySettings {
            enabled: true,
            capture_images: true,
            max_items: DEFAULT_MAX_ITEMS,
            shortcut: default_clipboard_shortcut(),
            agent_shortcut: default_agent_shortcut(),
            todo_shortcut: default_todo_shortcut(),
            music_shortcut: default_music_shortcut(),
        }
    }
}

impl ClipboardHistorySettings {
    /// The settings in normal form: `max_items` clamped to 5..=200 and each
    /// shortcut replaced by its canonical label, or by its default when it
    /// does not parse.
    pub fn normalized(self) -> (r: Self)
        ensures
            r@ == normalize_view(self@),
    {
        let mut s = self;
        s.max_items = if s.max_items < MIN_MAX_ITEMS {
            MIN_MAX_ITEMS
        } else if s.max_items > MAX_MAX_ITEMS {
            MAX_MAX_ITEMS
        } else {
            s.max_items
        };
        s.shortcut = match parse_shortcut_binding(s.shortcut.as_str()) {
            Some(b) => b.label,
            None => default_clipboard_shortcut_binding().label,
        };
        s.agent_shortcut = match parse_shortcut_binding(s.agent_shortcut.as_str()) {
            Some(b) => b.label,
            None => default_agent_shortcut_binding().label,
        };
        s.todo_shortcut = match parse_shortcut_binding(s.todo_shortcut.as_str()) {
            Some(b) => b.label,
            None => default_todo_shortcut_binding().label,
        };
        s.music_shortcut = match parse_shortcut_binding(s.music_shortcut.as_str()) {
            Some(b) => b.label,
            None => default_music_shortcut_binding().label,
        };
        s
    }
}

proof fn lemma_normalized_shortcut_stable(s: Seq<char>, d: Seq<char>)
    requires
        parse_shortcut(d) is Some && parse_shortcut(d).unwrap().0 == d,
    ensures
        normalized_shortcut(normalized_shortcut(s, d), d) == normalized_shortcut(s, d),
        parse_shortcut(normalized_shortcut(s, d)) is Some,
{
    if parse_shortcut(s) is Some {
        lemma_parse_label_fixed_point(s);
    } else {
        lemma_parse_label_fixed_point(d);
    }
}

/// Normalizing settings twice gives what normalizing once gives.
pub proof fn lemma_normalize_idempotent(v: SettingsView)
    ensures
        normalize_view(normalize_view(v)) == normalize_view(v),
{
    lemma_default_shortcuts();
    lemma_normalized_shortcut_stable(v.shortcut, DEFAULT_CLIPBOARD_SHORTCUT@);
    lemma_normalized_shortcut_stable(v.agent_shortcut, DEFAULT_AGENT_SHORTCUT@);
    lemma_normalized_shortcut_stable(v.todo_shortcut, DEFAULT_TODO_SHORTCUT@);
    lemma_normalized_shortcut_stable(v.music_shortcut, DEFAULT_MUSIC_SHORTCUT@);
}

/// Normalized settings keep `max_items` within 5..=200, and every page
/// shortcut of them parses.
pub proof fn lemma_normalized_settings_valid(v: SettingsView)
    ensures
        MIN_MAX_ITEMS <= normalize_view(v).max_items <= MAX_MAX_ITEMS,
        parse_shortcut(normalize_view(v).shortcut) is Some,
        parse_shortcut(normalize_view(v).agent_shortcut) is Some,
        parse_shortcut(normalize_view(v).todo_shortcut) is Some,
        parse_shortcut(normalize_view(v).music_shortcut) is Some,
{
    lemma_default_shortcuts();
    lemma_normalized_shortcut_stable(v.shortcut, DEFAULT_CLIPBOARD_SHORTCUT@);
    lemma_normalized_shortcut_stable(v.agent_shortcut, DEFAULT_AGENT_SHORTCUT@);
    lemma_normalized_shortcut_stable(v.todo_shortcut, DEFAULT_TODO_SHORTCUT@);
    lemma_normalized_shortcut_stable(v.music_shortcut, DEFAULT_MUSIC_SHORTCUT@);
}

} // verus!
