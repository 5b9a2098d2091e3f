//! Global page shortcuts: parsing a user-written combination such as
//! `" ctrl + alt + m "` into its canonical label (`"Ctrl+Alt+M"`), Win32
//! modifier bits and virtual-key code.
use vstd::prelude::*;
use crate::text::{
    all_digits, ascii_lower, ascii_upper, chars_eq_str, chars_of, decimal, digits_value,
    extend_chars, extend_str, is_digit, join, lemma_join_push, lower_chars, push_decimal,
    split_chars, split_on, string_of, trim, trim_chars, upper_chars, views, has_no_ws,
    lemma_trim_no_ws, lemma_split_join, is_ws, upper_char, lemma_decimal_digits,
};

verus! {

/// `MOD_ALT` of `RegisterHotKey`.
pub const MOD_ALT: u32 = 0x0001;

/// `MOD_CONTROL` of `RegisterHotKey`.
pub const MOD_CONTROL: u32 = 0x0002;

/// `MOD_SHIFT` of `RegisterHotKey`.
pub const MOD_SHIFT: u32 = 0x0004;

/// `MOD_WIN` of `RegisterHotKey`.
pub const MOD_WIN: u32 = 0x0008;

/// A parsed shortcut: its canonical label, modifier bits and virtual-key code.
#[derive(Debug)]
pub struct ShortcutBinding {
    pub label: String,
    pub modifiers: u32,
    pub key_code: u32,
}

impl View for ShortcutBinding {
    type V = (Seq<char>, u32, u32);

    open spec fn view(&self) -> (Seq<char>, u32, u32) {
        (self.label@, self.modifiers, self.key_code)
    }
}

// ---------------------------------------------------------------------------
// Specifications
// ---------------------------------------------------------------------------

pub enum Modifier {
    Ctrl,
    Alt,
    Shift,
    Win,
}

/// Which modifier a (trimmed) part names, compared without ASCII case.
pub open spec fn modifier_of(part: Seq<char>) -> Option<Modifier> {
    let n = ascii_lower(part);
    if n == "ctrl"@ || n == "control"@ {
        Some(Modifier::Ctrl)
    } else if n == "alt"@ || n == "option"@ {
        Some(Modifier::Alt)
    } else if n == "shift"@ {
        Some(Modifier::Shift)
    } else if n == "win"@ || n == "windows"@ || n == "meta"@ || n == "cmd"@ || n == "super"@ {
        Some(Modifier::Win)
    } else {
        None
    }
}

pub open spec fn is_ascii_alnum(c: char) -> bool {
    ('0' <= c <= '9') || ('A' <= c <= 'Z') || ('a' <= c <= 'z')
}

/// What `str::parse::<u32>` accepts: an optional `+`, then decimal digits,
/// within the range of `u32`.
pub open spec fn parse_u32(s: Seq<char>) -> Option<u32> {
    let body = if s.len() > 0 && s[0] == '+' {
        s.drop_first()
    } else {
        s
    };
    if body.len() > 0 && all_digits(body) && digits_value(body) <= u32::MAX {
        Some(digits_value(body) as u32)
    } else {
        None
    }
}

/// The named, non-character keys, keyed by their upper-case spelling.
pub open spec fn named_key(u: Seq<char>) -> Option<(Seq<char>, u32)> {
    if u == "ESC"@ || u == "ESCAPE"@ {
        Some(("Esc"@, 0x1Bu32))
    } else if u == "TAB"@ {
        Some(("Tab"@, 0x09u32))
    } else if u == "ENTER"@ || u == "RETURN"@ {
        Some(("Enter"@, 0x0Du32))
    } else if u == "SPACE"@ {
        Some(("Space"@, 0x20u32))
    } else if u == "BACKSPACE"@ {
        Some(("Backspace"@, 0x08u32))
    } else if u == "DELETE"@ || u == "DEL"@ {
        Some(("Delete"@, 0x2Eu32))
    } else if u == "INSERT"@ || u == "INS"@ {
        Some(("Insert"@, 0x2Du32))
    } else if u == "HOME"@ {
        Some(("Home"@, 0x24u32))
    } else if u == "END"@ {
        Some(("End"@, 0x23u32))
    } else if u == "PAGEUP"@ || u == "PAGE UP"@ {
        Some(("PageUp"@, 0x21u32))
    } else if u == "PAGEDOWN"@ || u == "PAGE DOWN"@ {
        Some(("PageDown"@, 0x22u32))
    } else if u == "ARROWUP"@ || u == "UP"@ {
        Some(("Up"@, 0x26u32))
    } else if u == "ARROWDOWN"@ || u == "DOWN"@ {
        Some(("Down"@, 0x28u32))
    } else if u == "ARROWLEFT"@ || u == "LEFT"@ {
        Some(("Left"@, 0x25u32))
    } else if u == "ARROWRIGHT"@ || u == "RIGHT"@ {
        Some(("Right"@, 0x27u32))
    } else {
        None
    }
}

/// The function key number of an upper-case key such as `F7`, when it names
/// one of F1 to F24.
pub open spec fn function_key(u: Seq<char>) -> Option<u32> {
    if u.len() > 0 && u[0] == 'F' {
        match parse_u32(u.drop_first()) {
            Some(n) => if 1 <= n <= 24 {
                Some(n)
            } else {
                None
            },
            None => None,
        }
    } else {
        None
    }
}

/// The canonical label and virtual-key code of one key of a shortcut.
pub open spec fn key_code_spec(key: Seq<char>) -> Option<(Seq<char>, u32)> {
    let u = ascii_upper(trim(key));
    if u.len() == 1 && is_ascii_alnum(u[0]) {
        Some((u, u[0] as u32))
    } else if function_key(u) is Some {
        let n = function_key(u).unwrap();
        Some((seq!['F'] + decimal(n as nat), (0x70 + n - 1) as u32))
    } else {
        named_key(u)
    }
}

/// The trimmed, non-empty pieces of a list of raw pieces.
pub open spec fn nonempty_trimmed(pieces: Seq<Seq<char>>) -> Seq<Seq<char>>
    decreases pieces.len(),
{
    if pieces.len() == 0 {
        Seq::empty()
    } else {
        let r = nonempty_trimmed(pieces.drop_last());
        let t = trim(pieces.last());
        if t.len() > 0 {
            r.push(t)
        } else {
            r
        }
    }
}

/// The parts of a shortcut: split at `+`, trimmed, empty ones dropped.
pub open spec fn shortcut_parts(s: Seq<char>) -> Seq<Seq<char>> {
    nonempty_trimmed(split_on(s, '+'))
}

/// The parts that name no modifier.
pub open spec fn key_parts(parts: Seq<Seq<char>>) -> Seq<Seq<char>>
    decreases parts.len(),
{
    if parts.len() == 0 {
        Seq::empty()
    } else {
        let r = key_parts(parts.drop_last());
        if modifier_of(parts.last()) is None {
            r.push(parts.last())
        } else {
            r
        }
    }
}

pub open spec fn has_modifier(parts: Seq<Seq<char>>, m: Modifier) -> bool {
    exists|i: int| 0 <= i < parts.len() && modifier_of(#[trigger] parts[i]) == Some(m)
}

/// The modifier names of a label, in their fixed order.
pub open spec fn modifier_names(ctrl: bool, alt: bool, shift: bool, win: bool) -> Seq<Seq<char>> {
    (if ctrl {
        seq!["Ctrl"@]
    } else {
        Seq::empty()
    }) + (if alt {
        seq!["Alt"@]
    } else {
        Seq::empty()
    }) + (if shift {
        seq!["Shift"@]
    } else {
        Seq::empty()
    }) + (if win {
        seq!["Win"@]
    } else {
        Seq::empty()
    })
}

pub open spec fn modifier_bits(ctrl: bool, alt: bool, shift: bool, win: bool) -> u32 {
    ((if ctrl {
        MOD_CONTROL
    } else {
        0u32
    }) + (if alt {
        MOD_ALT
    } else {
        0u32
    }) + (if shift {
        MOD_SHIFT
    } else {
        0u32
    }) + (if win {
        MOD_WIN
    } else {
        0u32
    })) as u32
}

/// The canonical label of a binding: the modifiers present, in the order
/// Ctrl, Alt, Shift, Win, then the key, joined by `+`.
pub open spec fn canonical_label(
    ctrl: bool,
    alt: bool,
    shift: bool,
    win: bool,
    key: Seq<char>,
) -> Seq<char> {
    join(modifier_names(ctrl, alt, shift, win).push(key), "+"@)
}

/// What a shortcut denotes: exactly one key part, which names a known key,
/// and at least one modifier; then its canonical label, bits and key code.
pub open spec fn parse_shortcut(s: Seq<char>) -> Option<(Seq<char>, u32, u32)> {
    let parts = shortcut_parts(s);
    let keys = key_parts(parts);
    let ctrl = has_modifier(parts, Modifier::Ctrl);
    let alt = has_modifier(parts, Modifier::Alt);
    let shift = has_modifier(parts, Modifier::Shift);
    let win = has_modifier(parts, Modifier::Win);
    if keys.len() == 1 && (ctrl || alt || shift || win) && key_code_spec(keys[0]) is Some {
        let k = key_code_spec(keys[0]).unwrap();
        Some((canonical_label(ctrl, alt, shift, win, k.0), modifier_bits(ctrl, alt, shift, win), k.1))
    } else {
        None
    }
}

// ---------------------------------------------------------------------------
// Executable code
// ---------------------------------------------------------------------------

/// Which modifier a trimmed part names.
fn modifier_of_exec(part: &[char]) -> (r: Option<Modifier>)
    ensures
        r == modifier_of(part@),
{
    let n = lower_chars(part);
    if chars_eq_str(&n, "ctrl") || chars_eq_str(&n, "control") {
        Some(Modifier::Ctrl)
    } else if chars_eq_str(&n, "alt") || chars_eq_str(&n, "option") {
        Some(Modifier::Alt)
    } else if chars_eq_str(&n, "shift") {
        Some(Modifier::Shift)
    } else if chars_eq_str(&n, "win") || chars_eq_str(&n, "windows") || chars_eq_str(&n, "meta")
        || chars_eq_str(&n, "cmd") || chars_eq_str(&n, "super") {
        Some(Modifier::Win)
    } else {
        None
    }
}

fn named_key_exec(u: &[char]) -> (r: Option<(Vec<char>, u32)>)
    ensures
        match r {
            Some(k) => named_key(u@) == Some((k.0@, k.1)),
            None => named_key(u@) is None,
        },
{
    if chars_eq_str(u, "ESC") || chars_eq_str(u, "ESCAPE") {
        Some((chars_of("Esc"), 0x1B))
    } else if chars_eq_str(u, "TAB") {
        Some((chars_of("Tab"), 0x09))
    } else if chars_eq_str(u, "ENTER") || chars_eq_str(u, "RETURN") {
        Some((chars_of("Enter"), 0x0D))
    } else if chars_eq_str(u, "SPACE") {
        Some((chars_of("Space"), 0x20))
    } else if chars_eq_str(u, "BACKSPACE") {
        Some((chars_of("Backspace"), 0x08))
    } else if chars_eq_str(u, "DELETE") || chars_eq_str(u, "DEL") {
        Some((chars_of("Delete"), 0x2E))
    } else if chars_eq_str(u, "INSERT") || chars_eq_str(u, "INS") {
        Some((chars_of("Insert"), 0x2D))
    } else if chars_eq_str(u, "HOME") {
        Some((chars_of("Home"), 0x24))
    } else if chars_eq_str(u, "END") {
        Some((chars_of("End"), 0x23))
    } else if chars_eq_str(u, "PAGEUP") || chars_eq_str(u, "PAGE UP") {
        Some((chars_of("PageUp"), 0x21))
    } else if chars_eq_str(u, "PAGEDOWN") || chars_eq_str(u, "PAGE DOWN") {
        Some((chars_of("PageDown"), 0x22))
    } else if chars_eq_str(u, "ARROWUP") || chars_eq_str(u, "UP") {
        Some((chars_of("Up"), 0x26))
    } else if chars_eq_str(u, "ARROWDOWN") || chars_eq_str(u, "DOWN") {
        Some((chars_of("Down"), 0x28))
    } else if chars_eq_str(u, "ARROWLEFT") || chars_eq_str(u, "LEFT") {
        Some((chars_of("Left"), 0x25))
    } else if chars_eq_str(u, "ARROWRIGHT") || chars_eq_str(u, "RIGHT") {
        Some((chars_of("Right"), 0x27))
    } else {
        None
    }
}

/// The function-key number named by an upper-case key, if it is F1 to F24.
fn function_key_exec(u: &[char]) -> (r: Option<u32>)
    ensures
        r == function_key(u@),
{
    if u.len() == 0 || u[0] != 'F' {
        return None;
    }
    let ghost s = u@.drop_first();
    let start: usize = if u.len() > 1 && u[1] == '+' {
        2
    } else {
        1
    };
    let ghost body = if s.len() > 0 && s[0] == '+' {
        s.drop_first()
    } else {
        s
    };
    assert(body =~= u@.subrange(start as int, u@.len() as int));
    if start >= u.len() {
        assert(body.len() == 0);
        return None;
    }
    // The value, held at 100 once it is past the range that matters.
    let mut v: u32 = 0;
    let mut i: usize = start;
    while i < u.len()
        invariant
            1 <= start <= i <= u.len(),
            u@.len() > 0 && u@[0] == 'F',
            s == u@.drop_first(),
            body == (if s.len() > 0 && s[0] == '+' {
                s.drop_first()
            } else {
                s
            }),
            body == u@.subrange(start as int, u@.len() as int),
            all_digits(u@.subrange(start as int, i as int)),
            v as int == if digits_value(u@.subrange(start as int, i as int)) < 100 {
                digits_value(u@.subrange(start as int, i as int)) as int
            } else {
                100
            },
        decreases u.len() - i,
    {
        let c = u[i];
        if !('0' <= c && c <= '9') {
            assert(body[i - start] == c);
            assert(!is_digit(body[i - start]));
            assert(parse_u32(s) is None);
            return None;
        }
        let ghost pre = u@.subrange(start as int, i as int);
        let ghost next = u@.subrange(start as int, i + 1);
        assert(next.drop_last() =~= pre);
        assert(next.last() == c);
        let d: u32 = c as u32 - 48;
        let w = v * 10 + d;
        v = if w < 100 {
            w
        } else {
            100
        };
        i += 1;
    }
    assert(u@.subrange(start as int, u.len() as int) =~= body);
    if 1 <= v && v <= 24 {
        Some(v)
    } else {
        None
    }
}

/// The canonical label and virtual-key code of one key of a shortcut:
/// a letter or digit, F1 to F24, or one of the named keys.
pub fn shortcut_key_code(key: &str) -> (r: Option<(String, u32)>)
    ensures
        match r {
            Some(k) => key_code_spec(key@) == Some((k.0@, k.1)),
            None => key_code_spec(key@) is None,
        },
{
    let chars = chars_of(key);
    key_code_chars(&chars)
}

fn key_code_chars(key: &[char]) -> (r: Option<(String, u32)>)
    ensures
        match r {
            Some(k) => key_code_spec(key@) == Some((k.0@, k.1)),
            None => key_code_spec(key@) is None,
        },
{
    let t = trim_chars(key);
    let u = upper_chars(&t);
    if u.len() == 1 {
        let c = u[0];
        if ('0' <= c && c <= '9') || ('A' <= c && c <= 'Z') || ('a' <= c && c <= 'z') {
            return Some((string_of(&u), c as u32));
        }
    }
    match function_key_exec(&u) {
        Some(n) => {
            let mut label: Vec<char> = Vec::new();
            label.push('F');
            push_decimal(&mut label, n as u64);
            assert(label@ =~= seq!['F'] + decimal(n as nat));
            Some((string_of(&label), 0x70 + n - 1))
        },
        None => match named_key_exec(&u) {
            Some(k) => Some((string_of(&k.0), k.1)),
            None => None,
        },
    }
}

/// Parses a shortcut such as `"Ctrl+Alt+M"`: parts separated by `+`, trimmed,
/// empty parts ignored, modifier names compared without ASCII case. There
/// must be exactly one key and at least one modifier.
pub fn parse_shortcut_binding(shortcut: &str) -> (r: Option<ShortcutBinding>)
    ensures
        match r {
            Some(b) => parse_shortcut(shortcut@) == Some(b@),
            None => parse_shortcut(shortcut@) is None,
        },
{
    let chars = chars_of(shortcut);
    let pieces = split_chars(&chars, '+');
    let ghost all = views(pieces@);
    let mut has_ctrl = false;
    let mut has_alt = false;
    let mut has_shift = false;
    let mut has_win = false;
    let mut key_count: usize = 0;
    let mut first_key: Option<(String, u32)> = None;
    let mut i: usize = 0;
    while i < pieces.len()
        invariant
            i <= pieces.len(),
            all == views(pieces@),
            all.len() == pieces@.len(),
            key_count <= i,
            ({
                let parts = nonempty_trimmed(all.take(i as int));
                let keys = key_parts(parts);
                &&& has_ctrl == has_modifier(parts, Modifier::Ctrl)
                &&& has_alt == has_modifier(parts, Modifier::Alt)
                &&& has_shift == has_modifier(parts, Modifier::Shift)
                &&& has_win == has_modifier(parts, Modifier::Win)
                &&& key_count == keys.len()
                &&& (keys.len() == 0 ==> first_key is None)
                &&& (keys.len() > 0 ==> match first_key {
                    Some(k) => key_code_spec(keys[0]) == Some((k.0@, k.1)),
                    None => key_code_spec(keys[0]) is None,
                })
            }),
        decreases pieces.len() - i,
    {
        let ghost prev = nonempty_trimmed(all.take(i as int));
        let ghost prev_keys = key_parts(prev);
        proof {
            assert(all.take(i + 1).drop_last() =~= all.take(i as int));
            assert(all.take(i + 1).last() == pieces@[i as int]@);
        }
        let part = trim_chars(&pieces[i]);
        if part.len() > 0 {
            let ghost parts = prev.push(part@);
            assert(nonempty_trimmed(all.take(i + 1)) == parts);
            assert(parts.drop_last() =~= prev);
            let m = modifier_of_exec(&part);
            assert forall|mm: Modifier| #[trigger] has_modifier(parts, mm) == (has_modifier(prev, mm)
                || modifier_of(part@) == Some(mm)) by {
                if has_modifier(prev, mm) {
                    let w = choose|w: int| 0 <= w < prev.len() && modifier_of(#[trigger] prev[w]) == Some(mm);
                    assert(parts[w] == prev[w]);
                }
                if modifier_of(part@) == Some(mm) {
                    assert(parts[prev.len() as int] == part@);
                }
                if has_modifier(parts, mm) {
                    let w = choose|w: int| 0 <= w < parts.len() && modifier_of(#[trigger] parts[w]) == Some(mm);
                    if w < prev.len() {
                        assert(parts[w] == prev[w]);
                    }
                }
            }
            match m {
                Some(Modifier::Ctrl) => {
                    has_ctrl = true;
                },
                Some(Modifier::Alt) => {
                    has_alt = true;
                },
                Some(Modifier::Shift) => {
                    has_shift = true;
                },
                Some(Modifier::Win) => {
                    has_win = true;
                },
                None => {
                    assert(key_parts(parts) == prev_keys.push(part@));
                    if key_count == 0 {
                        first_key = key_code_chars(&part);
                    }
                    key_count = key_count + 1;
                },
            }
        } else {
            assert(nonempty_trimmed(all.take(i + 1)) == prev);
        }
        i += 1;
    }
    assert(all.take(pieces.len() as int) =~= all);
    if !(has_ctrl || has_alt || has_shift || has_win) {
        return None;
    }
    if key_count != 1 {
        return None;
    }
    let key = match first_key {
        Some(k) => k,
        None => {
            return None;
        },
    };
    let mut label: Vec<char> = Vec::new();
    let ghost mut names: Seq<Seq<char>> = Seq::empty();
    proof {
        reveal_strlit("+");
    }
    assert(label@ =~= prefixed(names));
    if has_ctrl {
        extend_str(&mut label, "Ctrl");
        label.push('+');
        proof {
            let old_names = names;
            names = names.push("Ctrl"@);
            assert(names.drop_last() =~= old_names);
        }
        assert(label@ =~= prefixed(names));
    }
    if has_alt {
        extend_str(&mut label, "Alt");
        label.push('+');
        proof {
            let old_names = names;
            names = names.push("Alt"@);
            assert(names.drop_last() =~= old_names);
        }
        assert(label@ =~= prefixed(names));
    }
    if has_shift {
        extend_str(&mut label, "Shift");
        label.push('+');
        proof {
            let old_names = names;
            names = names.push("Shift"@);
            assert(names.drop_last() =~= old_names);
        }
        assert(label@ =~= prefixed(names));
    }
    if has_win {
        extend_str(&mut label, "Win");
        label.push('+');
        proof {
            let old_names = names;
            names = names.push("Win"@);
            assert(names.drop_last() =~= old_names);
        }
        assert(label@ =~= prefixed(names));
    }
    let key_chars = chars_of(key.0.as_str());
    extend_chars(&mut label, &key_chars);
    proof {
        assert(names =~= modifier_names(has_ctrl, has_alt, has_shift, has_win));
        lemma_join_prefixed(names, key.0@);
    }
    let mut modifiers: u32 = 0;
    if has_ctrl {
        modifiers = modifiers + MOD_CONTROL;
    }
    if has_alt {
        modifiers = modifiers + MOD_ALT;
    }
    if has_shift {
        modifiers = modifiers + MOD_SHIFT;
    }
    if has_win {
        modifiers = modifiers + MOD_WIN;
    }
    Some(ShortcutBinding { label: string_of(&label), modifiers, key_code: key.1 })
}

/// Each name followed by `+`, concatenated.
pub open spec fn prefixed(names: Seq<Seq<char>>) -> Seq<char>
    decreases names.len(),
{
    if names.len() == 0 {
        Seq::empty()
    } else {
        prefixed(names.drop_last()) + names.last() + "+"@
    }
}

proof fn lemma_join_prefixed(names: Seq<Seq<char>>, key: Seq<char>)
    ensures
        join(names.push(key), "+"@) == prefixed(names) + key,
    decreases names.len(),
{
    reveal_strlit("+");
    if names.len() == 0 {
        assert(names.push(key) =~= seq![key]);
        assert(prefixed(names) + key =~= key);
    } else {
        let init = names.drop_last();
        lemma_join_prefixed(init, names.last());
        lemma_join_push(names, "+"@, key);
        assert(names.push(key).drop_last() =~= names);
        assert(init.push(names.last()) =~= names);
        assert(prefixed(names) + key =~= prefixed(init) + names.last() + "+"@ + key);
    }
}

// ---------------------------------------------------------------------------
// The canonical label of a binding parses back to the same binding
// ---------------------------------------------------------------------------

pub open spec fn has_no_plus(s: Seq<char>) -> bool {
    forall|i: int| 0 <= i < s.len() ==> #[trigger] s[i] != '+'
}

/// A key label that the key table maps to itself.
pub open spec fn is_canonical_key(kl: Seq<char>, code: u32) -> bool {
    &&& key_code_spec(kl) == Some((kl, code))
    &&& kl.len() > 0
    &&& has_no_ws(kl)
    &&& has_no_plus(kl)
    &&& modifier_of(kl) is None
}

proof fn lemma_modifier_literals()
    ensures
        modifier_of("Ctrl"@) == Some(Modifier::Ctrl),
        modifier_of("Alt"@) == Some(Modifier::Alt),
        modifier_of("Shift"@) == Some(Modifier::Shift),
        modifier_of("Win"@) == Some(Modifier::Win),
        has_no_ws("Ctrl"@) && has_no_plus("Ctrl"@) && "Ctrl"@.len() > 0,
        has_no_ws("Alt"@) && has_no_plus("Alt"@) && "Alt"@.len() > 0,
        has_no_ws("Shift"@) && has_no_plus("Shift"@) && "Shift"@.len() > 0,
        has_no_ws("Win"@) && has_no_plus("Win"@) && "Win"@.len() > 0,
{
    reveal_strlit("Ctrl");
    reveal_strlit("Alt");
    reveal_strlit("Shift");
    reveal_strlit("Win");
    reveal_strlit("ctrl");
    reveal_strlit("alt");
    reveal_strlit("shift");
    reveal_strlit("win");
    reveal_strlit("control");
    reveal_strlit("option");
    reveal_strlit("windows");
    reveal_strlit("meta");
    reveal_strlit("cmd");
    reveal_strlit("super");
    assert(ascii_lower("Ctrl"@) =~= "ctrl"@);
    assert(ascii_lower("Alt"@) =~= "alt"@);
    assert(ascii_lower("Shift"@) =~= "shift"@);
    assert(ascii_lower("Win"@) =~= "win"@);
    assert("win"@ != "ctrl"@ && "win"@ != "control"@ && "win"@ != "alt"@ && "win"@ != "option"@ && "win"@ != "shift"@) by {
        assert("win"@[0] != "ctrl"@[0]);
        assert("win"@[0] != "control"@[0]);
        assert("win"@[0] != "alt"@[0]);
        assert("win"@[0] != "option"@[0]);
        assert("win"@[0] != "shift"@[0]);
    }
}

proof fn lemma_modifier_names_shape(ctrl: bool, alt: bool, shift: bool, win: bool)
    ensures
        ({
            let names = modifier_names(ctrl, alt, shift, win);
            &&& forall|i: int|
                0 <= i < names.len() ==> ((#[trigger] names[i] == "Ctrl"@ && ctrl) || (names[i]
                    == "Alt"@ && alt) || (names[i] == "Shift"@ && shift) || (names[i] == "Win"@
                    && win))
            &&& ctrl ==> names.contains("Ctrl"@)
            &&& alt ==> names.contains("Alt"@)
            &&& shift ==> names.contains("Shift"@)
            &&& win ==> names.contains("Win"@)
        }),
{
    let names = modifier_names(ctrl, alt, shift, win);
    if ctrl && alt && shift && win {
        assert(modifier_names(ctrl, alt, shift, win) =~= seq!["Ctrl"@, "Alt"@, "Shift"@, "Win"@]);
    }
    if ctrl && alt && shift && !win {
        assert(modifier_names(ctrl, alt, shift, win) =~= seq!["Ctrl"@, "Alt"@, "Shift"@]);
    }
    if ctrl && alt && !shift && win {
        assert(modifier_names(ctrl, alt, shift, win) =~= seq!["Ctrl"@, "Alt"@, "Win"@]);
    }
    if ctrl && alt && !shift && !win {
        assert(modifier_names(ctrl, alt, shift, win) =~= seq!["Ctrl"@, "Alt"@]);
    }
    if ctrl && !alt && shift && win {
        assert(modifier_names(ctrl, alt, shift, win) =~= seq!["Ctrl"@, "Shift"@, "Win"@]);
    }
    if ctrl && !alt && shift && !win {
        assert(modifier_names(ctrl, alt, shift, win) =~= seq!["Ctrl"@, "Shift"@]);
    }
    if ctrl && !alt && !shift && win {
        assert(modifier_names(ctrl, alt, shift, win) =~= seq!["Ctrl"@, "Win"@]);
    }
    if ctrl && !alt && !shift && !win {
        assert(modifier_names(ctrl, alt, shift, win) =~= seq!["Ctrl"@]);
    }
    if !ctrl && alt && shift && win {
        assert(modifier_names(ctrl, alt, shift, win) =~= seq!["Alt"@, "Shift"@, "Win"@]);
    }
    if !ctrl && alt && shift && !win {
        assert(modifier_names(ctrl, alt, shift, win) =~= seq!["Alt"@, "Shift"@]);
    }
    if !ctrl && alt && !shift && win {
        assert(modifier_names(ctrl, alt, shift, win) =~= seq!["Alt"@, "Win"@]);
    }
    if !ctrl && alt && !shift && !win {
        assert(modifier_names(ctrl, alt, shift, win) =~= seq!["Alt"@]);
    }
    if !ctrl && !alt && shift && win {
        assert(modifier_names(ctrl, alt, shift, win) =~= seq!["Shift"@, "Win"@]);
    }
    if !ctrl && !alt && shift && !win {
        assert(modifier_names(ctrl, alt, shift, win) =~= seq!["Shift"@]);
    }
    if !ctrl && !alt && !shift && win {
        assert(modifier_names(ctrl, alt, shift, win) =~= seq!["Win"@]);
    }
    if !ctrl && !alt && !shift && !win {
        assert(modifier_names(ctrl, alt, shift, win) =~= Seq::<Seq<char>>::empty());
    }
    if ctrl {
        assert(names[0] == "Ctrl"@);
    }
    if alt {
        let k: int = if ctrl { 1 } else { 0 };
        assert(names[k] == "Alt"@);
    }
    if shift {
        let k: int = (if ctrl { 1int } else { 0int }) + (if alt { 1int } else { 0int });
        assert(names[k] == "Shift"@);
    }
    if win {
        let k: int = (if ctrl { 1int } else { 0int }) + (if alt { 1int } else { 0int }) + (if shift { 1int } else { 0int });
        assert(names[k] == "Win"@);
    }
}

proof fn lemma_nonempty_trimmed_id(parts: Seq<Seq<char>>)
    requires
        forall|k: int| 0 <= k < parts.len() ==> #[trigger] parts[k].len() > 0 && has_no_ws(parts[k]),
    ensures
        nonempty_trimmed(parts) == parts,
    decreases parts.len(),
{
    if parts.len() > 0 {
        let init = parts.drop_last();
        assert forall|k: int| 0 <= k < init.len() implies #[trigger] init[k].len() > 0 && has_no_ws(init[k]) by {
            assert(init[k] == parts[k]);
        }
        lemma_nonempty_trimmed_id(init);
        assert(parts[parts.len() - 1].len() > 0);
        lemma_trim_no_ws(parts.last());
        assert(init.push(parts.last()) =~= parts);
    }
}

proof fn lemma_key_parts_of_modifiers(names: Seq<Seq<char>>)
    requires
        forall|k: int| 0 <= k < names.len() ==> modifier_of(#[trigger] names[k]) is Some,
    ensures
        key_parts(names) == Seq::<Seq<char>>::empty(),
    decreases names.len(),
{
    if names.len() > 0 {
        let init = names.drop_last();
        assert forall|k: int| 0 <= k < init.len() implies modifier_of(#[trigger] init[k]) is Some by {
            assert(init[k] == names[k]);
        }
        lemma_key_parts_of_modifiers(init);
        assert(modifier_of(names[names.len() - 1]) is Some);
    }
}

/// The canonical label of a binding with a canonical key parses to that binding.
pub proof fn lemma_parse_canonical(ctrl: bool, alt: bool, shift: bool, win: bool, kl: Seq<char>, code: u32)
    requires
        ctrl || alt || shift || win,
        is_canonical_key(kl, code),
    ensures
        parse_shortcut(canonical_label(ctrl, alt, shift, win, kl)) == Some(
            (canonical_label(ctrl, alt, shift, win, kl), modifier_bits(ctrl, alt, shift, win), code),
        ),
{
    lemma_modifier_literals();
    lemma_modifier_names_shape(ctrl, alt, shift, win);
    reveal_strlit("+");
    let names = modifier_names(ctrl, alt, shift, win);
    let parts = names.push(kl);
    let label = canonical_label(ctrl, alt, shift, win, kl);
    assert("+"@ =~= seq!['+']);
    assert forall|k: int, i: int| 0 <= k < parts.len() && 0 <= i < parts[k].len() implies #[trigger] parts[k][i] != '+' by {
        if k < names.len() {
            assert(names[k] == "Ctrl"@ || names[k] == "Alt"@ || names[k] == "Shift"@ || names[k] == "Win"@);
        }
    }
    lemma_split_join(parts, '+');
    assert forall|k: int| 0 <= k < parts.len() implies #[trigger] parts[k].len() > 0 && has_no_ws(parts[k]) by {
        if k < names.len() {
            assert(names[k] == "Ctrl"@ || names[k] == "Alt"@ || names[k] == "Shift"@ || names[k] == "Win"@);
        }
    }
    lemma_nonempty_trimmed_id(parts);
    assert(shortcut_parts(label) == parts);
    assert forall|k: int| 0 <= k < names.len() implies modifier_of(#[trigger] names[k]) is Some by {
        assert(names[k] == "Ctrl"@ || names[k] == "Alt"@ || names[k] == "Shift"@ || names[k] == "Win"@);
    }
    lemma_key_parts_of_modifiers(names);
    assert(parts.drop_last() =~= names);
    assert(key_parts(parts) =~= seq![kl]);
    assert(has_modifier(parts, Modifier::Ctrl) == ctrl) by {
        if ctrl {
            let w = choose|w: int| 0 <= w < names.len() && names[w] == "Ctrl"@;
            assert(parts[w] == names[w]);
        }
        if has_modifier(parts, Modifier::Ctrl) {
            let w = choose|w: int| 0 <= w < parts.len() && modifier_of(#[trigger] parts[w]) == Some(Modifier::Ctrl);
            if w < names.len() {
                assert(parts[w] == names[w]);
            }
        }
    }
    assert(has_modifier(parts, Modifier::Alt) == alt) by {
        if alt {
            let w = choose|w: int| 0 <= w < names.len() && names[w] == "Alt"@;
            assert(parts[w] == names[w]);
        }
        if has_modifier(parts, Modifier::Alt) {
            let w = choose|w: int| 0 <= w < parts.len() && modifier_of(#[trigger] parts[w]) == Some(Modifier::Alt);
            if w < names.len() {
                assert(parts[w] == names[w]);
            }
        }
    }
    assert(has_modifier(parts, Modifier::Shift) == shift) by {
        if shift {
            let w = choose|w: int| 0 <= w < names.len() && names[w] == "Shift"@;
            assert(parts[w] == names[w]);
        }
        if has_modifier(parts, Modifier::Shift) {
            let w = choose|w: int| 0 <= w < parts.len() && modifier_of(#[trigger] parts[w]) == Some(Modifier::Shift);
            if w < names.len() {
                assert(parts[w] == names[w]);
            }
        }
    }
    assert(has_modifier(parts, Modifier::Win) == win) by {
        if win {
            let w = choose|w: int| 0 <= w < names.len() && names[w] == "Win"@;
            assert(parts[w] == names[w]);
        }
        if has_modifier(parts, Modifier::Win) {
            let w = choose|w: int| 0 <= w < parts.len() && modifier_of(#[trigger] parts[w]) == Some(Modifier::Win);
            if w < names.len() {
                assert(parts[w] == names[w]);
            }
        }
    }
}

proof fn lemma_named_key_esc()
    ensures
        is_canonical_key("Esc"@, 0x1Bu32),
{
    reveal_strlit("ESC");
    reveal_strlit("ESCAPE");
    reveal_strlit("Esc");
    reveal_strlit("alt");
    reveal_strlit("cmd");
    reveal_strlit("control");
    reveal_strlit("ctrl");
    reveal_strlit("meta");
    reveal_strlit("option");
    reveal_strlit("shift");
    reveal_strlit("super");
    reveal_strlit("win");
    reveal_strlit("windows");
    assert(ascii_upper("Esc"@) =~= "ESC"@);
    let lower = ascii_lower("Esc"@);
    assert(lower.len() != "ctrl"@.len());
    assert(lower.len() != "control"@.len());
    assert(lower[0] != "alt"@[0]);
    assert(lower.len() != "option"@.len());
    assert(lower.len() != "shift"@.len());
    assert(lower[0] != "win"@[0]);
    assert(lower.len() != "windows"@.len());
    assert(lower.len() != "meta"@.len());
    assert(lower[0] != "cmd"@[0]);
    assert(lower.len() != "super"@.len());
    lemma_trim_no_ws("Esc"@);
}

proof fn lemma_named_key_tab()
    ensures
        is_canonical_key("Tab"@, 0x09u32),
{
    reveal_strlit("ESC");
    reveal_strlit("ESCAPE");
    reveal_strlit("TAB");
    reveal_strlit("Tab");
    reveal_strlit("alt");
    reveal_strlit("cmd");
    reveal_strlit("control");
    reveal_strlit("ctrl");
    reveal_strlit("meta");
    reveal_strlit("option");
    reveal_strlit("shift");
    reveal_strlit("super");
    reveal_strlit("win");
    reveal_strlit("windows");
    assert(ascii_upper("Tab"@) =~= "TAB"@);
    let lower = ascii_lower("Tab"@);
    assert(lower.len() != "ctrl"@.len());
    assert(lower.len() != "control"@.len());
    assert(lower[0] != "alt"@[0]);
    assert(lower.len() != "option"@.len());
    assert(lower.len() != "shift"@.len());
    assert(lower[0] != "win"@[0]);
    assert(lower.len() != "windows"@.len());
    assert(lower.len() != "meta"@.len());
    assert(lower[0] != "cmd"@[0]);
    assert(lower.len() != "super"@.len());
    assert("TAB"@[0] != "ESC"@[0]);
    assert("TAB"@.len() != "ESCAPE"@.len());
    lemma_trim_no_ws("Tab"@);
}

proof fn lemma_named_key_enter()
    ensures
        is_canonical_key("Enter"@, 0x0Du32),
{
    reveal_strlit("ENTER");
    reveal_strlit("ESC");
    reveal_strlit("ESCAPE");
    reveal_strlit("Enter");
    reveal_strlit("RETURN");
    reveal_strlit("TAB");
    reveal_strlit("alt");
    reveal_strlit("cmd");
    reveal_strlit("control");
    reveal_strlit("ctrl");
    reveal_strlit("meta");
    reveal_strlit("option");
    reveal_strlit("shift");
    reveal_strlit("super");
    reveal_strlit("win");
    reveal_strlit("windows");
    assert(ascii_upper("Enter"@) =~= "ENTER"@);
    let lower = ascii_lower("Enter"@);
    assert(lower.len() != "ctrl"@.len());
    assert(lower.len() != "control"@.len());
    assert(lower.len() != "alt"@.len());
    assert(lower.len() != "option"@.len());
    assert(lower[0] != "shift"@[0]);
    assert(lower.len() != "win"@.len());
    assert(lower.len() != "windows"@.len());
    assert(lower.len() != "meta"@.len());
    assert(lower.len() != "cmd"@.len());
    assert(lower[0] != "super"@[0]);
    assert("ENTER"@.len() != "ESC"@.len());
    assert("ENTER"@.len() != "ESCAPE"@.len());
    assert("ENTER"@.len() != "TAB"@.len());
    lemma_trim_no_ws("Enter"@);
}

proof fn lemma_named_key_space()
    ensures
        is_canonical_key("Space"@, 0x20u32),
{
    reveal_strlit("ENTER");
    reveal_strlit("ESC");
    reveal_strlit("ESCAPE");
    reveal_strlit("RETURN");
    reveal_strlit("SPACE");
    reveal_strlit("Space");
    reveal_strlit("TAB");
    reveal_strlit("alt");
    reveal_strlit("cmd");
    reveal_strlit("control");
    reveal_strlit("ctrl");
    reveal_strlit("meta");
    reveal_strlit("option");
    reveal_strlit("shift");
    reveal_strlit("super");
    reveal_strlit("win");
    reveal_strlit("windows");
    assert(ascii_upper("Space"@) =~= "SPACE"@);
    let lower = ascii_lower("Space"@);
    assert(lower.len() != "ctrl"@.len());
    assert(lower.len() != "control"@.len());
    assert(lower.len() != "alt"@.len());
    assert(lower.len() != "option"@.len());
    assert(lower[1] != "shift"@[1]);
    assert(lower.len() != "win"@.len());
    assert(lower.len() != "windows"@.len());
    assert(lower.len() != "meta"@.len());
    assert(lower.len() != "cmd"@.len());
    assert(lower[1] != "super"@[1]);
    assert("SPACE"@.len() != "ESC"@.len());
    assert("SPACE"@.len() != "ESCAPE"@.len());
    assert("SPACE"@.len() != "TAB"@.len());
    assert("SPACE"@[0] != "ENTER"@[0]);
    assert("SPACE"@.len() != "RETURN"@.len());
    lemma_trim_no_ws("Space"@);
}

proof fn lemma_named_key_backspace()
    ensures
        is_canonical_key("Backspace"@, 0x08u32),
{
    reveal_strlit("BACKSPACE");
    reveal_strlit("Backspace");
    reveal_strlit("ENTER");
    reveal_strlit("ESC");
    reveal_strlit("ESCAPE");
    reveal_strlit("RETURN");
    reveal_strlit("SPACE");
    reveal_strlit("TAB");
    reveal_strlit("alt");
    reveal_strlit("cmd");
    reveal_strlit("control");
    reveal_strlit("ctrl");
    reveal_strlit("meta");
    reveal_strlit("option");
    reveal_strlit("shift");
    reveal_strlit("super");
    reveal_strlit("win");
    reveal_strlit("windows");
    assert(ascii_upper("Backspace"@) =~= "BACKSPACE"@);
    let lower = ascii_lower("Backspace"@);
    assert(lower.len() != "ctrl"@.len());
    assert(lower.len() != "control"@.len());
    assert(lower.len() != "alt"@.len());
    assert(lower.len() != "option"@.len());
    assert(lower.len() != "shift"@.len());
    assert(lower.len() != "win"@.len());
    assert(lower.len() != "windows"@.len());
    assert(lower.len() != "meta"@.len());
    assert(lower.len() != "cmd"@.len());
    assert(lower.len() != "super"@.len());
    assert("BACKSPACE"@.len() != "ESC"@.len());
    assert("BACKSPACE"@.len() != "ESCAPE"@.len());
    assert("BACKSPACE"@.len() != "TAB"@.len());
    assert("BACKSPACE"@.len() != "ENTER"@.len());
    assert("BACKSPACE"@.len() != "RETURN"@.len());
    assert("BACKSPACE"@.len() != "SPACE"@.len());
    lemma_trim_no_ws("Backspace"@);
}

proof fn lemma_named_key_delete()
    ensures
        is_canonical_key("Delete"@, 0x2Eu32),
{
    reveal_strlit("BACKSPACE");
    reveal_strlit("DEL");
    reveal_strlit("DELETE");
    reveal_strlit("Delete");
    reveal_strlit("ENTER");
    reveal_strlit("ESC");
    reveal_strlit("ESCAPE");
    reveal_strlit("RETURN");
    reveal_strlit("SPACE");
    reveal_strlit("TAB");
    reveal_strlit("alt");
    reveal_strlit("cmd");
    reveal_strlit("control");
    reveal_strlit("ctrl");
    reveal_strlit("meta");
    reveal_strlit("option");
    reveal_strlit("shift");
    reveal_strlit("super");
    reveal_strlit("win");
    reveal_strlit("windows");
    assert(ascii_upper("Delete"@) =~= "DELETE"@);
    let lower = ascii_lower("Delete"@);
    assert(lower.len() != "ctrl"@.len());
    assert(lower.len() != "control"@.len());
    assert(lower.len() != "alt"@.len());
    assert(lower[0] != "option"@[0]);
    assert(lower.len() != "shift"@.len());
    assert(lower.len() != "win"@.len());
    assert(lower.len() != "windows"@.len());
    assert(lower.len() != "meta"@.len());
    assert(lower.len() != "cmd"@.len());
    assert(lower.len() != "super"@.len());
    assert("DELETE"@.len() != "ESC"@.len());
    assert("DELETE"@[0] != "ESCAPE"@[0]);
    assert("DELETE"@.len() != "TAB"@.len());
    assert("DELETE"@.len() != "ENTER"@.len());
    assert("DELETE"@[0] != "RETURN"@[0]);
    assert("DELETE"@.len() != "SPACE"@.len());
    assert("DELETE"@.len() != "BACKSPACE"@.len());
    lemma_trim_no_ws("Delete"@);
}

proof fn lemma_named_key_insert()
    ensures
        is_canonical_key("Insert"@, 0x2Du32),
{
    reveal_strlit("BACKSPACE");
    reveal_strlit("DEL");
    reveal_strlit("DELETE");
    reveal_strlit("ENTER");
    reveal_strlit("ESC");
    reveal_strlit("ESCAPE");
    reveal_strlit("INS");
    reveal_strlit("INSERT");
    reveal_strlit("Insert");
    reveal_strlit("RETURN");
    reveal_strlit("SPACE");
    reveal_strlit("TAB");
    reveal_strlit("alt");
    reveal_strlit("cmd");
    reveal_strlit("control");
    reveal_strlit("ctrl");
    reveal_strlit("meta");
    reveal_strlit("option");
    reveal_strlit("shift");
    reveal_strlit("super");
    reveal_strlit("win");
    reveal_strlit("windows");
    assert(ascii_upper("Insert"@) =~= "INSERT"@);
    let lower = ascii_lower("Insert"@);
    assert(lower.len() != "ctrl"@.len());
    assert(lower.len() != "control"@.len());
    assert(lower.len() != "alt"@.len());
    assert(lower[0] != "option"@[0]);
    assert(lower.len() != "shift"@.len());
    assert(lower.len() != "win"@.len());
    assert(lower.len() != "windows"@.len());
    assert(lower.len() != "meta"@.len());
    assert(lower.len() != "cmd"@.len());
    assert(lower.len() != "super"@.len());
    assert("INSERT"@.len() != "ESC"@.len());
    assert("INSERT"@[0] != "ESCAPE"@[0]);
    assert("INSERT"@.len() != "TAB"@.len());
    assert("INSERT"@.len() != "ENTER"@.len());
    assert("INSERT"@[0] != "RETURN"@[0]);
    assert("INSERT"@.len() != "SPACE"@.len());
    assert("INSERT"@.len() != "BACKSPACE"@.len());
    assert("INSERT"@[0] != "DELETE"@[0]);
    assert("INSERT"@.len() != "DEL"@.len());
    lemma_trim_no_ws("Insert"@);
}

proof fn lemma_named_key_home()
    ensures
        is_canonical_key("Home"@, 0x24u32),
{
    reveal_strlit("BACKSPACE");
    reveal_strlit("DEL");
    reveal_strlit("DELETE");
    reveal_strlit("ENTER");
    reveal_strlit("ESC");
    reveal_strlit("ESCAPE");
    reveal_strlit("HOME");
    reveal_strlit("Home");
    reveal_strlit("INS");
    reveal_strlit("INSERT");
    reveal_strlit("RETURN");
    reveal_strlit("SPACE");
    reveal_strlit("TAB");
    reveal_strlit("alt");
    reveal_strlit("cmd");
    reveal_strlit("control");
    reveal_strlit("ctrl");
    reveal_strlit("meta");
    reveal_strlit("option");
    reveal_strlit("shift");
    reveal_strlit("super");
    reveal_strlit("win");
    reveal_strlit("windows");
    assert(ascii_upper("Home"@) =~= "HOME"@);
    let lower = ascii_lower("Home"@);
    assert(lower[0] != "ctrl"@[0]);
    assert(lower.len() != "control"@.len());
    assert(lower.len() != "alt"@.len());
    assert(lower.len() != "option"@.len());
    assert(lower.len() != "shift"@.len());
    assert(lower.len() != "win"@.len());
    assert(lower.len() != "windows"@.len());
    assert(lower[0] != "meta"@[0]);
    assert(lower.len() != "cmd"@.len());
    assert(lower.len() != "super"@.len());
    assert("HOME"@.len() != "ESC"@.len());
    assert("HOME"@.len() != "ESCAPE"@.len());
    assert("HOME"@.len() != "TAB"@.len());
    assert("HOME"@.len() != "ENTER"@.len());
    assert("HOME"@.len() != "RETURN"@.len());
    assert("HOME"@.len() != "SPACE"@.len());
    assert("HOME"@.len() != "BACKSPACE"@.len());
    assert("HOME"@.len() != "DELETE"@.len());
    assert("HOME"@.len() != "DEL"@.len());
    assert("HOME"@.len() != "INSERT"@.len());
    assert("HOME"@.len() != "INS"@.len());
    lemma_trim_no_ws("Home"@);
}

proof fn lemma_named_key_end()
    ensures
        is_canonical_key("End"@, 0x23u32),
{
    reveal_strlit("BACKSPACE");
    reveal_strlit("DEL");
    reveal_strlit("DELETE");
    reveal_strlit("END");
    reveal_strlit("ENTER");
    reveal_strlit("ESC");
    reveal_strlit("ESCAPE");
    reveal_strlit("End");
    reveal_strlit("HOME");
    reveal_strlit("INS");
    reveal_strlit("INSERT");
    reveal_strlit("RETURN");
    reveal_strlit("SPACE");
    reveal_strlit("TAB");
    reveal_strlit("alt");
    reveal_strlit("cmd");
    reveal_strlit("control");
    reveal_strlit("ctrl");
    reveal_strlit("meta");
    reveal_strlit("option");
    reveal_strlit("shift");
    reveal_strlit("super");
    reveal_strlit("win");
    reveal_strlit("windows");
    assert(ascii_upper("End"@) =~= "END"@);
    let lower = ascii_lower("End"@);
    assert(lower.len() != "ctrl"@.len());
    assert(lower.len() != "control"@.len());
    assert(lower[0] != "alt"@[0]);
    assert(lower.len() != "option"@.len());
    assert(lower.len() != "shift"@.len());
    assert(lower[0] != "win"@[0]);
    assert(lower.len() != "windows"@.len());
    assert(lower.len() != "meta"@.len());
    assert(lower[0] != "cmd"@[0]);
    assert(lower.len() != "super"@.len());
    assert("END"@[1] != "ESC"@[1]);
    assert("END"@.len() != "ESCAPE"@.len());
    assert("END"@[0] != "TAB"@[0]);
    assert("END"@.len() != "ENTER"@.len());
    assert("END"@.len() != "RETURN"@.len());
    assert("END"@.len() != "SPACE"@.len());
    assert("END"@.len() != "BACKSPACE"@.len());
    assert("END"@.len() != "DELETE"@.len());
    assert("END"@[0] != "DEL"@[0]);
    assert("END"@.len() != "INSERT"@.len());
    assert("END"@[0] != "INS"@[0]);
    assert("END"@.len() != "HOME"@.len());
    lemma_trim_no_ws("End"@);
}

proof fn lemma_named_key_pageup()
    ensures
        is_canonical_key("PageUp"@, 0x21u32),
{
    reveal_strlit("BACKSPACE");
    reveal_strlit("DEL");
    reveal_strlit("DELETE");
    reveal_strlit("END");
    reveal_strlit("ENTER");
    reveal_strlit("ESC");
    reveal_strlit("ESCAPE");
    reveal_strlit("HOME");
    reveal_strlit("INS");
    reveal_strlit("INSERT");
    reveal_strlit("PAGE UP");
    reveal_strlit("PAGEUP");
    reveal_strlit("PageUp");
    reveal_strlit("RETURN");
    reveal_strlit("SPACE");
    reveal_strlit("TAB");
    reveal_strlit("alt");
    reveal_strlit("cmd");
    reveal_strlit("control");
    reveal_strlit("ctrl");
    reveal_strlit("meta");
    reveal_strlit("option");
    reveal_strlit("shift");
    reveal_strlit("super");
    reveal_strlit("win");
    reveal_strlit("windows");
    assert(ascii_upper("PageUp"@) =~= "PAGEUP"@);
    let lower = ascii_lower("PageUp"@);
    assert(lower.len() != "ctrl"@.len());
    assert(lower.len() != "control"@.len());
    assert(lower.len() != "alt"@.len());
    assert(lower[0] != "option"@[0]);
    assert(lower.len() != "shift"@.len());
    assert(lower.len() != "win"@.len());
    assert(lower.len() != "windows"@.len());
    assert(lower.len() != "meta"@.len());
    assert(lower.len() != "cmd"@.len());
    assert(lower.len() != "super"@.len());
    assert("PAGEUP"@.len() != "ESC"@.len());
    assert("PAGEUP"@[0] != "ESCAPE"@[0]);
    assert("PAGEUP"@.len() != "TAB"@.len());
    assert("PAGEUP"@.len() != "ENTER"@.len());
    assert("PAGEUP"@[0] != "RETURN"@[0]);
    assert("PAGEUP"@.len() != "SPACE"@.len());
    assert("PAGEUP"@.len() != "BACKSPACE"@.len());
    assert("PAGEUP"@[0] != "DELETE"@[0]);
    assert("PAGEUP"@.len() != "DEL"@.len());
    assert("PAGEUP"@[0] != "INSERT"@[0]);
    assert("PAGEUP"@.len() != "INS"@.len());
    assert("PAGEUP"@.len() != "HOME"@.len());
    assert("PAGEUP"@.len() != "END"@.len());
    lemma_trim_no_ws("PageUp"@);
}

proof fn lemma_named_key_pagedown()
    ensures
        is_canonical_key("PageDown"@, 0x22u32),
{
    reveal_strlit("BACKSPACE");
    reveal_strlit("DEL");
    reveal_strlit("DELETE");
    reveal_strlit("END");
    reveal_strlit("ENTER");
    reveal_strlit("ESC");
    reveal_strlit("ESCAPE");
    reveal_strlit("HOME");
    reveal_strlit("INS");
    reveal_strlit("INSERT");
    reveal_strlit("PAGE DOWN");
    reveal_strlit("PAGE UP");
    reveal_strlit("PAGEDOWN");
    reveal_strlit("PAGEUP");
    reveal_strlit("PageDown");
    reveal_strlit("RETURN");
    reveal_strlit("SPACE");
    reveal_strlit("TAB");
    reveal_strlit("alt");
    reveal_strlit("cmd");
    reveal_strlit("control");
    reveal_strlit("ctrl");
    reveal_strlit("meta");
    reveal_strlit("option");
    reveal_strlit("shift");
    reveal_strlit("super");
    reveal_strlit("win");
    reveal_strlit("windows");
    assert(ascii_upper("PageDown"@) =~= "PAGEDOWN"@);
    let lower = ascii_lower("PageDown"@);
    assert(lower.len() != "ctrl"@.len());
    assert(lower.len() != "control"@.len());
    assert(lower.len() != "alt"@.len());
    assert(lower.len() != "option"@.len());
    assert(lower.len() != "shift"@.len());
    assert(lower.len() != "win"@.len());
    assert(lower.len() != "windows"@.len());
    assert(lower.len() != "meta"@.len());
    assert(lower.len() != "cmd"@.len());
    assert(lower.len() != "super"@.len());
    assert("PAGEDOWN"@.len() != "ESC"@.len());
    assert("PAGEDOWN"@.len() != "ESCAPE"@.len());
    assert("PAGEDOWN"@.len() != "TAB"@.len());
    assert("PAGEDOWN"@.len() != "ENTER"@.len());
    assert("PAGEDOWN"@.len() != "RETURN"@.len());
    assert("PAGEDOWN"@.len() != "SPACE"@.len());
    assert("PAGEDOWN"@.len() != "BACKSPACE"@.len());
    assert("PAGEDOWN"@.len() != "DELETE"@.len());
    assert("PAGEDOWN"@.len() != "DEL"@.len());
    assert("PAGEDOWN"@.len() != "INSERT"@.len());
    assert("PAGEDOWN"@.len() != "INS"@.len());
    assert("PAGEDOWN"@.len() != "HOME"@.len());
    assert("PAGEDOWN"@.len() != "END"@.len());
    assert("PAGEDOWN"@.len() != "PAGEUP"@.len());
    assert("PAGEDOWN"@.len() != "PAGE UP"@.len());
    lemma_trim_no_ws("PageDown"@);
}

proof fn lemma_named_key_up()
    ensures
        is_canonical_key("Up"@, 0x26u32),
{
    reveal_strlit("ARROWUP");
    reveal_strlit("BACKSPACE");
    reveal_strlit("DEL");
    reveal_strlit("DELETE");
    reveal_strlit("END");
    reveal_strlit("ENTER");
    reveal_strlit("ESC");
    reveal_strlit("ESCAPE");
    reveal_strlit("HOME");
    reveal_strlit("INS");
    reveal_strlit("INSERT");
    reveal_strlit("PAGE DOWN");
    reveal_strlit("PAGE UP");
    reveal_strlit("PAGEDOWN");
    reveal_strlit("PAGEUP");
    reveal_strlit("RETURN");
    reveal_strlit("SPACE");
    reveal_strlit("TAB");
    reveal_strlit("UP");
    reveal_strlit("Up");
    reveal_strlit("alt");
    reveal_strlit("cmd");
    reveal_strlit("control");
    reveal_strlit("ctrl");
    reveal_strlit("meta");
    reveal_strlit("option");
    reveal_strlit("shift");
    reveal_strlit("super");
    reveal_strlit("win");
    reveal_strlit("windows");
    assert(ascii_upper("Up"@) =~= "UP"@);
    let lower = ascii_lower("Up"@);
    assert(lower.len() != "ctrl"@.len());
    assert(lower.len() != "control"@.len());
    assert(lower.len() != "alt"@.len());
    assert(lower.len() != "option"@.len());
    assert(lower.len() != "shift"@.len());
    assert(lower.len() != "win"@.len());
    assert(lower.len() != "windows"@.len());
    assert(lower.len() != "meta"@.len());
    assert(lower.len() != "cmd"@.len());
    assert(lower.len() != "super"@.len());
    assert("UP"@.len() != "ESC"@.len());
    assert("UP"@.len() != "ESCAPE"@.len());
    assert("UP"@.len() != "TAB"@.len());
    assert("UP"@.len() != "ENTER"@.len());
    assert("UP"@.len() != "RETURN"@.len());
    assert("UP"@.len() != "SPACE"@.len());
    assert("UP"@.len() != "BACKSPACE"@.len());
    assert("UP"@.len() != "DELETE"@.len());
    assert("UP"@.len() != "DEL"@.len());
    assert("UP"@.len() != "INSERT"@.len());
    assert("UP"@.len() != "INS"@.len());
    assert("UP"@.len() != "HOME"@.len());
    assert("UP"@.len() != "END"@.len());
    assert("UP"@.len() != "PAGEUP"@.len());
    assert("UP"@.len() != "PAGE UP"@.len());
    assert("UP"@.len() != "PAGEDOWN"@.len());
    assert("UP"@.len() != "PAGE DOWN"@.len());
    assert("UP"@.len() != "ARROWUP"@.len());
    lemma_trim_no_ws("Up"@);
}

proof fn lemma_named_key_down()
    ensures
        is_canonical_key("Down"@, 0x28u32),
{
    reveal_strlit("ARROWDOWN");
    reveal_strlit("ARROWUP");
    reveal_strlit("BACKSPACE");
    reveal_strlit("DEL");
    reveal_strlit("DELETE");
    reveal_strlit("DOWN");
    reveal_strlit("Down");
    reveal_strlit("END");
    reveal_strlit("ENTER");
    reveal_strlit("ESC");
    reveal_strlit("ESCAPE");
    reveal_strlit("HOME");
    reveal_strlit("INS");
    reveal_strlit("INSERT");
    reveal_strlit("PAGE DOWN");
    reveal_strlit("PAGE UP");
    reveal_strlit("PAGEDOWN");
    reveal_strlit("PAGEUP");
    reveal_strlit("RETURN");
    reveal_strlit("SPACE");
    reveal_strlit("TAB");
    reveal_strlit("UP");
    reveal_strlit("alt");
    reveal_strlit("cmd");
    reveal_strlit("control");
    reveal_strlit("ctrl");
    reveal_strlit("meta");
    reveal_strlit("option");
    reveal_strlit("shift");
    reveal_strlit("super");
    reveal_strlit("win");
    reveal_strlit("windows");
    assert(ascii_upper("Down"@) =~= "DOWN"@);
    let lower = ascii_lower("Down"@);
    assert(lower[0] != "ctrl"@[0]);
    assert(lower.len() != "control"@.len());
    assert(lower.len() != "alt"@.len());
    assert(lower.len() != "option"@.len());
    assert(lower.len() != "shift"@.len());
    assert(lower.len() != "win"@.len());
    assert(lower.len() != "windows"@.len());
    assert(lower[0] != "meta"@[0]);
    assert(lower.len() != "cmd"@.len());
    assert(lower.len() != "super"@.len());
    assert("DOWN"@.len() != "ESC"@.len());
    assert("DOWN"@.len() != "ESCAPE"@.len());
    assert("DOWN"@.len() != "TAB"@.len());
    assert("DOWN"@.len() != "ENTER"@.len());
    assert("DOWN"@.len() != "RETURN"@.len());
    assert("DOWN"@.len() != "SPACE"@.len());
    assert("DOWN"@.len() != "BACKSPACE"@.len());
    assert("DOWN"@.len() != "DELETE"@.len());
    assert("DOWN"@.len() != "DEL"@.len());
    assert("DOWN"@.len() != "INSERT"@.len());
    assert("DOWN"@.len() != "INS"@.len());
    assert("DOWN"@[0] != "HOME"@[0]);
    assert("DOWN"@.len() != "END"@.len());
    assert("DOWN"@.len() != "PAGEUP"@.len());
    assert("DOWN"@.len() != "PAGE UP"@.len());
    assert("DOWN"@.len() != "PAGEDOWN"@.len());
    assert("DOWN"@.len() != "PAGE DOWN"@.len());
    assert("DOWN"@.len() != "ARROWUP"@.len());
    assert("DOWN"@.len() != "UP"@.len());
    assert("DOWN"@.len() != "ARROWDOWN"@.len());
    lemma_trim_no_ws("Down"@);
}

proof fn lemma_named_key_left()
    ensures
        is_canonical_key("Left"@, 0x25u32),
{
    reveal_strlit("ARROWDOWN");
    reveal_strlit("ARROWLEFT");
    reveal_strlit("ARROWUP");
    reveal_strlit("BACKSPACE");
    reveal_strlit("DEL");
    reveal_strlit("DELETE");
    reveal_strlit("DOWN");
    reveal_strlit("END");
    reveal_strlit("ENTER");
    reveal_strlit("ESC");
    reveal_strlit("ESCAPE");
    reveal_strlit("HOME");
    reveal_strlit("INS");
    reveal_strlit("INSERT");
    reveal_strlit("LEFT");
    reveal_strlit("Left");
    reveal_strlit("PAGE DOWN");
    reveal_strlit("PAGE UP");
    reveal_strlit("PAGEDOWN");
    reveal_strlit("PAGEUP");
    reveal_strlit("RETURN");
    reveal_strlit("SPACE");
    reveal_strlit("TAB");
    reveal_strlit("UP");
    reveal_strlit("alt");
    reveal_strlit("cmd");
    reveal_strlit("control");
    reveal_strlit("ctrl");
    reveal_strlit("meta");
    reveal_strlit("option");
    reveal_strlit("shift");
    reveal_strlit("super");
    reveal_strlit("win");
    reveal_strlit("windows");
    assert(ascii_upper("Left"@) =~= "LEFT"@);
    let lower = ascii_lower("Left"@);
    assert(lower[0] != "ctrl"@[0]);
    assert(lower.len() != "control"@.len());
    assert(lower.len() != "alt"@.len());
    assert(lower.len() != "option"@.len());
    assert(lower.len() != "shift"@.len());
    assert(lower.len() != "win"@.len());
    assert(lower.len() != "windows"@.len());
    assert(lower[0] != "meta"@[0]);
    assert(lower.len() != "cmd"@.len());
    assert(lower.len() != "super"@.len());
    assert("LEFT"@.len() != "ESC"@.len());
    assert("LEFT"@.len() != "ESCAPE"@.len());
    assert("LEFT"@.len() != "TAB"@.len());
    assert("LEFT"@.len() != "ENTER"@.len());
    assert("LEFT"@.len() != "RETURN"@.len());
    assert("LEFT"@.len() != "SPACE"@.len());
    assert("LEFT"@.len() != "BACKSPACE"@.len());
    assert("LEFT"@.len() != "DELETE"@.len());
    assert("LEFT"@.len() != "DEL"@.len());
    assert("LEFT"@.len() != "INSERT"@.len());
    assert("LEFT"@.len() != "INS"@.len());
    assert("LEFT"@[0] != "HOME"@[0]);
    assert("LEFT"@.len() != "END"@.len());
    assert("LEFT"@.len() != "PAGEUP"@.len());
    assert("LEFT"@.len() != "PAGE UP"@.len());
    assert("LEFT"@.len() != "PAGEDOWN"@.len());
    assert("LEFT"@.len() != "PAGE DOWN"@.len());
    assert("LEFT"@.len() != "ARROWUP"@.len());
    assert("LEFT"@.len() != "UP"@.len());
    assert("LEFT"@.len() != "ARROWDOWN"@.len());
    assert("LEFT"@[0] != "DOWN"@[0]);
    assert("LEFT"@.len() != "ARROWLEFT"@.len());
    lemma_trim_no_ws("Left"@);
}

proof fn lemma_named_key_right()
    ensures
        is_canonical_key("Right"@, 0x27u32),
{
    reveal_strlit("ARROWDOWN");
    reveal_strlit("ARROWLEFT");
    reveal_strlit("ARROWRIGHT");
    reveal_strlit("ARROWUP");
    reveal_strlit("BACKSPACE");
    reveal_strlit("DEL");
    reveal_strlit("DELETE");
    reveal_strlit("DOWN");
    reveal_strlit("END");
    reveal_strlit("ENTER");
    reveal_strlit("ESC");
    reveal_strlit("ESCAPE");
    reveal_strlit("HOME");
    reveal_strlit("INS");
    reveal_strlit("INSERT");
    reveal_strlit("LEFT");
    reveal_strlit("PAGE DOWN");
    reveal_strlit("PAGE UP");
    reveal_strlit("PAGEDOWN");
    reveal_strlit("PAGEUP");
    reveal_strlit("RETURN");
    reveal_strlit("RIGHT");
    reveal_strlit("Right");
    reveal_strlit("SPACE");
    reveal_strlit("TAB");
    reveal_strlit("UP");
    reveal_strlit("alt");
    reveal_strlit("cmd");
    reveal_strlit("control");
    reveal_strlit("ctrl");
    reveal_strlit("meta");
    reveal_strlit("option");
    reveal_strlit("shift");
    reveal_strlit("super");
    reveal_strlit("win");
    reveal_strlit("windows");
    assert(ascii_upper("Right"@) =~= "RIGHT"@);
    let lower = ascii_lower("Right"@);
    assert(lower.len() != "ctrl"@.len());
    assert(lower.len() != "control"@.len());
    assert(lower.len() != "alt"@.len());
    assert(lower.len() != "option"@.len());
    assert(lower[0] != "shift"@[0]);
    assert(lower.len() != "win"@.len());
    assert(lower.len() != "windows"@.len());
    assert(lower.len() != "meta"@.len());
    assert(lower.len() != "cmd"@.len());
    assert(lower[0] != "super"@[0]);
    assert("RIGHT"@.len() != "ESC"@.len());
    assert("RIGHT"@.len() != "ESCAPE"@.len());
    assert("RIGHT"@.len() != "TAB"@.len());
    assert("RIGHT"@[0] != "ENTER"@[0]);
    assert("RIGHT"@.len() != "RETURN"@.len());
    assert("RIGHT"@[0] != "SPACE"@[0]);
    assert("RIGHT"@.len() != "BACKSPACE"@.len());
    assert("RIGHT"@.len() != "DELETE"@.len());
    assert("RIGHT"@.len() != "DEL"@.len());
    assert("RIGHT"@.len() != "INSERT"@.len());
    assert("RIGHT"@.len() != "INS"@.len());
    assert("RIGHT"@.len() != "HOME"@.len());
    assert("RIGHT"@.len() != "END"@.len());
    assert("RIGHT"@.len() != "PAGEUP"@.len());
    assert("RIGHT"@.len() != "PAGE UP"@.len());
    assert("RIGHT"@.len() != "PAGEDOWN"@.len());
    assert("RIGHT"@.len() != "PAGE DOWN"@.len());
    assert("RIGHT"@.len() != "ARROWUP"@.len());
    assert("RIGHT"@.len() != "UP"@.len());
    assert("RIGHT"@.len() != "ARROWDOWN"@.len());
    assert("RIGHT"@.len() != "DOWN"@.len());
    assert("RIGHT"@.len() != "ARROWLEFT"@.len());
    assert("RIGHT"@.len() != "LEFT"@.len());
    assert("RIGHT"@.len() != "ARROWRIGHT"@.len());
    lemma_trim_no_ws("Right"@);
}

/// Every key that the key table accepts maps to a label that maps to itself.
pub proof fn lemma_key_code_canonical(key: Seq<char>)
    requires
        key_code_spec(key) is Some,
    ensures
        is_canonical_key(key_code_spec(key).unwrap().0, key_code_spec(key).unwrap().1),
{
    let u = ascii_upper(trim(key));
    let kl = key_code_spec(key).unwrap().0;
    let code = key_code_spec(key).unwrap().1;
    reveal_strlit("ctrl");
    reveal_strlit("control");
    reveal_strlit("alt");
    reveal_strlit("option");
    reveal_strlit("shift");
    reveal_strlit("win");
    reveal_strlit("windows");
    reveal_strlit("meta");
    reveal_strlit("cmd");
    reveal_strlit("super");
    if u.len() == 1 && is_ascii_alnum(u[0]) {
        assert(kl == u);
        let c = u[0];
        assert(('0' <= c <= '9') || ('A' <= c <= 'Z'));
        assert(!is_ws(c));
        assert(has_no_ws(u));
        lemma_trim_no_ws(u);
        assert(ascii_upper(u) =~= u);
        assert(ascii_lower(u).len() == 1);
    } else if function_key(u) is Some {
        let n = function_key(u).unwrap();
        let d = decimal(n as nat);
        lemma_decimal_digits(n as nat);
        assert(kl == seq!['F'] + d);
        assert forall|i: int| 0 <= i < kl.len() implies !is_ws(#[trigger] kl[i]) by {
            if i > 0 {
                assert(kl[i] == d[i - 1]);
                assert(is_digit(d[i - 1]));
            }
        }
        assert forall|i: int| 0 <= i < kl.len() implies #[trigger] kl[i] != '+' by {
            if i > 0 {
                assert(kl[i] == d[i - 1]);
                assert(is_digit(d[i - 1]));
            }
        }
        lemma_trim_no_ws(kl);
        assert forall|i: int| 0 <= i < kl.len() implies upper_char(#[trigger] kl[i]) == kl[i] by {
            if i > 0 {
                assert(kl[i] == d[i - 1]);
                assert(is_digit(d[i - 1]));
            }
        }
        assert(ascii_upper(kl) =~= kl);
        assert(kl.drop_first() =~= d);
        assert(d[0] != '+') by {
            assert(is_digit(d[0]));
        }
        assert(parse_u32(d) == Some(n));
        assert(function_key(kl) == Some(n));
        let lower = ascii_lower(kl);
        assert(lower[0] == 'f');
    } else {
        assert(named_key(u) == Some((kl, code)));
        if u == "ESC"@ || u == "ESCAPE"@ {
            lemma_named_key_esc();
        } else if u == "TAB"@ {
            lemma_named_key_tab();
        } else if u == "ENTER"@ || u == "RETURN"@ {
            lemma_named_key_enter();
        } else if u == "SPACE"@ {
            lemma_named_key_space();
        } else if u == "BACKSPACE"@ {
            lemma_named_key_backspace();
        } else if u == "DELETE"@ || u == "DEL"@ {
            lemma_named_key_delete();
        } else if u == "INSERT"@ || u == "INS"@ {
            lemma_named_key_insert();
        } else if u == "HOME"@ {
            lemma_named_key_home();
        } else if u == "END"@ {
            lemma_named_key_end();
        } else if u == "PAGEUP"@ || u == "PAGE UP"@ {
            lemma_named_key_pageup();
        } else if u == "PAGEDOWN"@ || u == "PAGE DOWN"@ {
            lemma_named_key_pagedown();
        } else if u == "ARROWUP"@ || u == "UP"@ {
            lemma_named_key_up();
        } else if u == "ARROWDOWN"@ || u == "DOWN"@ {
            lemma_named_key_down();
        } else if u == "ARROWLEFT"@ || u == "LEFT"@ {
            lemma_named_key_left();
        } else if u == "ARROWRIGHT"@ || u == "RIGHT"@ {
            lemma_named_key_right();
        }
    }
}

/// The label of a parsed shortcut is canonical: parsing it again gives the
/// same label, modifier bits and key code.
pub proof fn lemma_parse_label_fixed_point(s: Seq<char>)
    requires
        parse_shortcut(s) is Some,
    ensures
        parse_shortcut(parse_shortcut(s).unwrap().0) == parse_shortcut(s),
{
    let parts = shortcut_parts(s);
    let keys = key_parts(parts);
    let ctrl = has_modifier(parts, Modifier::Ctrl);
    let alt = has_modifier(parts, Modifier::Alt);
    let shift = has_modifier(parts, Modifier::Shift);
    let win = has_modifier(parts, Modifier::Win);
    let k = key_code_spec(keys[0]).unwrap();
    lemma_key_code_canonical(keys[0]);
    lemma_parse_canonical(ctrl, alt, shift, win, k.0, k.1);
}

/// `modifiers + key` with a single letter key parses to itself.
pub proof fn lemma_parse_letter_shortcut(ctrl: bool, alt: bool, key: char)
    requires
        ctrl || alt,
        'A' <= key <= 'Z',
    ensures
        parse_shortcut(canonical_label(ctrl, alt, false, false, seq![key])) == Some(
            (canonical_label(ctrl, alt, false, false, seq![key]), modifier_bits(ctrl, alt, false, false), key as u32),
        ),
{
    let k = seq![key];
    lemma_trim_no_ws(k);
    assert(ascii_upper(k) =~= k);
    assert(key_code_spec(k) == Some((k, key as u32)));
    lemma_key_code_canonical(k);
    lemma_parse_canonical(ctrl, alt, false, false, k, key as u32);
}

} // verus!
