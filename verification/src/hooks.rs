//! The agent status hooks written into Codex's `config.toml`: the commands,
//! the managed block, removing older FocuSD hooks, and deciding when an
//! installed hook needs upgrading.
use vstd::prelude::*;
use crate::text::{
    chars_of, contains, contains_chars, contains_str, ends_with, extend_chars, extend_str, join,
    occurs_at, occurs_at_exec, slice_chars, split_lines, starts_with, string_of, trim, trim_chars,
    views, lines_of, chars_eq, is_ws, is_ws_char, trim_end, lemma_trim_end_at, lemma_join_push,
    trim_end_chars, string_from,
};

verus! {

broadcast use vstd::seq_lib::group_seq_properties;

pub const FOCUSD_AGENT_HOOK_BLOCK_BEGIN: &'static str = "# BEGIN FocuSD Agent Status Hooks";

pub const FOCUSD_AGENT_HOOK_BLOCK_END: &'static str = "# END FocuSD Agent Status Hooks";

/// The version marker of the managed block; older blocks without it are
/// rewritten.
pub const FOCUSD_AGENT_HOOK_VERSION_MARKER: &'static str = "# FocuSD Agent Status Hooks Version: 2";

pub const FOCUSD_AGENT_HOOK_SIGNATURE: &'static str = "focusd-agent-";

pub const AGENT_RUNNING_SCRIPT_FILE_NAME: &'static str = "focusd-agent-running.cmd";

pub const AGENT_HOOK_SCRIPT_FILE_NAME: &'static str = "focusd-agent-hook.cmd";

pub const AGENT_STATUS_SCRIPT_FILE_NAME: &'static str = "focusd-agent-status.ps1";

// ---------------------------------------------------------------------------
// JSON string literals (TOML basic strings take the same form)
// ---------------------------------------------------------------------------

pub open spec fn hex_digit(d: int) -> char {
    if d < 10 {
        ((d + 48) as u32) as char
    } else {
        ((d - 10 + 97) as u32) as char
    }
}

/// How `serde_json` writes one character inside a string literal.
pub open spec fn escape_char(c: char) -> Seq<char> {
    let u = c as u32;
    if c == '"' {
        seq!['\\', '"']
    } else if c == '\\' {
        seq!['\\', '\\']
    } else if u == 0x08 {
        seq!['\\', 'b']
    } else if u == 0x09 {
        seq!['\\', 't']
    } else if u == 0x0a {
        seq!['\\', 'n']
    } else if u == 0x0c {
        seq!['\\', 'f']
    } else if u == 0x0d {
        seq!['\\', 'r']
    } else if u < 0x20 {
        seq!['\\', 'u', '0', '0', hex_digit((u / 16) as int), hex_digit((u % 16) as int)]
    } else {
        seq![c]
    }
}

pub open spec fn escape_chars(s: Seq<char>) -> Seq<char>
    decreases s.len(),
{
    if s.len() == 0 {
        Seq::empty()
    } else {
        escape_chars(s.drop_last()) + escape_char(s.last())
    }
}

/// The JSON string literal of `s`, as `serde_json::to_string` writes it.
pub open spec fn json_string(s: Seq<char>) -> Seq<char> {
    seq!['"'] + escape_chars(s) + seq!['"']
}

/// A character that a string literal holds as itself.
pub open spec fn is_plain(c: char) -> bool {
    c != '"' && c != '\\' && (c as u32) >= 0x20
}

proof fn lemma_escape_append(a: Seq<char>, b: Seq<char>)
    ensures
        escape_chars(a + b) == escape_chars(a) + escape_chars(b),
    decreases b.len(),
{
    if b.len() == 0 {
        assert(a + b =~= a);
        assert(escape_chars(a) + escape_chars(b) =~= escape_chars(a));
    } else {
        lemma_escape_append(a, b.drop_last());
        assert((a + b).drop_last() =~= a + b.drop_last());
        assert((a + b).last() == b.last());
    }
}

proof fn lemma_escape_plain(s: Seq<char>)
    requires
        forall|i: int| 0 <= i < s.len() ==> is_plain(#[trigger] s[i]),
    ensures
        escape_chars(s) == s,
    decreases s.len(),
{
    if s.len() > 0 {
        lemma_escape_plain(s.drop_last());
        assert(is_plain(s[s.len() - 1]));
        assert(s.drop_last().push(s.last()) =~= s);
    }
}

/// A plain part of a string stays visible in its escaped form.
pub proof fn lemma_escape_keeps_plain(s: Seq<char>, n: Seq<char>)
    requires
        contains(s, n),
        forall|i: int| 0 <= i < n.len() ==> is_plain(#[trigger] n[i]),
    ensures
        contains(escape_chars(s), n),
{
    let i = choose|i: int| occurs_at(s, n, i);
    let pre = s.subrange(0, i);
    let post = s.subrange(i + n.len(), s.len() as int);
    assert(s =~= pre + n + post);
    lemma_escape_append(pre + n, post);
    lemma_escape_append(pre, n);
    lemma_escape_plain(n);
    let e = escape_chars(s);
    let k = escape_chars(pre).len() as int;
    assert(e =~= escape_chars(pre) + n + escape_chars(post));
    assert(e.subrange(k, k + n.len()) =~= n);
    assert(occurs_at(e, n, k));
}

#[verifier::external_type_specification]
#[verifier::external_body]
pub struct ExJsonError(serde_json::Error);

/// `serde_json::to_string` on a string. It writes the JSON string literal
/// into an in-memory buffer, which cannot fail, escaping `"`, `\\` and the
/// control characters as `escape_char` says and leaving every other
/// character as it is.
#[verifier::external_body]
fn json_string_literal(value: &str) -> (r: Result<String, serde_json::Error>)
    ensures
        r is Ok,
        r is Ok ==> r->Ok_0@ == json_string(value@),
{
    serde_json::to_string(value)
}

/// The TOML basic string of `value`: its JSON string literal, or `""` if
/// serialization failed.
pub fn toml_basic_string(value: &str) -> (r: String)
    ensures
        r@ == json_string(value@),
{
    match json_string_literal(value) {
        Ok(text) => text,
        Err(_) => string_from("\"\""),
    }
}

// ---------------------------------------------------------------------------
// Hook commands and the managed block
// ---------------------------------------------------------------------------

/// `""<script>" <provider> <phase>"`: the argument `cmd.exe /s /c` runs.
pub open spec fn hook_command_argument(script: Seq<char>, provider: Seq<char>, phase: Seq<char>) -> Seq<char> {
    "\"\""@ + script + "\" "@ + provider + " "@ + phase + "\""@
}

/// The command line of a hook.
pub open spec fn hook_command(script: Seq<char>, provider: Seq<char>, phase: Seq<char>) -> Seq<char> {
    "cmd.exe /d /s /c "@ + hook_command_argument(script, provider, phase)
}

/// The argument that `cmd.exe /d /s /c` runs for a hook of `provider`
/// reporting `phase`.
pub fn agent_hook_command_argument(script_path: &str, provider: &str, phase: &str) -> (r: String)
    ensures
        r@ == hook_command_argument(script_path@, provider@, phase@),
{
    let mut out: Vec<char> = Vec::new();
    extend_str(&mut out, "\"\"");
    extend_str(&mut out, script_path);
    extend_str(&mut out, "\" ");
    extend_str(&mut out, provider);
    extend_str(&mut out, " ");
    extend_str(&mut out, phase);
    extend_str(&mut out, "\"");
    assert(out@ =~= hook_command_argument(script_path@, provider@, phase@));
    string_of(&out)
}

/// The command line of a hook of `provider` reporting `phase`.
pub fn agent_hook_command(script_path: &str, provider: &str, phase: &str) -> (r: String)
    ensures
        r@ == hook_command(script_path@, provider@, phase@),
{
    let argument = agent_hook_command_argument(script_path, provider, phase);
    let mut out: Vec<char> = Vec::new();
    extend_str(&mut out, "cmd.exe /d /s /c ");
    extend_str(&mut out, argument.as_str());
    assert(out@ =~= hook_command(script_path@, provider@, phase@));
    string_of(&out)
}

/// The managed block of Codex's `config.toml`: the version marker, then a
/// `UserPromptSubmit` hook reporting `running` and a `Stop` hook reporting
/// `completed`, both through `script`.
pub open spec fn codex_hook_block(script: Seq<char>) -> Seq<char> {
    let submit = json_string(hook_command(script, "codex"@, "running"@));
    let stop = json_string(hook_command(script, "codex"@, "completed"@));
    FOCUSD_AGENT_HOOK_BLOCK_BEGIN@ + "\n"@ + FOCUSD_AGENT_HOOK_VERSION_MARKER@
        + "\n\n[[hooks.UserPromptSubmit]]\n[[hooks.UserPromptSubmit.hooks]]\ntype = \"command\"\ncommand = "@
        + submit + "\ncommand_windows = "@ + submit
        + "\ntimeout = 5\nstatusMessage = \"Updating FocuSD agent status\"\n\n[[hooks.Stop]]\n[[hooks.Stop.hooks]]\ntype = \"command\"\ncommand = "@
        + stop + "\ncommand_windows = "@ + stop
        + "\ntimeout = 5\nstatusMessage = \"Updating FocuSD agent status\"\n\n"@
        + FOCUSD_AGENT_HOOK_BLOCK_END@
}

/// The managed block of Codex's `config.toml` for the hook script at
/// `hook_script_path`.
pub fn build_codex_hook_block(hook_script_path: &str) -> (r: String)
    ensures
        r@ == codex_hook_block(hook_script_path@),
{
    let submit_command = agent_hook_command(hook_script_path, "codex", "running");
    let stop_command = agent_hook_command(hook_script_path, "codex", "completed");
    let submit_text = toml_basic_string(submit_command.as_str());
    let stop_text = toml_basic_string(stop_command.as_str());
    let submit = chars_of(submit_text.as_str());
    let stop = chars_of(stop_text.as_str());
    let mut out: Vec<char> = Vec::new();
    extend_str(&mut out, FOCUSD_AGENT_HOOK_BLOCK_BEGIN);
    extend_str(&mut out, "\n");
    extend_str(&mut out, FOCUSD_AGENT_HOOK_VERSION_MARKER);
    extend_str(
        &mut out,
        "\n\n[[hooks.UserPromptSubmit]]\n[[hooks.UserPromptSubmit.hooks]]\ntype = \"command\"\ncommand = ",
    );
    extend_chars(&mut out, &submit);
    extend_str(&mut out, "\ncommand_windows = ");
    extend_chars(&mut out, &submit);
    extend_str(
        &mut out,
        "\ntimeout = 5\nstatusMessage = \"Updating FocuSD agent status\"\n\n[[hooks.Stop]]\n[[hooks.Stop.hooks]]\ntype = \"command\"\ncommand = ",
    );
    extend_chars(&mut out, &stop);
    extend_str(&mut out, "\ncommand_windows = ");
    extend_chars(&mut out, &stop);
    extend_str(&mut out, "\ntimeout = 5\nstatusMessage = \"Updating FocuSD agent status\"\n\n");
    extend_str(&mut out, FOCUSD_AGENT_HOOK_BLOCK_END);
    assert(out@ =~= codex_hook_block(hook_script_path@));
    string_of(&out)
}

/// A Codex configuration whose managed block is current: it has the block,
/// the version marker, the short hook script and the `cmd.exe` launcher.
pub open spec fn codex_hook_current(content: Seq<char>) -> bool {
    &&& contains(content, FOCUSD_AGENT_HOOK_BLOCK_BEGIN@)
    &&& contains(content, FOCUSD_AGENT_HOOK_VERSION_MARKER@)
    &&& contains(content, AGENT_HOOK_SCRIPT_FILE_NAME@)
    &&& contains(content, "cmd.exe /d /s /c"@)
}

/// A claudeCode settings file whose FocuSD hooks are current: it names the
/// short hook script, holds the FocuSD signature, and launches `cmd.exe`.
pub open spec fn claude_hook_current(content: Seq<char>) -> bool {
    &&& contains(content, AGENT_HOOK_SCRIPT_FILE_NAME@)
    &&& contains(content, FOCUSD_AGENT_HOOK_SIGNATURE@)
    &&& contains(content, "\"command\": \"cmd.exe\""@)
}

pub fn managed_codex_hook_has_current_entry(content: &str) -> (r: bool)
    ensures
        r == codex_hook_current(content@),
{
    let c = chars_of(content);
    contains_str(&c, FOCUSD_AGENT_HOOK_BLOCK_BEGIN) && contains_str(&c, FOCUSD_AGENT_HOOK_VERSION_MARKER)
        && contains_str(&c, AGENT_HOOK_SCRIPT_FILE_NAME) && contains_str(&c, "cmd.exe /d /s /c")
}

pub fn managed_claude_hook_has_current_entry(content: &str) -> (r: bool)
    ensures
        r == claude_hook_current(content@),
{
    let c = chars_of(content);
    contains_str(&c, AGENT_HOOK_SCRIPT_FILE_NAME) && contains_str(&c, FOCUSD_AGENT_HOOK_SIGNATURE)
        && contains_str(&c, "\"command\": \"cmd.exe\"")
}

/// Text found in the middle part is found in the whole.
pub proof fn lemma_contains_concat(a: Seq<char>, b: Seq<char>, c: Seq<char>, n: Seq<char>)
    requires
        contains(b, n),
    ensures
        contains(a + b + c, n),
{
    let i = choose|i: int| occurs_at(b, n, i);
    let w = a + b + c;
    assert(w.subrange(a.len() + i, a.len() + i + n.len()) =~= b.subrange(i, i + n.len()));
    assert(occurs_at(w, n, a.len() + i));
}

proof fn lemma_contains_self(n: Seq<char>)
    ensures
        contains(n, n),
{
    assert(n.subrange(0, n.len() as int) =~= n);
    assert(occurs_at(n, n, 0));
}

proof fn lemma_launcher_plain()
    ensures
        forall|i: int| 0 <= i < "cmd.exe /d /s /c"@.len() ==> is_plain(#[trigger] "cmd.exe /d /s /c"@[i]),
        "cmd.exe /d /s /c "@ == "cmd.exe /d /s /c"@ + " "@,
{
    reveal_strlit("cmd.exe /d /s /c");
    reveal_strlit("cmd.exe /d /s /c ");
    reveal_strlit(" ");
    assert("cmd.exe /d /s /c "@ =~= "cmd.exe /d /s /c"@ + " "@);
}

proof fn lemma_launcher_in_command(script: Seq<char>, provider: Seq<char>, phase: Seq<char>)
    ensures
        contains(escape_chars(hook_command(script, provider, phase)), "cmd.exe /d /s /c"@),
{
    lemma_launcher_plain();
    let launcher = "cmd.exe /d /s /c"@;
    let cmd = hook_command(script, provider, phase);
    let tail = " "@ + hook_command_argument(script, provider, phase);
    assert(cmd == launcher + " "@ + hook_command_argument(script, provider, phase));
    assert(cmd =~= Seq::<char>::empty() + launcher + tail);
    lemma_contains_self(launcher);
    lemma_contains_concat(Seq::empty(), launcher, tail, launcher);
    lemma_escape_keeps_plain(cmd, launcher);
}

proof fn lemma_script_in_command(script: Seq<char>, provider: Seq<char>, phase: Seq<char>)
    requires
        contains(script, AGENT_HOOK_SCRIPT_FILE_NAME@),
    ensures
        contains(escape_chars(hook_command(script, provider, phase)), AGENT_HOOK_SCRIPT_FILE_NAME@),
{
    reveal_strlit("focusd-agent-hook.cmd");
    let cmd = hook_command(script, provider, phase);
    let a = "cmd.exe /d /s /c "@ + "\"\""@;
    let c = "\" "@ + provider + " "@ + phase + "\""@;
    assert(cmd =~= a + script + c);
    lemma_contains_concat(a, script, c, AGENT_HOOK_SCRIPT_FILE_NAME@);
    assert forall|i: int| 0 <= i < AGENT_HOOK_SCRIPT_FILE_NAME@.len() implies is_plain(#[trigger] AGENT_HOOK_SCRIPT_FILE_NAME@[i]) by {}
    lemma_escape_keeps_plain(cmd, AGENT_HOOK_SCRIPT_FILE_NAME@);
}

spec fn block_head() -> Seq<char> {
    FOCUSD_AGENT_HOOK_BLOCK_BEGIN@ + "\n"@ + FOCUSD_AGENT_HOOK_VERSION_MARKER@
        + "\n\n[[hooks.UserPromptSubmit]]\n[[hooks.UserPromptSubmit.hooks]]\ntype = \"command\"\ncommand = "@
        + seq!['"']
}

spec fn block_rest(script: Seq<char>) -> Seq<char> {
    let submit = json_string(hook_command(script, "codex"@, "running"@));
    let stop = json_string(hook_command(script, "codex"@, "completed"@));
    seq!['"'] + "\ncommand_windows = "@ + submit
        + "\ntimeout = 5\nstatusMessage = \"Updating FocuSD agent status\"\n\n[[hooks.Stop]]\n[[hooks.Stop.hooks]]\ntype = \"command\"\ncommand = "@
        + stop + "\ncommand_windows = "@ + stop
        + "\ntimeout = 5\nstatusMessage = \"Updating FocuSD agent status\"\n\n"@
        + FOCUSD_AGENT_HOOK_BLOCK_END@
}

proof fn lemma_block_shape(script: Seq<char>)
    ensures
        codex_hook_block(script) == block_head() + escape_chars(hook_command(script, "codex"@, "running"@)) + block_rest(script),
{
    assert(codex_hook_block(script) =~= block_head() + escape_chars(hook_command(script, "codex"@, "running"@)) + block_rest(script));
}

proof fn lemma_block_markers(script: Seq<char>)
    ensures
        contains(codex_hook_block(script), FOCUSD_AGENT_HOOK_BLOCK_BEGIN@),
        contains(codex_hook_block(script), FOCUSD_AGENT_HOOK_VERSION_MARKER@),
{
    let block = codex_hook_block(script);
    let b = FOCUSD_AGENT_HOOK_BLOCK_BEGIN@;
    let v = FOCUSD_AGENT_HOOK_VERSION_MARKER@;
    let after = block.subrange((b.len() + 1 + v.len()) as int, block.len() as int);
    reveal_strlit("\n");
    assert(block =~= b + ("\n"@ + v) + after);
    lemma_contains_self(b);
    lemma_contains_concat(Seq::empty(), b, "\n"@ + v + after, b);
    assert(Seq::<char>::empty() + b + ("\n"@ + v + after) =~= block);
    lemma_contains_self(v);
    lemma_contains_concat(b + "\n"@, v, after, v);
    assert((b + "\n"@) + v + after =~= block);
}

/// The managed block is current whenever the hook script's path names the
/// short hook script.
pub proof fn lemma_codex_hook_block_current(script: Seq<char>)
    requires
        contains(script, AGENT_HOOK_SCRIPT_FILE_NAME@),
    ensures
        codex_hook_current(codex_hook_block(script)),
{
    let cmd = hook_command(script, "codex"@, "running"@);
    lemma_launcher_in_command(script, "codex"@, "running"@);
    lemma_script_in_command(script, "codex"@, "running"@);
    lemma_block_shape(script);
    lemma_contains_concat(block_head(), escape_chars(cmd), block_rest(script), "cmd.exe /d /s /c"@);
    lemma_contains_concat(block_head(), escape_chars(cmd), block_rest(script), AGENT_HOOK_SCRIPT_FILE_NAME@);
    lemma_block_markers(script);
}

// ---------------------------------------------------------------------------
// Finding text
// ---------------------------------------------------------------------------

/// The first position at or after `i` where `n` occurs in `h`, or -1.
pub open spec fn find_from(h: Seq<char>, n: Seq<char>, i: int) -> int
    decreases h.len() + 1 - i,
{
    if i < 0 || i + n.len() > h.len() {
        -1
    } else if occurs_at(h, n, i) {
        i
    } else {
        find_from(h, n, i + 1)
    }
}

/// `str::find`: the first position of `n` in `h`, or -1.
pub open spec fn find(h: Seq<char>, n: Seq<char>) -> int {
    find_from(h, n, 0)
}

proof fn lemma_find_from(h: Seq<char>, n: Seq<char>, i: int)
    requires
        0 <= i,
    ensures
        find_from(h, n, i) == -1 ==> forall|j: int| i <= j ==> !occurs_at(h, n, j),
        find_from(h, n, i) != -1 ==> i <= find_from(h, n, i) && occurs_at(h, n, find_from(h, n, i))
            && forall|j: int| i <= j < find_from(h, n, i) ==> !occurs_at(h, n, j),
    decreases h.len() + 1 - i,
{
    if i + n.len() <= h.len() && !occurs_at(h, n, i) {
        lemma_find_from(h, n, i + 1);
    }
}

/// What `find` returns: -1 when `n` does not occur, else its first position.
pub proof fn lemma_find(h: Seq<char>, n: Seq<char>)
    ensures
        find(h, n) == -1 <==> !contains(h, n),
        find(h, n) != -1 ==> occurs_at(h, n, find(h, n)) && forall|j: int| 0 <= j < find(h, n) ==> !occurs_at(h, n, j),
{
    lemma_find_from(h, n, 0);
    if find(h, n) == -1 {
        assert forall|j: int| !occurs_at(h, n, j) by {
            if j >= 0 {
            }
        }
    }
}

/// `str::find` on characters.
pub fn find_chars(h: &[char], n: &[char]) -> (r: Option<usize>)
    ensures
        match r {
            Some(i) => find(h@, n@) == i,
            None => find(h@, n@) == -1,
        },
{
    if n.len() > h.len() {
        return None;
    }
    let last: usize = h.len() - n.len();
    let mut i: usize = 0;
    loop
        invariant
            n.len() <= h.len(),
            last == h.len() - n.len(),
            i <= last,
            find(h@, n@) == find_from(h@, n@, i as int),
        decreases last - i,
    {
        if occurs_at_exec(h, n, i) {
            return Some(i);
        }
        if i == last {
            assert(find_from(h@, n@, i + 1) == -1);
            return None;
        }
        i += 1;
    }
}

// ---------------------------------------------------------------------------
// Removing FocuSD hooks from Codex's configuration
// ---------------------------------------------------------------------------

/// The text after a block's end marker, without the line ending that
/// follows it.
pub open spec fn strip_leading_newline(s: Seq<char>) -> Seq<char> {
    if s.len() >= 2 && s[0] == '\r' && s[1] == '\n' {
        s.skip(2)
    } else if s.len() >= 1 && s[0] == '\n' {
        s.skip(1)
    } else {
        s
    }
}

/// `s` without its managed blocks: each from the begin marker through the
/// end marker and the line ending after it; a begin marker without an end
/// marker drops the rest of the text.
pub open spec fn strip_managed_blocks(s: Seq<char>) -> Seq<char>
    decreases s.len(),
{
    let b = FOCUSD_AGENT_HOOK_BLOCK_BEGIN@;
    let e = FOCUSD_AGENT_HOOK_BLOCK_END@;
    let start = find(s, b);
    if start == -1 || e.len() == 0 {
        s
    } else {
        let after_begin = s.skip(start);
        let end = find(after_begin, e);
        if end == -1 {
            s.take(start)
        } else {
            proof {
                lemma_find(s, b);
                lemma_find(after_begin, e);
            }
            s.take(start) + strip_managed_blocks(strip_leading_newline(after_begin.skip(end + e.len())))
        }
    }
}

fn strip_leading_newline_exec(s: &[char]) -> (r: Vec<char>)
    ensures
        r@ == strip_leading_newline(s@),
{
    if s.len() >= 2 && s[0] == '\r' && s[1] == '\n' {
        slice_chars(s, 2, s.len())
    } else if s.len() >= 1 && s[0] == '\n' {
        slice_chars(s, 1, s.len())
    } else {
        slice_chars(s, 0, s.len())
    }
}

/// Removes the managed blocks (see `strip_managed_blocks`), then the FocuSD
/// hooks of older versions (see `legacy_pass`).
pub fn remove_managed_codex_hook_block(content: &str) -> (r: String)
    ensures
        r@ == join(legacy_pass(lines_of(strip_managed_blocks(content@)), 0), "\n"@),
{
    let begin = chars_of(FOCUSD_AGENT_HOOK_BLOCK_BEGIN);
    let end_marker = chars_of(FOCUSD_AGENT_HOOK_BLOCK_END);
    let mut remaining = chars_of(content);
    let mut next: Vec<char> = Vec::new();
    loop
        invariant
            begin@ == FOCUSD_AGENT_HOOK_BLOCK_BEGIN@,
            end_marker@ == FOCUSD_AGENT_HOOK_BLOCK_END@,
            next@ + strip_managed_blocks(remaining@) == strip_managed_blocks(content@),
        ensures
            next@ + remaining@ == strip_managed_blocks(content@),
        decreases remaining@.len(),
    {
        proof {
            reveal_strlit("# END FocuSD Agent Status Hooks");
        }
        let ghost rem = remaining@;
        let ghost done = next@;
        match find_chars(&remaining, &begin) {
            None => {
                assert(strip_managed_blocks(rem) == rem);
                break;
            },
            Some(start) => {
                proof {
                    lemma_find(rem, begin@);
                }
                let head = slice_chars(&remaining, 0, start);
                extend_chars(&mut next, &head);
                let after_begin = slice_chars(&remaining, start, remaining.len());
                match find_chars(&after_begin, &end_marker) {
                    None => {
                        assert(head@ =~= rem.take(start as int));
                        assert(after_begin@ =~= rem.skip(start as int));
                        remaining = Vec::new();
                        assert(strip_managed_blocks(remaining@) =~= Seq::<char>::empty());
                        assert(next@ + strip_managed_blocks(remaining@) =~= next@);
                        break;
                    },
                    Some(end) => {
                        proof {
                            lemma_find(after_begin@, end_marker@);
                        }
                        let tail = slice_chars(&after_begin, end + end_marker.len(), after_begin.len());
                        assert(head@ =~= rem.take(start as int));
                        assert(after_begin@ =~= rem.skip(start as int));
                        assert(tail@ =~= after_begin@.skip(end + end_marker@.len()));
                        remaining = strip_leading_newline_exec(&tail);
                        assert(strip_managed_blocks(rem) == rem.take(start as int) + strip_managed_blocks(remaining@));
                        assert(next@ + strip_managed_blocks(remaining@) =~= done + strip_managed_blocks(rem));
                    },
                }
            },
        }
    }
    extend_chars(&mut next, &remaining);
    let stripped = string_of(&next);
    remove_legacy_codex_focusd_hooks(stripped.as_str())
}

/// The hook path of a Codex hook event header such as
/// `[[hooks.UserPromptSubmit]]`; nested `.hooks` headers are not events.
pub open spec fn hook_event_path(header: Seq<char>) -> Option<Seq<char>> {
    if starts_with(header, "[[hooks."@) && ends_with(header, "]]"@) && header.len() >= 10 {
        let path = header.subrange(2, header.len() - 2);
        if ends_with(path, ".hooks"@) {
            None
        } else {
            Some(path)
        }
    } else {
        None
    }
}

/// The hook path of a Codex hook event header, if it is one.
pub fn codex_hook_event_path(header: &str) -> (r: Option<String>)
    ensures
        opt_chars_view(r) == hook_event_path(header@),
{
    proof {
        reveal_strlit("[[hooks.");
        reveal_strlit("]]");
    }
    let h = chars_of(header);
    let prefix = chars_of("[[hooks.");
    let suffix = chars_of("]]");
    if !crate::text::starts_with_chars(&h, &prefix) || !crate::text::ends_with_chars(&h, &suffix) {
        return None;
    }
    if h.len() < 10 {
        // "[[hooks." ends in '.', so with "]]" it takes ten characters.
        proof {
            let len = h@.len() as int;
            assert(h@.subrange(0, 8)[6] == h@[6]);
            assert(h@.subrange(0, 8)[7] == h@[7]);
            assert(h@.subrange(len - 2, len)[0] == h@[len - 2]);
        }
        return None;
    }
    let path = slice_chars(&h, 2, h.len() - 2);
    let hooks = chars_of(".hooks");
    if crate::text::ends_with_chars(&path, &hooks) {
        return None;
    }
    Some(string_of(&path))
}

pub open spec fn opt_chars_view(o: Option<String>) -> Option<Seq<char>> {
    match o {
        Some(s) => Some(s@),
        None => None,
    }
}

/// The header of the nested hook list of `hook_path`.
pub open spec fn nested_hook_header(hook_path: Seq<char>) -> Seq<char> {
    "[["@ + hook_path + ".hooks]]"@
}

pub fn is_codex_nested_hook_header_for(header: &str, hook_path: &str) -> (r: bool)
    ensures
        r == (header@ == nested_hook_header(hook_path@)),
{
    let h = chars_of(header);
    let mut expected: Vec<char> = Vec::new();
    extend_str(&mut expected, "[[");
    extend_str(&mut expected, hook_path);
    extend_str(&mut expected, ".hooks]]");
    assert(expected@ =~= nested_hook_header(hook_path@));
    chars_eq(&h, &expected)
}

/// Whether a trimmed line starts a TOML table.
pub open spec fn opens_table(line: Seq<char>) -> bool {
    let t = trim(line);
    t.len() > 0 && t[0] == '['
}

/// The first line at or after `i` that starts a table, or the end.
pub open spec fn body_end(lines: Seq<Seq<char>>, i: int) -> int
    decreases lines.len() - i,
{
    if i < 0 || i >= lines.len() || opens_table(lines[i]) {
        if i < 0 { 0 } else { i }
    } else {
        body_end(lines, i + 1)
    }
}

/// The nested hook lists of `hook_path` from line `i` on: where they end,
/// the lines of those without FocuSD's signature, and whether any had it.
pub open spec fn scan_children(lines: Seq<Seq<char>>, i: int, hook_path: Seq<char>) -> (int, Seq<Seq<char>>, bool)
    decreases lines.len() - i,
{
    if i < 0 || i >= lines.len() || trim(lines[i]) != nested_hook_header(hook_path) {
        (if i < 0 { 0 } else { i }, Seq::empty(), false)
    } else {
        let child_end = body_end(lines, i + 1);
        proof {
            lemma_body_end(lines, i + 1);
        }
        let child = lines.subrange(i, child_end);
        let (e, kept, removed) = scan_children(lines, child_end, hook_path);
        if contains(join(child, "\n"@), FOCUSD_AGENT_HOOK_SIGNATURE@) {
            (e, kept, true)
        } else {
            (e, child + kept, removed)
        }
    }
}

/// A table body runs from `i` up to the next line that opens a table.
pub proof fn lemma_body_end(lines: Seq<Seq<char>>, i: int)
    requires
        0 <= i,
    ensures
        i <= body_end(lines, i) <= if i <= lines.len() { lines.len() as int } else { i },
        forall|j: int| i <= j < body_end(lines, i) ==> !opens_table(#[trigger] lines[j]),
        body_end(lines, i) < lines.len() ==> opens_table(lines[body_end(lines, i)]),
    decreases lines.len() - i,
{
    if i < lines.len() && !opens_table(lines[i]) {
        lemma_body_end(lines, i + 1);
    }
}

/// The nested hook tables scanned from `i` end within the lines.
pub proof fn lemma_scan_children(lines: Seq<Seq<char>>, i: int, hook_path: Seq<char>)
    requires
        0 <= i <= lines.len(),
    ensures
        i <= scan_children(lines, i, hook_path).0 <= lines.len(),
    decreases lines.len() - i,
{
    if i < lines.len() && trim(lines[i]) == nested_hook_header(hook_path) {
        lemma_body_end(lines, i + 1);
        lemma_scan_children(lines, body_end(lines, i + 1), hook_path);
    }
}

/// The lines of a Codex configuration from line `i` on, without FocuSD hooks
/// of older versions: a hook event whose nested hook lists hold FocuSD's
/// signature loses those lists, and the whole event goes when no list is
/// left; every other line stays.
pub open spec fn legacy_pass(lines: Seq<Seq<char>>, i: int) -> Seq<Seq<char>>
    decreases lines.len() - i,
{
    if i < 0 || i >= lines.len() {
        Seq::empty()
    } else {
        match hook_event_path(trim(lines[i])) {
            Some(hook_path) => {
                let meta_end = body_end(lines, i + 1);
                proof {
                    lemma_body_end(lines, i + 1);
                    lemma_scan_children(lines, meta_end, hook_path);
                }
                let (end, kept, removed) = scan_children(lines, meta_end, hook_path);
                let out = if !removed {
                    lines.subrange(i, end)
                } else if kept.len() == 0 {
                    Seq::empty()
                } else {
                    lines.subrange(i, meta_end) + kept
                };
                out + legacy_pass(lines, end)
            },
            None => seq![lines[i]] + legacy_pass(lines, i + 1),
        }
    }
}

fn opens_table_exec(line: &Vec<char>) -> (r: bool)
    ensures
        r == opens_table(line@),
{
    let t = trim_chars(line);
    t.len() > 0 && t[0] == '['
}

fn body_end_exec(lines: &Vec<Vec<char>>, i: usize) -> (r: usize)
    requires
        i <= lines.len(),
    ensures
        r == body_end(views(lines@), i as int),
{
    let ghost lv = views(lines@);
    let mut j = i;
    while j < lines.len() && !opens_table_exec(&lines[j])
        invariant
            i <= j <= lines.len(),
            lv == views(lines@),
            body_end(lv, i as int) == body_end(lv, j as int),
        decreases lines.len() - j,
    {
        assert(lv[j as int] == lines@[j as int]@);
        j += 1;
    }
    if j < lines.len() {
        assert(lv[j as int] == lines@[j as int]@);
    }
    j
}

fn push_lines(out: &mut Vec<Vec<char>>, lines: &Vec<Vec<char>>, from: usize, to: usize)
    requires
        from <= to <= lines.len(),
    ensures
        views(final(out)@) == views(old(out)@) + views(lines@).subrange(from as int, to as int),
{
    let ghost start = views(out@);
    let mut k = from;
    while k < to
        invariant
            from <= k <= to <= lines.len(),
            views(out@) == start + views(lines@).subrange(from as int, k as int),
        decreases to - k,
    {
        let line = slice_chars(&lines[k], 0, lines[k].len());
        assert(line@ =~= lines@[k as int]@);
        let ghost before = views(out@);
        out.push(line);
        assert(views(out@) =~= before.push(lines@[k as int]@));
        assert(views(lines@).subrange(from as int, k + 1) =~= views(lines@).subrange(from as int, k as int).push(lines@[k as int]@));
        assert(views(out@) =~= start + views(lines@).subrange(from as int, k + 1));
        k += 1;
    }
}

fn join_lines(lines: &Vec<Vec<char>>, from: usize, to: usize) -> (r: Vec<char>)
    requires
        from <= to <= lines.len(),
    ensures
        r@ == join(views(lines@).subrange(from as int, to as int), "\n"@),
{
    proof {
        reveal_strlit("\n");
    }
    let mut out: Vec<char> = Vec::new();
    let mut k = from;
    while k < to
        invariant
            from <= k <= to <= lines.len(),
            out@ == join(views(lines@).subrange(from as int, k as int), "\n"@),
        decreases to - k,
    {
        let ghost parts = views(lines@).subrange(from as int, k as int);
        let ghost before = out@;
        let ghost x = lines@[k as int]@;
        proof {
            assert(views(lines@).subrange(from as int, k + 1) =~= parts.push(x));
        }
        if k > from {
            out.push('\n');
            extend_chars(&mut out, &lines[k]);
            proof {
                reveal_strlit("\n");
                lemma_join_push(parts, "\n"@, x);
                assert(out@ =~= before + "\n"@ + x);
            }
        } else {
            extend_chars(&mut out, &lines[k]);
            proof {
                assert(parts.push(x) =~= seq![x]);
                assert(out@ =~= x);
            }
        }
        k += 1;
    }
    out
}

/// Removes the FocuSD hooks of older versions (see `legacy_pass`).
pub fn remove_legacy_codex_focusd_hooks(content: &str) -> (r: String)
    ensures
        r@ == join(legacy_pass(lines_of(content@), 0), "\n"@),
{
    let chars = chars_of(content);
    let lines = split_lines(&chars);
    let ghost lv = views(lines@);
    let mut out: Vec<Vec<char>> = Vec::new();
    let mut index: usize = 0;
    while index < lines.len()
        invariant
            index <= lines.len(),
            lv == views(lines@),
            lv == lines_of(content@),
            views(out@) + legacy_pass(lv, index as int) == legacy_pass(lv, 0),
        decreases lines.len() - index,
    {
        let trimmed = trim_chars(&lines[index]);
        assert(lv[index as int] == lines@[index as int]@);
        let header = string_of(&trimmed);
        match codex_hook_event_path(header.as_str()) {
            Some(hook_path) => {
                let ghost hp = hook_path@;
                let start = index;
                let meta_end = body_end_exec(&lines, index + 1);
                proof {
                    lemma_body_end(lv, index + 1);
                    lemma_scan_children(lv, meta_end as int, hp);
                }
                let mut j = meta_end;
                let mut kept: Vec<Vec<char>> = Vec::new();
                let mut removed = false;
                let expected_header = {
                    let mut e: Vec<char> = Vec::new();
                    extend_str(&mut e, "[[");
                    extend_str(&mut e, hook_path.as_str());
                    extend_str(&mut e, ".hooks]]");
                    assert(e@ =~= nested_hook_header(hp));
                    e
                };
                loop
                    invariant
                        meta_end <= j <= lines.len(),
                        lv == views(lines@),
                        expected_header@ == nested_hook_header(hp),
                        ({
                            let (e, k, r) = scan_children(lv, j as int, hp);
                            let (e0, k0, r0) = scan_children(lv, meta_end as int, hp);
                            e0 == e && k0 == views(kept@) + k && r0 == (removed || r)
                        }),
                    ensures
                        meta_end <= j <= lines.len(),
                        scan_children(lv, j as int, hp).0 == j,
                        scan_children(lv, j as int, hp).1 == Seq::<Seq<char>>::empty(),
                        !scan_children(lv, j as int, hp).2,
                    decreases lines.len() - j,
                {
                    if j >= lines.len() {
                        break;
                    }
                    let candidate = trim_chars(&lines[j]);
                    assert(lv[j as int] == lines@[j as int]@);
                    if !chars_eq(&candidate, &expected_header) {
                        assert(trim(lv[j as int]) != nested_hook_header(hp));
                        break;
                    }
                    let child_start = j;
                    let child_end = body_end_exec(&lines, j + 1);
                    proof {
                        lemma_body_end(lv, j + 1);
                    }
                    let block = join_lines(&lines, child_start, child_end);
                    if contains_str(&block, FOCUSD_AGENT_HOOK_SIGNATURE) {
                        removed = true;
                    } else {
                        let ghost kb = views(kept@);
                        push_lines(&mut kept, &lines, child_start, child_end);
                        assert(views(kept@) + scan_children(lv, child_end as int, hp).1 =~= kb + (lv.subrange(child_start as int, child_end as int) + scan_children(lv, child_end as int, hp).1));
                    }
                    j = child_end;
                }
                let end = j;
                let ghost ob0 = views(out@);
                let ghost piece = if !removed {
                    lv.subrange(start as int, end as int)
                } else if kept.len() == 0 {
                    Seq::<Seq<char>>::empty()
                } else {
                    lv.subrange(start as int, meta_end as int) + views(kept@)
                };
                assert(scan_children(lv, end as int, hp).1 =~= Seq::<Seq<char>>::empty());
                assert(views(kept@) + Seq::<Seq<char>>::empty() =~= views(kept@));
                if !removed {
                    push_lines(&mut out, &lines, start, end);
                } else if kept.len() > 0 {
                    let ghost ob = views(out@);
                    push_lines(&mut out, &lines, start, meta_end);
                    let ghost mid = views(out@);
                    let mut k: usize = 0;
                    while k < kept.len()
                        invariant
                            k <= kept.len(),
                            views(out@) == mid + views(kept@).take(k as int),
                        decreases kept.len() - k,
                    {
                        let line = slice_chars(&kept[k], 0, kept[k].len());
                        assert(line@ =~= kept@[k as int]@);
                        let ghost before = views(out@);
                        out.push(line);
                        assert(views(out@) =~= before.push(kept@[k as int]@));
                        assert(views(kept@).take(k + 1) =~= views(kept@).take(k as int).push(kept@[k as int]@));
                        k += 1;
                    }
                    assert(views(kept@).take(kept.len() as int) =~= views(kept@));
                }
                proof {
                    assert(legacy_pass(lv, index as int) == piece + legacy_pass(lv, end as int));
                    assert(views(out@) + legacy_pass(lv, end as int) =~= ob0 + legacy_pass(lv, index as int));
                }
                index = end;
            },
            None => {
                let ghost ob = views(out@);
                let line = slice_chars(&lines[index], 0, lines[index].len());
                assert(line@ =~= lines@[index as int]@);
                out.push(line);
                assert(views(out@) =~= ob.push(lv[index as int]));
                assert(legacy_pass(lv, index as int) == seq![lv[index as int]] + legacy_pass(lv, index + 1));
                index += 1;
            },
        }
    }
    let all = join_lines(&out, 0, out.len());
    assert(views(out@).subrange(0, out@.len() as int) =~= views(out@));
    assert(legacy_pass(lv, lines@.len() as int) =~= Seq::<Seq<char>>::empty());
    assert(views(out@) + Seq::<Seq<char>>::empty() =~= views(out@));
    string_of(&all)
}


// ---------------------------------------------------------------------------
// Windows line endings of the hook scripts
// ---------------------------------------------------------------------------

/// `s` with each `\r\n` replaced by `\n`, matches taken left to right as
/// `str::replace` takes them.
pub open spec fn crlf_to_lf(s: Seq<char>) -> Seq<char>
    decreases s.len(),
{
    if s.len() == 0 {
        Seq::empty()
    } else if s.len() >= 2 && s[0] == '\r' && s[1] == '\n' {
        seq!['\n'] + crlf_to_lf(s.skip(2))
    } else {
        seq![s[0]] + crlf_to_lf(s.skip(1))
    }
}

/// `s` with each `\n` replaced by `\r\n`.
pub open spec fn lf_to_crlf(s: Seq<char>) -> Seq<char>
    decreases s.len(),
{
    if s.len() == 0 {
        Seq::empty()
    } else if s[0] == '\n' {
        seq!['\r', '\n'] + lf_to_crlf(s.skip(1))
    } else {
        seq![s[0]] + lf_to_crlf(s.skip(1))
    }
}

/// A script's text with Windows line endings: first every `\r\n` becomes
/// `\n`, then every `\n` becomes `\r\n`.
pub open spec fn windows_line_endings(s: Seq<char>) -> Seq<char> {
    lf_to_crlf(crlf_to_lf(s))
}

fn crlf_to_lf_exec(s: &[char]) -> (r: Vec<char>)
    ensures
        r@ == crlf_to_lf(s@),
{
    let mut out: Vec<char> = Vec::new();
    let mut i: usize = 0;
    while i < s.len()
        invariant
            i <= s.len(),
            out@ + crlf_to_lf(s@.skip(i as int)) == crlf_to_lf(s@),
        decreases s.len() - i,
    {
        let ghost rest = s@.skip(i as int);
        let ghost before = out@;
        if i + 1 < s.len() && s[i] == '\r' && s[i + 1] == '\n' {
            out.push('\n');
            assert(rest.skip(2) =~= s@.skip(i + 2));
            assert(out@ + crlf_to_lf(s@.skip(i + 2)) =~= before + crlf_to_lf(rest));
            i += 2;
        } else {
            out.push(s[i]);
            assert(rest.skip(1) =~= s@.skip(i + 1));
            assert(out@ + crlf_to_lf(s@.skip(i + 1)) =~= before + crlf_to_lf(rest));
            i += 1;
        }
    }
    assert(s@.skip(s@.len() as int) =~= Seq::<char>::empty());
    assert(out@ + Seq::<char>::empty() =~= out@);
    out
}

fn lf_to_crlf_exec(s: &[char]) -> (r: Vec<char>)
    ensures
        r@ == lf_to_crlf(s@),
{
    let mut out: Vec<char> = Vec::new();
    let mut i: usize = 0;
    while i < s.len()
        invariant
            i <= s.len(),
            out@ + lf_to_crlf(s@.skip(i as int)) == lf_to_crlf(s@),
        decreases s.len() - i,
    {
        let ghost rest = s@.skip(i as int);
        let ghost before = out@;
        if s[i] == '\n' {
            out.push('\r');
            out.push('\n');
        } else {
            out.push(s[i]);
        }
        assert(rest.skip(1) =~= s@.skip(i + 1));
        assert(out@ + lf_to_crlf(s@.skip(i + 1)) =~= before + lf_to_crlf(rest));
        i += 1;
    }
    assert(s@.skip(s@.len() as int) =~= Seq::<char>::empty());
    assert(out@ + Seq::<char>::empty() =~= out@);
    out
}

/// The text of a hook script as it is written to disk: Windows line endings.
pub fn normalize_windows_line_endings(content: &str) -> (r: String)
    ensures
        r@ == windows_line_endings(content@),
{
    let c = chars_of(content);
    let lf = crlf_to_lf_exec(&c);
    let crlf = lf_to_crlf_exec(&lf);
    string_of(&crlf)
}

/// The bundled hook scripts as they are written into the app's data
/// directory, in the order they are written: each file name with the
/// script's text in Windows line endings.
pub fn install_agent_hook_scripts(running_script: &str, hook_script: &str, status_script: &str) -> (r: Vec<(String, String)>)
    ensures
        r@.len() == 3,
        r@[0].0@ == AGENT_RUNNING_SCRIPT_FILE_NAME@,
        r@[0].1@ == windows_line_endings(running_script@),
        r@[1].0@ == AGENT_HOOK_SCRIPT_FILE_NAME@,
        r@[1].1@ == windows_line_endings(hook_script@),
        r@[2].0@ == AGENT_STATUS_SCRIPT_FILE_NAME@,
        r@[2].1@ == windows_line_endings(status_script@),
{
    let mut files: Vec<(String, String)> = Vec::new();
    files.push((string_from(AGENT_RUNNING_SCRIPT_FILE_NAME), normalize_windows_line_endings(running_script)));
    files.push((string_from(AGENT_HOOK_SCRIPT_FILE_NAME), normalize_windows_line_endings(hook_script)));
    files.push((string_from(AGENT_STATUS_SCRIPT_FILE_NAME), normalize_windows_line_endings(status_script)));
    files
}

proof fn lemma_lf_to_crlf_head(t: Seq<char>)
    requires
        t.len() > 0,
    ensures
        lf_to_crlf(t).len() > 0,
        lf_to_crlf(t)[0] != '\n',
        lf_to_crlf(t)[0] == '\r' <==> (t[0] == '\r' || t[0] == '\n'),
{
}

/// Turning `\r\n` back into `\n` undoes `lf_to_crlf`.
pub proof fn lemma_crlf_to_lf_undoes(t: Seq<char>)
    ensures
        crlf_to_lf(lf_to_crlf(t)) == t,
    decreases t.len(),
{
    if t.len() > 0 {
        let rest = t.skip(1);
        lemma_crlf_to_lf_undoes(rest);
        let w = lf_to_crlf(t);
        if t[0] == '\n' {
            assert(w.skip(2) =~= lf_to_crlf(rest));
            assert(crlf_to_lf(w) =~= seq!['\n'] + crlf_to_lf(lf_to_crlf(rest)));
        } else {
            assert(w.skip(1) =~= lf_to_crlf(rest));
            if rest.len() > 0 {
                lemma_lf_to_crlf_head(rest);
                assert(w[1] == lf_to_crlf(rest)[0]);
            }
            assert(crlf_to_lf(w) =~= seq![t[0]] + crlf_to_lf(lf_to_crlf(rest)));
        }
        assert(seq![t[0]] + rest =~= t);
    }
}

/// Normalizing a script's line endings twice changes nothing more.
pub proof fn lemma_windows_line_endings_idempotent(s: Seq<char>)
    ensures
        windows_line_endings(windows_line_endings(s)) == windows_line_endings(s),
{
    lemma_crlf_to_lf_undoes(crlf_to_lf(s));
}

/// After normalizing, every `\n` is the end of a `\r\n`.
pub proof fn lemma_lf_to_crlf_pairs(t: Seq<char>)
    ensures
        forall|i: int| 0 <= i < lf_to_crlf(t).len() && #[trigger] lf_to_crlf(t)[i] == '\n' ==> i > 0
            && lf_to_crlf(t)[i - 1] == '\r',
    decreases t.len(),
{
    if t.len() > 0 {
        let rest = t.skip(1);
        lemma_lf_to_crlf_pairs(rest);
        let w = lf_to_crlf(t);
        let head: Seq<char> = if t[0] == '\n' { seq!['\r', '\n'] } else { seq![t[0]] };
        assert(w == head + lf_to_crlf(rest));
        if rest.len() > 0 {
            lemma_lf_to_crlf_head(rest);
        }
        assert forall|i: int| 0 <= i < w.len() && #[trigger] w[i] == '\n' implies i > 0 && w[i - 1] == '\r' by {
            if i >= head.len() {
                let j = i - head.len();
                assert(w[i] == lf_to_crlf(rest)[j]);
                if j > 0 {
                    assert(w[i - 1] == lf_to_crlf(rest)[j - 1]);
                }
            }
        }
    }
}

// ---------------------------------------------------------------------------
// Installing the Codex hooks
// ---------------------------------------------------------------------------

/// A Codex configuration without FocuSD hooks: managed blocks and older
/// FocuSD hooks removed.
pub open spec fn codex_config_without_hooks(content: Seq<char>) -> Seq<char> {
    join(legacy_pass(lines_of(strip_managed_blocks(content)), 0), "\n"@)
}

/// A Codex configuration with the current managed block: the configuration
/// without FocuSD hooks and without trailing whitespace, a blank line when
/// anything is left, then the block.
pub open spec fn codex_config_with_hooks(content: Seq<char>, script: Seq<char>) -> Seq<char> {
    let base = trim_end(codex_config_without_hooks(content));
    if base.len() == 0 {
        codex_hook_block(script)
    } else {
        base + "\n\n"@ + codex_hook_block(script)
    }
}

/// The new text of Codex's `config.toml` (`content` is the old text, empty
/// when there was none) with FocuSD's hooks through `hook_script_path`.
pub fn codex_config_with_hook_block(content: &str, hook_script_path: &str) -> (r: String)
    ensures
        r@ == codex_config_with_hooks(content@, hook_script_path@),
{
    let cleaned = remove_managed_codex_hook_block(content);
    let cleaned_chars = chars_of(cleaned.as_str());
    let mut next = trim_end_chars(&cleaned_chars);
    if next.len() > 0 {
        extend_str(&mut next, "\n\n");
    }
    let block = build_codex_hook_block(hook_script_path);
    extend_str(&mut next, block.as_str());
    string_of(&next)
}

/// A Codex configuration written by `codex_config_with_hook_block` is
/// current whenever the hook script's path names the short hook script.
pub proof fn lemma_codex_config_with_hooks_current(content: Seq<char>, script: Seq<char>)
    requires
        contains(script, AGENT_HOOK_SCRIPT_FILE_NAME@),
    ensures
        codex_hook_current(codex_config_with_hooks(content, script)),
{
    let block = codex_hook_block(script);
    let base = trim_end(codex_config_without_hooks(content));
    lemma_codex_hook_block_current(script);
    let head = if base.len() == 0 { Seq::<char>::empty() } else { base + "\n\n"@ };
    assert(codex_config_with_hooks(content, script) =~= head + block + Seq::<char>::empty());
    lemma_contains_concat(head, block, Seq::empty(), FOCUSD_AGENT_HOOK_BLOCK_BEGIN@);
    lemma_contains_concat(head, block, Seq::empty(), FOCUSD_AGENT_HOOK_VERSION_MARKER@);
    lemma_contains_concat(head, block, Seq::empty(), AGENT_HOOK_SCRIPT_FILE_NAME@);
    lemma_contains_concat(head, block, Seq::empty(), "cmd.exe /d /s /c"@);
}

// ---------------------------------------------------------------------------
// Refreshing installed hooks at start-up
// ---------------------------------------------------------------------------

/// What to do at start-up about hooks that an earlier version installed.
#[derive(Debug)]
pub struct HookRefreshPlan {
    /// Codex's configuration holds FocuSD hooks.
    pub codex_installed: bool,
    /// The claudeCode agent's settings hold FocuSD hooks.
    pub claude_installed: bool,
    /// Write the bundled hook scripts again.
    pub reinstall_scripts: bool,
    /// Remove Codex's markers and install its hooks again.
    pub upgrade_codex: bool,
    /// Remove the claudeCode agent's markers and install its hooks again.
    pub upgrade_claude: bool,
}

pub open spec fn codex_hooks_installed(codex: Seq<char>) -> bool {
    contains(codex, FOCUSD_AGENT_HOOK_BLOCK_BEGIN@) || contains(codex, FOCUSD_AGENT_HOOK_SIGNATURE@)
}

pub open spec fn claude_hooks_installed(claude: Seq<char>) -> bool {
    contains(claude, FOCUSD_AGENT_HOOK_SIGNATURE@)
}

/// Installed Codex hooks need rewriting: they launch the old running script
/// or their managed block is not current.
pub open spec fn codex_needs_upgrade(codex: Seq<char>) -> bool {
    codex_hooks_installed(codex) && (contains(codex, AGENT_RUNNING_SCRIPT_FILE_NAME@)
        || !codex_hook_current(codex))
}

pub open spec fn claude_needs_upgrade(claude: Seq<char>) -> bool {
    claude_hooks_installed(claude) && (contains(claude, AGENT_RUNNING_SCRIPT_FILE_NAME@)
        || !claude_hook_current(claude))
}

/// A bundled script on disk is out of date: it could not be read, or it
/// differs from the bundled text with Windows line endings.
pub open spec fn script_outdated(installed: Option<Seq<char>>, bundled: Seq<char>) -> bool {
    match installed {
        Some(text) => text != windows_line_endings(bundled),
        None => true,
    }
}

/// Whether the script file read from disk (`None` when it could not be
/// read) differs from the bundled script.
pub fn bundled_script_outdated(installed: Option<&str>, bundled: &str) -> (r: bool)
    ensures
        r == script_outdated(
            match installed {
                Some(t) => Some(t@),
                None => None,
            },
            bundled@,
        ),
{
    match installed {
        Some(text) => {
            let expected = normalize_windows_line_endings(bundled);
            let t = chars_of(text);
            let e = chars_of(expected.as_str());
            !chars_eq(&t, &e)
        },
        None => true,
    }
}

/// The start-up refresh of installed hooks, from the texts of Codex's
/// configuration and the claudeCode agent's settings (empty when unreadable) and
/// whether each bundled script on disk is out of date. Nothing is done when
/// neither tool has FocuSD hooks.
pub fn plan_agent_hook_refresh(
    codex_content: &str,
    claude_content: &str,
    running_script_outdated: bool,
    hook_script_outdated: bool,
    status_script_outdated: bool,
) -> (r: HookRefreshPlan)
    ensures
        r.codex_installed == codex_hooks_installed(codex_content@),
        r.claude_installed == claude_hooks_installed(claude_content@),
        r.reinstall_scripts == ((r.codex_installed || r.claude_installed) && (running_script_outdated
            || hook_script_outdated || status_script_outdated)),
        r.upgrade_codex == codex_needs_upgrade(codex_content@),
        r.upgrade_claude == claude_needs_upgrade(claude_content@),
{
    let codex = chars_of(codex_content);
    let claude = chars_of(claude_content);
    let codex_installed = contains_str(&codex, FOCUSD_AGENT_HOOK_BLOCK_BEGIN) || contains_str(
        &codex,
        FOCUSD_AGENT_HOOK_SIGNATURE,
    );
    let claude_installed = contains_str(&claude, FOCUSD_AGENT_HOOK_SIGNATURE);
    if !codex_installed && !claude_installed {
        return HookRefreshPlan {
            codex_installed,
            claude_installed,
            reinstall_scripts: false,
            upgrade_codex: false,
            upgrade_claude: false,
        };
    }
    let reinstall_scripts = running_script_outdated || hook_script_outdated || status_script_outdated;
    let codex_legacy = codex_installed && contains_str(&codex, AGENT_RUNNING_SCRIPT_FILE_NAME);
    let claude_legacy = claude_installed && contains_str(&claude, AGENT_RUNNING_SCRIPT_FILE_NAME);
    let upgrade_codex = codex_installed && (codex_legacy || !managed_codex_hook_has_current_entry(
        codex_content,
    ));
    let upgrade_claude = claude_installed && (claude_legacy
        || !managed_claude_hook_has_current_entry(claude_content));
    HookRefreshPlan { codex_installed, claude_installed, reinstall_scripts, upgrade_codex, upgrade_claude }
}

/// Once Codex's hooks are installed through the short hook script, the next
/// start-up leaves them alone, unless the configuration still names the old
/// running script.
pub proof fn lemma_installed_codex_hooks_need_no_upgrade(content: Seq<char>, script: Seq<char>)
    requires
        contains(script, AGENT_HOOK_SCRIPT_FILE_NAME@),
        !contains(codex_config_with_hooks(content, script), AGENT_RUNNING_SCRIPT_FILE_NAME@),
    ensures
        codex_hooks_installed(codex_config_with_hooks(content, script)),
        !codex_needs_upgrade(codex_config_with_hooks(content, script)),
{
    lemma_codex_config_with_hooks_current(content, script);
}

/// The start-up plan upgrades Codex's hooks exactly when its configuration
/// holds FocuSD hooks (the managed block's begin marker or the FocuSD
/// signature) and either still names the old running script or lacks one of
/// the begin marker, the version marker, the short hook script and the
/// `cmd.exe /d /s /c` launcher; a configuration without FocuSD hooks is left
/// alone.
pub proof fn lemma_codex_upgrade_when_outdated(c: Seq<char>)
    ensures
        codex_needs_upgrade(c) <==> ((contains(c, FOCUSD_AGENT_HOOK_BLOCK_BEGIN@) || contains(c, FOCUSD_AGENT_HOOK_SIGNATURE@))
            && (contains(c, AGENT_RUNNING_SCRIPT_FILE_NAME@)
                || !contains(c, FOCUSD_AGENT_HOOK_BLOCK_BEGIN@)
                || !contains(c, FOCUSD_AGENT_HOOK_VERSION_MARKER@)
                || !contains(c, AGENT_HOOK_SCRIPT_FILE_NAME@)
                || !contains(c, "cmd.exe /d /s /c"@))),
        codex_hooks_installed(c) <==> (contains(c, FOCUSD_AGENT_HOOK_BLOCK_BEGIN@) || contains(c, FOCUSD_AGENT_HOOK_SIGNATURE@)),
{
}

/// The same for the claudeCode agent's settings: upgraded exactly when they
/// hold the FocuSD signature and either name the old running script or lack
/// the short hook script, the signature or the `"command": "cmd.exe"` entry.
pub proof fn lemma_claude_upgrade_when_outdated(c: Seq<char>)
    ensures
        claude_needs_upgrade(c) <==> (contains(c, FOCUSD_AGENT_HOOK_SIGNATURE@)
            && (contains(c, AGENT_RUNNING_SCRIPT_FILE_NAME@)
                || !contains(c, AGENT_HOOK_SCRIPT_FILE_NAME@)
                || !contains(c, "\"command\": \"cmd.exe\""@))),
        claude_hooks_installed(c) <==> contains(c, FOCUSD_AGENT_HOOK_SIGNATURE@),
{
}

} // verus!
