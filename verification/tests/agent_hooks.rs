use focusd_island::claude::{
    claude_code_hook_entry, claude_code_match_all_hook_entry, claude_code_running_hook_entry,
    claude_code_status_hook_entry, claude_settings_text_is_blank, claude_settings_text_with_hooks, claude_settings_with_hooks,
    install_claude_code_hook_event, remove_managed_claude_code_hooks,
    value_contains_focusd_hook_signature, ClaudeSettingsError, JsonValue,
};
use focusd_island::hooks::{
    agent_hook_command, agent_hook_command_argument, build_codex_hook_block,
    bundled_script_outdated, codex_config_with_hook_block, codex_hook_event_path,
    install_agent_hook_scripts, is_codex_nested_hook_header_for,
    managed_claude_hook_has_current_entry, managed_codex_hook_has_current_entry,
    normalize_windows_line_endings, plan_agent_hook_refresh, remove_legacy_codex_focusd_hooks,
    remove_managed_codex_hook_block, toml_basic_string, AGENT_HOOK_SCRIPT_FILE_NAME,
    FOCUSD_AGENT_HOOK_VERSION_MARKER,
};

const SCRIPT: &str = r"C:\FocuSD\focusd-agent-hook.cmd";

fn text(s: &str) -> JsonValue {
    JsonValue::Text(s.to_string())
}

fn object(members: Vec<(&str, JsonValue)>) -> JsonValue {
    JsonValue::Object(members.into_iter().map(|(k, v)| (k.to_string(), v)).collect())
}

#[test]
fn generated_hooks_use_short_cmd_entry_points() {
    let script_path = SCRIPT;
    let codex_command = agent_hook_command(script_path, "codex", "running");
    assert!(codex_command.contains("focusd-agent-hook.cmd"));
    assert!(codex_command.contains("codex"));
    assert!(codex_command.contains("running"));
    assert!(codex_command.contains("cmd.exe /d /s /c"));

    let claude_entry = claude_code_status_hook_entry(script_path, "running");
    assert_eq!(
        claude_entry.get("hooks").and_then(|h| h.at(0)).and_then(|h| h.get("command")).and_then(|c| c.as_str()),
        Some("cmd.exe")
    );
    let args = claude_entry
        .get("hooks")
        .and_then(|h| h.at(0))
        .and_then(|h| h.get("args"))
        .and_then(|a| a.as_array())
        .expect("hook args should be an array");
    assert_eq!(args[0].as_str(), Some("/d"));
    assert_eq!(args[1].as_str(), Some("/s"));
    assert_eq!(args[2].as_str(), Some("/c"));
    let command = args[3].as_str().expect("hook should include the cmd command string");
    assert!(command.contains("focusd-agent-hook.cmd"));
    assert!(command.contains("claudeCode"));
    assert!(command.contains("running"));
}

#[test]
fn generated_codex_hooks_include_upgrade_version_marker() {
    let block = build_codex_hook_block(SCRIPT);
    assert!(block.contains(FOCUSD_AGENT_HOOK_VERSION_MARKER));
    assert!(block.contains(AGENT_HOOK_SCRIPT_FILE_NAME));
    assert!(managed_codex_hook_has_current_entry(&block));
}

#[test]
fn managed_hook_upgrade_rejects_legacy_inline_entry() {
    let legacy = r#"
# BEGIN FocuSD Agent Status Hooks
command = "powershell.exe -NoProfile -ExecutionPolicy Bypass -Command ConvertFrom-Json"
command = "C:\Users\Test\focusd-agent-status.ps1"
# END FocuSD Agent Status Hooks
"#;

    assert!(!managed_codex_hook_has_current_entry(legacy));
    assert!(!managed_claude_hook_has_current_entry(legacy));
}

#[test]
fn managed_hook_upgrade_ignores_unrelated_hook_entry() {
    assert!(!managed_codex_hook_has_current_entry("command = \"other-hook.cmd\" codex running"));
    assert!(!managed_claude_hook_has_current_entry("command = \"focusd-agent-hook.cmd\" codex running"));
}

// ---------------------------------------------------------------------------
// Hook commands and the Codex block
// ---------------------------------------------------------------------------

#[test]
fn hook_commands_quote_the_script() {
    assert_eq!(
        agent_hook_command_argument(SCRIPT, "codex", "running"),
        "\"\"C:\\FocuSD\\focusd-agent-hook.cmd\" codex running\""
    );
    assert_eq!(
        agent_hook_command(SCRIPT, "claudeCode", "failed"),
        "cmd.exe /d /s /c \"\"C:\\FocuSD\\focusd-agent-hook.cmd\" claudeCode failed\""
    );
}

#[test]
fn toml_strings_escape_like_json() {
    assert_eq!(toml_basic_string("a\"b\\c"), "\"a\\\"b\\\\c\"");
    assert_eq!(toml_basic_string("line\nnext\t\u{1}"), "\"line\\nnext\\t\\u0001\"");
    assert_eq!(toml_basic_string("最新"), "\"最新\"");
}

#[test]
fn codex_block_layout() {
    let block = build_codex_hook_block("C:\\x\\focusd-agent-hook.cmd");
    let submit = toml_basic_string(&agent_hook_command("C:\\x\\focusd-agent-hook.cmd", "codex", "running"));
    let stop = toml_basic_string(&agent_hook_command("C:\\x\\focusd-agent-hook.cmd", "codex", "completed"));
    let expected = format!(
        "# BEGIN FocuSD Agent Status Hooks\n# FocuSD Agent Status Hooks Version: 2\n\n[[hooks.UserPromptSubmit]]\n[[hooks.UserPromptSubmit.hooks]]\ntype = \"command\"\ncommand = {submit}\ncommand_windows = {submit}\ntimeout = 5\nstatusMessage = \"Updating FocuSD agent status\"\n\n[[hooks.Stop]]\n[[hooks.Stop.hooks]]\ntype = \"command\"\ncommand = {stop}\ncommand_windows = {stop}\ntimeout = 5\nstatusMessage = \"Updating FocuSD agent status\"\n\n# END FocuSD Agent Status Hooks"
    );
    assert_eq!(block, expected);
}

#[test]
fn hook_event_headers() {
    assert_eq!(codex_hook_event_path("[[hooks.Stop]]"), Some("hooks.Stop".to_string()));
    assert_eq!(codex_hook_event_path("[[hooks.Stop.hooks]]"), None);
    assert_eq!(codex_hook_event_path("[hooks.Stop]"), None);
    assert_eq!(codex_hook_event_path("[[other.Stop]]"), None);
    assert_eq!(codex_hook_event_path("[[hooks.]]"), Some("hooks.".to_string()));
    assert!(is_codex_nested_hook_header_for("[[hooks.Stop.hooks]]", "hooks.Stop"));
    assert!(!is_codex_nested_hook_header_for("[[hooks.Stop.hooks]] ", "hooks.Stop"));
}

#[test]
fn removing_the_managed_block_keeps_other_settings() {
    let block = build_codex_hook_block(SCRIPT);
    let content = format!("model = \"o3\"\n\n{block}\n[tools]\nweb = true\n");
    let cleaned = remove_managed_codex_hook_block(&content);
    assert_eq!(cleaned, "model = \"o3\"\n\n[tools]\nweb = true");
    let unterminated = "a = 1\n# BEGIN FocuSD Agent Status Hooks\nb = 2\n";
    assert_eq!(remove_managed_codex_hook_block(unterminated), "a = 1");
    assert_eq!(remove_managed_codex_hook_block("x = 1\r\ny = 2\r\n"), "x = 1\ny = 2");
}

#[test]
fn legacy_hooks_lose_focusd_entries_only() {
    let content = "[[hooks.Stop]]\nmatcher = \"*\"\n[[hooks.Stop.hooks]]\ncommand = \"C:\\\\focusd-agent-running.cmd\"\n[[hooks.Stop.hooks]]\ncommand = \"other.cmd\"\n[other]\nx = 1";
    assert_eq!(
        remove_legacy_codex_focusd_hooks(content),
        "[[hooks.Stop]]\nmatcher = \"*\"\n[[hooks.Stop.hooks]]\ncommand = \"other.cmd\"\n[other]\nx = 1"
    );
    let only_focusd = "[[hooks.Stop]]\n[[hooks.Stop.hooks]]\ncommand = \"focusd-agent-hook.cmd\"\nkeep = 1";
    assert_eq!(remove_legacy_codex_focusd_hooks(only_focusd), "");
    let unrelated = "[[hooks.Stop]]\n[[hooks.Stop.hooks]]\ncommand = \"mine.cmd\"";
    assert_eq!(remove_legacy_codex_focusd_hooks(unrelated), unrelated);
}

#[test]
fn installing_codex_hooks_replaces_the_old_block() {
    let first = codex_config_with_hook_block("model = \"o3\"\n\n\n", SCRIPT);
    assert!(first.starts_with("model = \"o3\"\n\n# BEGIN FocuSD Agent Status Hooks"));
    assert!(managed_codex_hook_has_current_entry(&first));
    let second = codex_config_with_hook_block(&first, SCRIPT);
    assert_eq!(second, first);
    let fresh = codex_config_with_hook_block("", SCRIPT);
    assert_eq!(fresh, build_codex_hook_block(SCRIPT));
}

// ---------------------------------------------------------------------------
// Scripts and the start-up refresh
// ---------------------------------------------------------------------------

#[test]
fn scripts_get_windows_line_endings() {
    assert_eq!(normalize_windows_line_endings("a\nb\r\nc"), "a\r\nb\r\nc");
    assert_eq!(normalize_windows_line_endings("\r\r\n"), "\r\r\n");
    let once = normalize_windows_line_endings("x\n\ny\r\n");
    assert_eq!(normalize_windows_line_endings(&once), once);
    assert_eq!(once, "x\r\n\r\ny\r\n");
}

#[test]
fn bundled_scripts_are_written_with_their_names() {
    let files = install_agent_hook_scripts("r\n", "h\n", "s\n");
    assert_eq!(files.len(), 3);
    assert_eq!(files[0], ("focusd-agent-running.cmd".to_string(), "r\r\n".to_string()));
    assert_eq!(files[1], ("focusd-agent-hook.cmd".to_string(), "h\r\n".to_string()));
    assert_eq!(files[2], ("focusd-agent-status.ps1".to_string(), "s\r\n".to_string()));
    assert!(!bundled_script_outdated(Some("r\r\n"), "r\n"));
    assert!(bundled_script_outdated(Some("r\n"), "r\n"));
    assert!(bundled_script_outdated(None, "r\n"));
}

#[test]
fn refresh_does_nothing_without_installed_hooks() {
    let plan = plan_agent_hook_refresh("model = 1", "{}", true, true, true);
    assert!(!plan.codex_installed);
    assert!(!plan.claude_installed);
    assert!(!plan.reinstall_scripts);
    assert!(!plan.upgrade_codex);
    assert!(!plan.upgrade_claude);
}

#[test]
fn refresh_upgrades_outdated_hooks() {
    let current = codex_config_with_hook_block("", SCRIPT);
    let plan = plan_agent_hook_refresh(&current, "", false, false, false);
    assert!(plan.codex_installed);
    assert!(!plan.reinstall_scripts);
    assert!(!plan.upgrade_codex);
    let legacy = "[[hooks.Stop.hooks]]\ncommand = \"C:\\\\focusd-agent-running.cmd\"";
    let plan = plan_agent_hook_refresh(legacy, "{\"command\": \"cmd.exe\", \"focusd-agent-hook.cmd\": 1}", false, true, false);
    assert!(plan.codex_installed);
    assert!(plan.upgrade_codex);
    assert!(plan.claude_installed);
    assert!(!plan.upgrade_claude);
    assert!(plan.reinstall_scripts);
}

// ---------------------------------------------------------------------------
// The claudeCode settings
// ---------------------------------------------------------------------------

#[test]
fn claude_hook_entry_shape() {
    let entry = claude_code_hook_entry("run.exe", vec!["a".to_string()], 7);
    let hook = entry.get("hooks").and_then(|h| h.at(0)).unwrap();
    assert_eq!(hook.get("type").and_then(|v| v.as_str()), Some("command"));
    assert_eq!(hook.get("command").and_then(|v| v.as_str()), Some("run.exe"));
    assert!(matches!(hook.get("timeout"), Some(JsonValue::Number(n)) if n == "7"));
    assert_eq!(hook.get("args").and_then(|a| a.as_array()).map(|a| a.len()), Some(1));
    assert!(entry.get("hooks").and_then(|h| h.at(1)).is_none());
    assert!(entry.get("missing").is_none());
}

#[test]
fn match_all_entries_get_a_matcher() {
    let entry = claude_code_match_all_hook_entry(claude_code_running_hook_entry(SCRIPT));
    assert_eq!(entry.get("matcher").and_then(|m| m.as_str()), Some("*"));
    let not_object = claude_code_match_all_hook_entry(text("x"));
    assert_eq!(not_object.as_str(), Some("x"));
}

#[test]
fn signature_search_reaches_nested_strings() {
    assert!(value_contains_focusd_hook_signature(&object(vec![("a", JsonValue::Array(vec![text("focusd-agent-x")]))])));
    assert!(!value_contains_focusd_hook_signature(&object(vec![("focusd-agent-key", text("v"))])));
    assert!(!value_contains_focusd_hook_signature(&JsonValue::Number("1".to_string())));
}

#[test]
fn managed_claude_hooks_are_removed() {
    let mine = object(vec![("command", text("focusd-agent-hook.cmd"))]);
    let other = object(vec![("command", text("other.cmd"))]);
    let mixed = object(vec![("matcher", text("*")), ("hooks", JsonValue::Array(vec![mine, other]))]);
    let kept = remove_managed_claude_code_hooks(mixed).unwrap();
    let hooks = kept.get("hooks").and_then(|h| h.as_array()).unwrap();
    assert_eq!(hooks.len(), 1);
    assert_eq!(hooks[0].get("command").and_then(|c| c.as_str()), Some("other.cmd"));
    assert_eq!(kept.get("matcher").and_then(|m| m.as_str()), Some("*"));
    assert!(remove_managed_claude_code_hooks(claude_code_running_hook_entry(SCRIPT)).is_none());
    assert!(remove_managed_claude_code_hooks(text("focusd-agent-x")).is_some());
    let no_array = object(vec![("hooks", text("focusd-agent-x"))]);
    assert!(remove_managed_claude_code_hooks(no_array).is_some());
}

#[test]
fn installing_a_hook_event_moves_it_last() {
    let mut hooks = vec![
        ("Stop".to_string(), JsonValue::Array(vec![claude_code_running_hook_entry(SCRIPT)])),
        ("Other".to_string(), JsonValue::Null),
    ];
    install_claude_code_hook_event(&mut hooks, "Stop", claude_code_status_hook_entry(SCRIPT, "completed"));
    assert_eq!(hooks.len(), 2);
    assert_eq!(hooks[0].0, "Other");
    assert_eq!(hooks[1].0, "Stop");
    let entries = hooks[1].1.as_array().unwrap();
    assert_eq!(entries.len(), 1);
}

#[test]
fn claude_settings_install_is_idempotent() {
    let config = object(vec![
        ("model", text("opus")),
        ("hooks", object(vec![("Stop", JsonValue::Array(vec![object(vec![("hooks", JsonValue::Array(vec![object(vec![("command", text("mine.cmd"))])]))])]))])),
    ]);
    let once = claude_settings_with_hooks(Some(config), SCRIPT).unwrap();
    let keys: Vec<String> = match &once {
        JsonValue::Object(members) => members.iter().map(|m| m.0.clone()).collect(),
        _ => panic!("object expected"),
    };
    assert_eq!(keys, vec!["model".to_string(), "hooks".to_string()]);
    let hooks = once.get("hooks").unwrap();
    let events: Vec<String> = match hooks {
        JsonValue::Object(members) => members.iter().map(|m| m.0.clone()).collect(),
        _ => panic!("object expected"),
    };
    assert_eq!(events, vec!["UserPromptSubmit", "PreToolUse", "Stop", "StopFailure"]);
    let stop = hooks.get("Stop").and_then(|s| s.as_array()).unwrap();
    assert_eq!(stop.len(), 2);
    assert!(!value_contains_focusd_hook_signature(&stop[0]));
    assert!(value_contains_focusd_hook_signature(&stop[1]));
    let twice = claude_settings_with_hooks(Some(once), SCRIPT).unwrap();
    let again = claude_settings_with_hooks(Some(claude_settings_with_hooks(None, SCRIPT).unwrap()), SCRIPT).unwrap();
    assert_eq!(format!("{twice:?}"), format!("{:?}", claude_settings_with_hooks(Some(config_copy()), SCRIPT).unwrap()));
    assert_eq!(format!("{again:?}"), format!("{:?}", claude_settings_with_hooks(None, SCRIPT).unwrap()));
}

fn config_copy() -> JsonValue {
    object(vec![
        ("model", text("opus")),
        ("hooks", object(vec![("Stop", JsonValue::Array(vec![object(vec![("hooks", JsonValue::Array(vec![object(vec![("command", text("mine.cmd"))])]))])]))])),
    ])
}

#[test]
fn claude_settings_must_be_an_object() {
    let refused = claude_settings_with_hooks(Some(JsonValue::Array(Vec::new())), SCRIPT);
    assert!(matches!(refused, Err(ClaudeSettingsError::NotAnObject)));
    assert_eq!(ClaudeSettingsError::NotAnObject.message(), "claudeCode settings.json must contain a JSON object.");
    let replaced = claude_settings_with_hooks(Some(object(vec![("hooks", text("bad"))])), SCRIPT).unwrap();
    assert!(replaced.get("hooks").and_then(|h| h.get("Stop")).is_some());
    assert!(claude_settings_text_is_blank("  \n "));
    assert!(!claude_settings_text_is_blank("{}"));
}

#[test]
fn settings_text_gets_the_hooks_and_keeps_other_members() {
    let text = claude_settings_text_with_hooks(Some("{\"model\": \"opus\", \"hooks\": {\"Other\": []}}"), SCRIPT).unwrap();
    let value: serde_json::Value = serde_json::from_str(&text).unwrap();
    assert_eq!(value["model"], serde_json::Value::String("opus".to_string()));
    assert!(value["hooks"]["Other"].is_array());
    for event in ["UserPromptSubmit", "PreToolUse", "Stop", "StopFailure"] {
        assert_eq!(value["hooks"][event].as_array().unwrap().len(), 1);
    }
    assert!(text.contains("\n  \"hooks\": {"));
    let again = claude_settings_text_with_hooks(Some(&text), SCRIPT).unwrap();
    assert_eq!(again, text);
}

#[test]
fn settings_text_missing_or_blank_counts_as_empty_object() {
    let missing = claude_settings_text_with_hooks(None, SCRIPT).unwrap();
    let blank = claude_settings_text_with_hooks(Some("  \n"), SCRIPT).unwrap();
    let empty = claude_settings_text_with_hooks(Some("{}"), SCRIPT).unwrap();
    assert_eq!(missing, blank);
    assert_eq!(missing, empty);
    let value: serde_json::Value = serde_json::from_str(&missing).unwrap();
    assert_eq!(value.as_object().unwrap().len(), 1);
}

#[test]
fn settings_text_errors() {
    match claude_settings_text_with_hooks(Some("{ not json"), SCRIPT) {
        Err(error) => {
            assert!(matches!(error, ClaudeSettingsError::ParseFailed(_)));
            assert!(error.message().starts_with("Failed to parse claudeCode settings.json: "));
        }
        Ok(_) => panic!("invalid JSON was accepted"),
    }
    assert!(matches!(claude_settings_text_with_hooks(Some("[1, 2]"), SCRIPT), Err(ClaudeSettingsError::NotAnObject)));
}
