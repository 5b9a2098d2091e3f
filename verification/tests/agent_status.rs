use focusd_island::agent::{
    agent_status_snapshot_from_persisted, apply_agent_running_markers, apply_codex_thread_names,
    clear_agent_status_plan, default_agent_phase, default_agent_provider,
    default_agent_status_snapshot, default_display_index, default_persisted_agent_status,
    has_codex_sessions, is_hold_marker_file, is_provider_marker_file, next_display_index,
    normalize_agent_instance, normalize_agent_task_status, parse_agent_marker_file_name,
    parse_all_codex_thread_names, provider_marker_files, provider_upgrade_marker_files,
    remove_all_agent_marker_files, sort_instances, thread_names_from_records, upsert_running_instance, AgentInstance,
    AgentStatusError, AgentStatusSnapshot, AgentTaskStatus, LegacyMarkers, MarkerFile,
    PersistedAgentStatus, AGENT_HOLD_MARKER_PREFIX, AGENT_MARKER_SUFFIX,
    AGENT_RUNNING_MARKER_PREFIX,
};

fn instance(provider: &str, id: &str, index: u32, phase: &str, updated_at: i64) -> AgentInstance {
    AgentInstance {
        id: id.to_string(),
        provider: provider.to_string(),
        display_index: index,
        phase: phase.to_string(),
        task_id: None,
        display_name: None,
        updated_at,
    }
}

fn snapshot(instances: Vec<AgentInstance>) -> AgentStatusSnapshot {
    AgentStatusSnapshot { instances, updated_at: 1, status_path: "status.json".to_string() }
}

fn no_legacy() -> LegacyMarkers {
    LegacyMarkers { running: false, running_modified_at: None, hold_content: None }
}

fn keys(s: &AgentStatusSnapshot) -> Vec<(String, String, u32)> {
    s.instances.iter().map(|i| (i.provider.clone(), i.id.clone(), i.display_index)).collect()
}

#[test]
fn codex_thread_index_uses_latest_exact_session_title() {
    let session_id = "11111111-2222-3333-4444-555555555555";
    let index = format!(
        "{{\"id\":\"{session_id}\",\"thread_name\":\"旧标题\"}}\n             not-json\n             {{\"id\":\"other-session\",\"thread_name\":\"其他标题\"}}\n             {{\"id\":\"{session_id}\",\"thread_name\":\"  最新标题  \"}}"
    );

    let names = parse_all_codex_thread_names(&index);

    assert_eq!(
        names.iter().find(|(id, _)| id == session_id).map(|(_, name)| name.as_str()),
        Some("最新标题")
    );
    assert_eq!(names.len(), 2);
}

#[test]
fn thread_names_skip_blank_titles_and_bad_lines() {
    let content = "{\"id\":\"a\",\"thread_name\":\"  \"}\n{\"id\":\"a\",\"thread_name\":\"first\"}\n[1,2]\n{\"id\":3}";
    let names = parse_all_codex_thread_names(content);
    assert_eq!(names, vec![("a".to_string(), "first".to_string())]);
    assert!(parse_all_codex_thread_names("").is_empty());
}

#[test]
fn thread_names_apply_to_codex_sessions() {
    let mut s = snapshot(vec![
        instance("codex", "session-abc", 1, "running", 5),
        instance("claudeCode", "session-abc", 1, "running", 5),
        instance("codex", "other", 2, "running", 5),
    ]);
    assert!(has_codex_sessions(&s));
    let names = vec![("abc".to_string(), "Title".to_string())];
    apply_codex_thread_names(&mut s, &names);
    assert_eq!(s.instances[0].display_name.as_deref(), Some("Title"));
    assert_eq!(s.instances[1].display_name, None);
    assert_eq!(s.instances[2].display_name, None);
    let without = snapshot(vec![instance("claudeCode", "session-x", 1, "running", 5)]);
    assert!(!has_codex_sessions(&without));
}

#[test]
fn defaults() {
    assert_eq!(default_agent_phase(), "idle");
    assert_eq!(default_agent_provider(), "codex");
    assert_eq!(default_display_index(), 1);
    let d = AgentInstance::default();
    assert_eq!((d.provider.as_str(), d.display_index, d.phase.as_str()), ("codex", 1, "idle"));
    assert_eq!(AgentTaskStatus::default().phase, "idle");
    let s = default_agent_status_snapshot("p".to_string(), 9);
    assert!(s.instances.is_empty());
    assert_eq!(s.updated_at, 9);
    let p = default_persisted_agent_status(9);
    assert!(p.codex.is_none() && p.claude_code.is_none() && p.instances.is_empty());
}

#[test]
fn normalization_fixes_unknown_values() {
    let fixed = normalize_agent_instance(instance("gemini", "x", 0, "dancing", 3));
    assert_eq!(fixed.provider, "codex");
    assert_eq!(fixed.display_index, 1);
    assert_eq!(fixed.phase, "idle");
    let kept = normalize_agent_instance(instance("claudeCode", "x", 4, "stale", 3));
    assert_eq!((kept.provider.as_str(), kept.display_index, kept.phase.as_str()), ("claudeCode", 4, "stale"));
    let status = normalize_agent_task_status(AgentTaskStatus { phase: "weird".to_string(), task_id: Some("t".to_string()), updated_at: 2 });
    assert_eq!(status.phase, "idle");
    assert_eq!(status.task_id.as_deref(), Some("t"));
}

#[test]
fn snapshots_from_status_files() {
    let persisted = PersistedAgentStatus {
        instances: vec![instance("codex", "", 1, "running", 1), instance("claudeCode", "a", 0, "failed", 1)],
        codex: None,
        claude_code: None,
        updated_at: 0,
    };
    let s = agent_status_snapshot_from_persisted(persisted, "path".to_string(), 77);
    assert_eq!(keys(&s), vec![("claudeCode".to_string(), "a".to_string(), 1)]);
    assert_eq!(s.updated_at, 77);
    assert_eq!(s.status_path, "path");

    let legacy = PersistedAgentStatus {
        instances: Vec::new(),
        codex: Some(AgentTaskStatus { phase: "running".to_string(), task_id: None, updated_at: 4 }),
        claude_code: Some(AgentTaskStatus { phase: "completed".to_string(), task_id: None, updated_at: 4 }),
        updated_at: 5,
    };
    let s = agent_status_snapshot_from_persisted(legacy, "path".to_string(), 77);
    assert_eq!(keys(&s), vec![("codex".to_string(), "legacy-codex".to_string(), 1)]);
    assert_eq!(s.updated_at, 5);
}

#[test]
fn marker_file_names() {
    assert_eq!(
        parse_agent_marker_file_name("agent-running-codex-1a2b.flag", AGENT_RUNNING_MARKER_PREFIX, AGENT_MARKER_SUFFIX),
        Some(("codex".to_string(), "1a2b".to_string()))
    );
    assert_eq!(
        parse_agent_marker_file_name("agent-hold-claudeCode-x-y.flag", AGENT_HOLD_MARKER_PREFIX, AGENT_MARKER_SUFFIX),
        Some(("claudeCode".to_string(), "x-y".to_string()))
    );
    assert_eq!(parse_agent_marker_file_name("agent-running-codex-.flag", AGENT_RUNNING_MARKER_PREFIX, AGENT_MARKER_SUFFIX), None);
    assert_eq!(parse_agent_marker_file_name("agent-running-gemini-1.flag", AGENT_RUNNING_MARKER_PREFIX, AGENT_MARKER_SUFFIX), None);
    assert_eq!(parse_agent_marker_file_name("agent-running-codex-1.txt", AGENT_RUNNING_MARKER_PREFIX, AGENT_MARKER_SUFFIX), None);
    assert!(is_hold_marker_file("agent-hold-codex-1.flag"));
    assert!(!is_hold_marker_file("agent-running-codex-1.flag"));
    assert!(is_provider_marker_file("agent-hold-codex-anything.flag", "codex"));
    assert!(!is_provider_marker_file("agent-hold-codex-anything.flag", "claudeCode"));
}

#[test]
fn display_numbers_fill_the_first_gap() {
    let list = vec![
        instance("codex", "a", 1, "running", 1),
        instance("codex", "b", 3, "running", 1),
        instance("claudeCode", "c", 2, "running", 1),
    ];
    assert_eq!(next_display_index(&list, "codex"), 2);
    assert_eq!(next_display_index(&list, "claudeCode"), 1);
    assert_eq!(next_display_index(&Vec::new(), "codex"), 1);
}

#[test]
fn upsert_updates_or_adds() {
    let mut s = snapshot(vec![instance("codex", "a", 1, "completed", 1)]);
    upsert_running_instance(&mut s, "codex", "a", "running", 10);
    assert_eq!(s.instances.len(), 1);
    assert_eq!(s.instances[0].phase, "running");
    assert_eq!(s.instances[0].updated_at, 10);
    upsert_running_instance(&mut s, "codex", "b", "running", 11);
    assert_eq!(s.instances.len(), 2);
    assert_eq!(s.instances[1].display_index, 2);
    upsert_running_instance(&mut s, "claudeCode", "a", "running", 12);
    assert_eq!(s.instances[2].display_index, 1);
    let mut indices: Vec<(String, u32)> = s.instances.iter().map(|i| (i.provider.clone(), i.display_index)).collect();
    indices.sort();
    indices.dedup();
    assert_eq!(indices.len(), 3);
}

#[test]
fn running_markers_decide_what_is_listed() {
    let now = 1_000_000;
    let mut s = snapshot(vec![
        instance("codex", "gone", 1, "running", 5),
        instance("codex", "done", 2, "completed", now - 1000),
        instance("codex", "old", 3, "completed", now - 86_400_000),
        instance("claudeCode", "f", 1, "failed", 5),
        instance("claudeCode", "idle", 2, "idle", 5),
        instance("claudeCode", "st", 3, "stale", 5),
    ]);
    let files = vec![
        MarkerFile { name: "agent-running-codex-live.flag".to_string(), modified_at: Some(123), content: None },
        MarkerFile { name: "agent-hold-claudeCode-h.flag".to_string(), modified_at: None, content: Some(" 2000000 ".to_string()) },
        MarkerFile { name: "agent-hold-codex-expired.flag".to_string(), modified_at: None, content: Some("5".to_string()) },
        MarkerFile { name: "notes.txt".to_string(), modified_at: None, content: None },
    ];
    let removals = apply_agent_running_markers(&mut s, &files, &no_legacy(), &no_legacy(), now);
    assert_eq!(
        removals,
        vec![
            "agent-hold-codex-expired.flag".to_string(),
            "agent-codex-running-hold.flag".to_string(),
            "agent-claudeCode-running-hold.flag".to_string(),
        ]
    );
    assert_eq!(s.updated_at, now);
    let listed: Vec<(String, String)> = s.instances.iter().map(|i| (i.provider.clone(), i.id.clone())).collect();
    assert_eq!(
        listed,
        vec![
            ("claudeCode".to_string(), "f".to_string()),
            ("claudeCode".to_string(), "st".to_string()),
            ("claudeCode".to_string(), "h".to_string()),
            ("codex".to_string(), "done".to_string()),
            ("codex".to_string(), "live".to_string()),
        ]
    );
    let live = s.instances.iter().find(|i| i.id == "live").unwrap();
    assert_eq!(live.updated_at, 123);
    assert_eq!(live.display_index, 4);
}

#[test]
fn running_markers_older_than_ten_minutes_show_stale() {
    let now = 10_000_000;
    let mut s = snapshot(Vec::new());
    let files = vec![
        MarkerFile { name: "agent-running-codex-fresh.flag".to_string(), modified_at: Some(now - 600_000), content: None },
        MarkerFile { name: "agent-running-codex-old.flag".to_string(), modified_at: Some(now - 600_001), content: None },
        MarkerFile { name: "agent-running-claudeCode-unknown.flag".to_string(), modified_at: None, content: None },
    ];
    let codex = LegacyMarkers { running: true, running_modified_at: Some(now - 700_000), hold_content: None };
    apply_agent_running_markers(&mut s, &files, &codex, &no_legacy(), now);
    let phases: Vec<(String, String)> = s.instances.iter().map(|i| (i.id.clone(), i.phase.clone())).collect();
    assert_eq!(
        phases,
        vec![
            ("unknown".to_string(), "running".to_string()),
            ("fresh".to_string(), "running".to_string()),
            ("old".to_string(), "stale".to_string()),
            ("legacy-codex".to_string(), "stale".to_string()),
        ]
    );
}

#[test]
fn a_visible_hold_marker_keeps_an_old_marker_running_in_either_order() {
    let now = 10_000_000;
    let old = || MarkerFile { name: "agent-running-codex-a.flag".to_string(), modified_at: Some(now - 700_000), content: None };
    let hold = || MarkerFile { name: "agent-hold-codex-a.flag".to_string(), modified_at: None, content: Some((now + 500).to_string()) };
    for files in [vec![old(), hold()], vec![hold(), old()]] {
        let mut s = snapshot(Vec::new());
        apply_agent_running_markers(&mut s, &files, &no_legacy(), &no_legacy(), now);
        assert_eq!(s.instances.len(), 1);
        assert_eq!(s.instances[0].phase, "running");
    }
    let codex = LegacyMarkers { running: true, running_modified_at: Some(now - 700_000), hold_content: Some((now + 1).to_string()) };
    let mut s = snapshot(Vec::new());
    apply_agent_running_markers(&mut s, &Vec::new(), &codex, &no_legacy(), now);
    assert_eq!(s.instances[0].phase, "running");
}

#[test]
fn legacy_markers_keep_legacy_instances() {
    let now = 50;
    let mut s = snapshot(Vec::new());
    let codex = LegacyMarkers { running: true, running_modified_at: Some(40), hold_content: None };
    let claude = LegacyMarkers { running: false, running_modified_at: None, hold_content: Some("60".to_string()) };
    let removals = apply_agent_running_markers(&mut s, &Vec::new(), &codex, &claude, now);
    assert!(removals.is_empty());
    let listed: Vec<(String, String, i64)> = s.instances.iter().map(|i| (i.provider.clone(), i.id.clone(), i.updated_at)).collect();
    assert_eq!(
        listed,
        vec![
            ("claudeCode".to_string(), "legacy-claudeCode".to_string(), 50),
            ("codex".to_string(), "legacy-codex".to_string(), 40),
        ]
    );
}

#[test]
fn sorting_orders_by_provider_then_number() {
    let sorted = sort_instances(vec![
        instance("codex", "b", 2, "running", 1),
        instance("claudeCode", "c", 5, "running", 1),
        instance("codex", "a", 1, "running", 1),
    ]);
    let order: Vec<String> = sorted.iter().map(|i| i.id.clone()).collect();
    assert_eq!(order, vec!["c".to_string(), "a".to_string(), "b".to_string()]);
}

#[test]
fn sorting_keeps_the_order_of_instances_that_list_alike() {
    let sorted = sort_instances(vec![
        instance("codex", "z", 1, "running", 1),
        instance("codex", "y", 3, "running", 1),
        instance("codex", "x", 1, "failed", 1),
        instance("claudeCode", "w", 1, "running", 1),
        instance("codex", "v", 1, "running", 1),
    ]);
    let order: Vec<String> = sorted.iter().map(|i| i.id.clone()).collect();
    assert_eq!(
        order,
        vec!["w".to_string(), "z".to_string(), "x".to_string(), "v".to_string(), "y".to_string()]
    );
}

#[test]
fn clearing_an_instance() {
    let mut persisted = PersistedAgentStatus {
        instances: vec![instance("codex", "a", 1, "running", 1), instance("claudeCode", "a", 1, "running", 1), instance("codex", "b", 2, "running", 1)],
        codex: Some(AgentTaskStatus::default()),
        claude_code: None,
        updated_at: 1,
    };
    let plan = clear_agent_status_plan(&mut persisted, Some("codex".to_string()), Some("a".to_string()), 99).unwrap();
    assert_eq!(plan.remove_files, vec!["agent-running-codex-a.flag".to_string(), "agent-hold-codex-a.flag".to_string()]);
    assert!(plan.scan_providers.is_empty());
    let left: Vec<(String, String)> = persisted.instances.iter().map(|i| (i.provider.clone(), i.id.clone())).collect();
    assert_eq!(left, vec![("claudeCode".to_string(), "a".to_string()), ("codex".to_string(), "b".to_string())]);
    assert!(persisted.codex.is_none());
    assert_eq!(persisted.updated_at, 99);
}

#[test]
fn clearing_a_provider_or_everything() {
    let mut persisted = PersistedAgentStatus {
        instances: vec![instance("codex", "a", 1, "running", 1), instance("claudeCode", "b", 1, "running", 1)],
        codex: None,
        claude_code: None,
        updated_at: 1,
    };
    let plan = clear_agent_status_plan(&mut persisted, Some("claudeCode".to_string()), None, 5).unwrap();
    assert_eq!(plan.scan_providers, vec!["claudeCode".to_string()]);
    assert_eq!(plan.remove_files, vec!["agent-claudeCode-running.flag".to_string(), "agent-claudeCode-running-hold.flag".to_string()]);
    assert_eq!(persisted.instances.len(), 1);
    let plan = clear_agent_status_plan(&mut persisted, None, None, 6).unwrap();
    assert_eq!(plan.scan_providers, vec!["codex".to_string(), "claudeCode".to_string()]);
    assert_eq!(plan.remove_files.len(), 4);
    assert!(persisted.instances.is_empty());
    let refused = clear_agent_status_plan(&mut persisted, Some("gemini".to_string()), None, 7);
    assert_eq!(refused.err(), Some(AgentStatusError::UnsupportedProvider));
    assert_eq!(persisted.updated_at, 6);
    assert_eq!(AgentStatusError::UnsupportedProvider.message(), "Unsupported agent provider.");
}

#[test]
fn legacy_instance_ids_clear_legacy_markers() {
    let mut persisted = default_persisted_agent_status(1);
    let plan = clear_agent_status_plan(&mut persisted, None, Some("legacy-codex".to_string()), 2).unwrap();
    assert_eq!(
        plan.remove_files,
        vec![
            "agent-running-codex-legacy-codex.flag".to_string(),
            "agent-hold-codex-legacy-codex.flag".to_string(),
            "agent-running-claudeCode-legacy-codex.flag".to_string(),
            "agent-hold-claudeCode-legacy-codex.flag".to_string(),
            "agent-codex-running.flag".to_string(),
            "agent-codex-running-hold.flag".to_string(),
        ]
    );
}

#[test]
fn marker_files_to_delete() {
    let listing = vec![
        "agent-running-codex-1.flag".to_string(),
        "agent-hold-claudeCode-2.flag".to_string(),
        "agent-running-codex-3.txt".to_string(),
        "agent-status.json".to_string(),
    ];
    assert_eq!(provider_marker_files(&listing, "codex"), vec!["agent-running-codex-1.flag".to_string()]);
    let all = remove_all_agent_marker_files(&listing);
    assert_eq!(
        all,
        vec![
            "agent-running-codex-1.flag".to_string(),
            "agent-hold-claudeCode-2.flag".to_string(),
            "agent-codex-running.flag".to_string(),
            "agent-codex-running-hold.flag".to_string(),
            "agent-claudeCode-running.flag".to_string(),
            "agent-claudeCode-running-hold.flag".to_string(),
        ]
    );
    assert_eq!(
        provider_upgrade_marker_files(&listing, false),
        vec![
            "agent-hold-claudeCode-2.flag".to_string(),
            "agent-claudeCode-running.flag".to_string(),
            "agent-claudeCode-running-hold.flag".to_string(),
        ]
    );
}

#[test]
fn thread_names_from_parsed_records() {
    let some = |id: Option<&str>, name: Option<&str>| Some((id.map(str::to_string), name.map(str::to_string)));
    let records = vec![
        some(Some("s1"), Some("old")),
        None,
        some(Some("s2"), None),
        some(None, Some("no id")),
        some(Some("s1"), Some("  new  ")),
        some(Some("s2"), Some(" ")),
    ];
    let names = thread_names_from_records(&records);
    assert_eq!(names, vec![("s1".to_string(), "new".to_string())]);
    assert!(thread_names_from_records(&Vec::new()).is_empty());
}
