use focusd_island::island::{
    clipboard_write_failed, current_unix_millis, monitor_for_point, startup_registry_query_args,
    startup_registry_update_args, startup_registry_update_result, system_time_to_unix_millis,
    todo_markdown_target, windows_home_dir, IslandMode, MonitorArea, RetryStep, TodoSaveError,
    CLIPBOARD_WRITE_RETRY_ATTEMPTS,
};

#[test]
fn island_modes_by_name() {
    assert_eq!(IslandMode::from_value("collapsed"), Ok(IslandMode::Collapsed));
    assert_eq!(IslandMode::from_value("expanded"), Ok(IslandMode::Expanded));
    assert_eq!(IslandMode::from_value("Expanded"), Err("Unsupported island mode: Expanded".to_string()));
    assert_eq!(IslandMode::from_value(""), Err("Unsupported island mode: ".to_string()));
}

#[test]
fn todo_targets() {
    let target = todo_markdown_target("  C:\\Notes  ", "2024-05-01").unwrap();
    assert_eq!(target.directory, "C:\\Notes");
    assert_eq!(target.file_name, "2024-05-01.md");
    assert!(matches!(todo_markdown_target(" \t ", "2024-05-01"), Err(TodoSaveError::EmptyPath)));
    assert!(matches!(todo_markdown_target(" ", "../x"), Err(TodoSaveError::EmptyPath)));
    assert!(matches!(todo_markdown_target("C:\\Notes", "2024/05/01"), Err(TodoSaveError::InvalidDate)));
    assert!(matches!(todo_markdown_target("C:\\Notes", "２０２４"), Err(TodoSaveError::InvalidDate)));
    assert_eq!(todo_markdown_target("d", "").unwrap().file_name, ".md");
    assert_eq!(TodoSaveError::EmptyPath.message(), "Todo save path is empty.");
    assert_eq!(TodoSaveError::InvalidDate.message(), "Todo date contains invalid filename characters.");
}

#[test]
fn clipboard_writes_are_retried_then_given_up() {
    assert_eq!(CLIPBOARD_WRITE_RETRY_ATTEMPTS, 8);
    for attempt in 0..7 {
        assert!(matches!(clipboard_write_failed(attempt, "set clipboard text", "busy"), RetryStep::Retry));
    }
    match clipboard_write_failed(7, "set clipboard text", "busy") {
        RetryStep::GiveUp(message) => assert_eq!(message, "Failed to set clipboard text after 8 attempts: busy"),
        RetryStep::Retry => panic!("should give up"),
    }
}

#[test]
fn unix_millis() {
    assert_eq!(system_time_to_unix_millis(Some(1_700_000_000_123)), Some(1_700_000_000_123));
    assert_eq!(system_time_to_unix_millis(None), None);
    assert_eq!(system_time_to_unix_millis(Some(u64::MAX as u128 + 2)), Some(1));
    assert_eq!(current_unix_millis(Some(5)), 5);
    assert_eq!(current_unix_millis(None), 0);
}

#[test]
fn home_directory_from_environment() {
    assert_eq!(windows_home_dir(Some("  C:\\Users\\a "), Some("D:"), Some("\\x")), Ok("C:\\Users\\a".to_string()));
    assert_eq!(windows_home_dir(Some("   "), Some("D:"), Some("\\x")), Ok("D:\\x".to_string()));
    assert_eq!(windows_home_dir(None, Some("D:"), Some("\\x")), Ok("D:\\x".to_string()));
    assert_eq!(
        windows_home_dir(None, Some(""), Some("\\x")),
        Err("Failed to resolve the Windows user profile directory.".to_string())
    );
    assert_eq!(
        windows_home_dir(None, None, None),
        Err("Failed to resolve the Windows user profile directory.".to_string())
    );
}

#[test]
fn startup_registry_commands() {
    assert_eq!(
        startup_registry_query_args(),
        vec!["query", "HKCU\\Software\\Microsoft\\Windows\\CurrentVersion\\Run", "/v", "FocuSD Island"]
    );
    assert_eq!(
        startup_registry_update_args(true, "C:\\App\\island.exe"),
        vec![
            "add",
            "HKCU\\Software\\Microsoft\\Windows\\CurrentVersion\\Run",
            "/v",
            "FocuSD Island",
            "/t",
            "REG_SZ",
            "/d",
            "\"C:\\App\\island.exe\"",
            "/f",
        ]
    );
    assert_eq!(
        startup_registry_update_args(false, "ignored"),
        vec!["delete", "HKCU\\Software\\Microsoft\\Windows\\CurrentVersion\\Run", "/v", "FocuSD Island", "/f"]
    );
    assert_eq!(startup_registry_update_result(true), Ok(()));
    assert_eq!(startup_registry_update_result(false), Err("Startup registry command failed.".to_string()));
}

#[test]
fn monitors_by_point() {
    let monitors = vec![
        MonitorArea { x: 0, y: 0, width: 1920, height: 1080 },
        MonitorArea { x: 1920, y: -200, width: 1280, height: 1024 },
    ];
    assert_eq!(monitor_for_point(&monitors, 10, 10), Some(0));
    assert_eq!(monitor_for_point(&monitors, 1920, -200), Some(1));
    assert_eq!(monitor_for_point(&monitors, 1919, 1079), Some(0));
    assert_eq!(monitor_for_point(&monitors, 1920, 823), Some(1));
    assert_eq!(monitor_for_point(&monitors, 1920, 824), None);
    assert_eq!(monitor_for_point(&monitors, 3200, 0), None);
    assert_eq!(monitor_for_point(&Vec::new(), 0, 0), None);
}
