use focusd_island::capture::{
    clipboard_image_png, create_item_id, encode_png, hash_bytes, hex_encode, history_item_for_capture, image_capture,
    image_file_names, image_history_item, limit_png_size, png_data_url, preview_text, stored_image,
    text_capture, text_history_item, thumbnail_data_url, ClipboardCapture, ClipboardImageError,
    MAX_IMAGE_PNG_BYTES,
};
use focusd_island::history::{
    copy_payload, retain_loadable, CaptureStep, ClipboardHistoryImage, ClipboardHistoryItem,
    ClipboardHistoryItemKind, ClipboardHistoryState, CopyPayload, HistoryError,
};
use focusd_island::hotkeys::{
    unique_shortcut_candidates, HotkeyRegistry, WindowMessageAction, AGENT_HOTKEY_ID,
    CLIPBOARD_HOTKEY_ID, HOTKEY_REFRESH_MESSAGE, MUSIC_HOTKEY_ID, TODO_HOTKEY_ID,
    WM_CLIPBOARDUPDATE, WM_HOTKEY,
};
use focusd_island::settings::{
    default_agent_shortcut, default_agent_shortcut_binding, default_clipboard_shortcut,
    default_clipboard_shortcut_binding, default_music_shortcut, default_music_shortcut_binding,
    default_todo_shortcut, default_todo_shortcut_binding, ClipboardHistorySettings,
};
use focusd_island::shortcut::{
    parse_shortcut_binding, shortcut_key_code, MOD_ALT, MOD_CONTROL, MOD_SHIFT, MOD_WIN,
};

#[test]
fn default_settings_include_all_page_shortcuts() {
    let settings = ClipboardHistorySettings::default().normalized();

    assert_eq!(settings.agent_shortcut, "Ctrl+Q");
    assert_eq!(settings.music_shortcut, "Ctrl+Alt+M");
    assert_eq!(settings.todo_shortcut, "Ctrl+Alt+T");
    assert_eq!(settings.shortcut, "Ctrl+X");
}

#[test]
fn duplicate_shortcuts_are_preserved_for_page_cycling() {
    let settings = ClipboardHistorySettings {
        shortcut: "Ctrl+Q".to_string(),
        agent_shortcut: "Ctrl+Q".to_string(),
        todo_shortcut: "Ctrl+Q".to_string(),
        ..ClipboardHistorySettings::default()
    }
    .normalized();

    assert_eq!(settings.agent_shortcut, "Ctrl+Q");
    assert_eq!(settings.todo_shortcut, "Ctrl+Q");
    assert_eq!(settings.shortcut, "Ctrl+Q");
}

#[test]
fn duplicate_shortcuts_register_once_using_cycle_priority() {
    let settings = ClipboardHistorySettings {
        shortcut: "Ctrl+Q".to_string(),
        agent_shortcut: "Ctrl+Q".to_string(),
        music_shortcut: "Ctrl+Q".to_string(),
        todo_shortcut: "Ctrl+Q".to_string(),
        ..ClipboardHistorySettings::default()
    }
    .normalized();
    let candidates = unique_shortcut_candidates(&settings);

    assert_eq!(candidates.len(), 1);
    assert_eq!(candidates[0].0, AGENT_HOTKEY_ID);
    assert_eq!(candidates[0].1.label, "Ctrl+Q");
}

// ---------------------------------------------------------------------------
// Settings and shortcuts
// ---------------------------------------------------------------------------

#[test]
fn default_settings_values() {
    let settings = ClipboardHistorySettings::default();
    assert!(settings.enabled);
    assert!(settings.capture_images);
    assert_eq!(settings.max_items, 30);
    assert_eq!(default_clipboard_shortcut(), "Ctrl+X");
    assert_eq!(default_agent_shortcut(), "Ctrl+Q");
    assert_eq!(default_todo_shortcut(), "Ctrl+Alt+T");
    assert_eq!(default_music_shortcut(), "Ctrl+Alt+M");
}

#[test]
fn default_bindings_parse_their_labels() {
    let clipboard = default_clipboard_shortcut_binding();
    assert_eq!(clipboard.label, "Ctrl+X");
    assert_eq!(clipboard.modifiers, MOD_CONTROL);
    assert_eq!(clipboard.key_code, 0x58);
    let agent = default_agent_shortcut_binding();
    assert_eq!(agent.label, "Ctrl+Q");
    assert_eq!(agent.key_code, 0x51);
    let todo = default_todo_shortcut_binding();
    assert_eq!(todo.label, "Ctrl+Alt+T");
    assert_eq!(todo.modifiers, MOD_CONTROL | MOD_ALT);
    let music = default_music_shortcut_binding();
    assert_eq!(music.label, "Ctrl+Alt+M");
    assert_eq!(music.key_code, 0x4D);
}

#[test]
fn normalized_clamps_max_items() {
    let low = ClipboardHistorySettings { max_items: 1, ..ClipboardHistorySettings::default() }.normalized();
    assert_eq!(low.max_items, 5);
    let high = ClipboardHistorySettings { max_items: 1000, ..ClipboardHistorySettings::default() }.normalized();
    assert_eq!(high.max_items, 200);
    let mid = ClipboardHistorySettings { max_items: 42, ..ClipboardHistorySettings::default() }.normalized();
    assert_eq!(mid.max_items, 42);
}

#[test]
fn normalized_replaces_invalid_shortcuts_by_defaults() {
    let settings = ClipboardHistorySettings {
        shortcut: "nonsense".to_string(),
        agent_shortcut: "Q".to_string(),
        todo_shortcut: "".to_string(),
        music_shortcut: "ctrl + alt + m".to_string(),
        ..ClipboardHistorySettings::default()
    }
    .normalized();
    assert_eq!(settings.shortcut, "Ctrl+X");
    assert_eq!(settings.agent_shortcut, "Ctrl+Q");
    assert_eq!(settings.todo_shortcut, "Ctrl+Alt+T");
    assert_eq!(settings.music_shortcut, "Ctrl+Alt+M");
}

#[test]
fn normalized_twice_is_normalized_once() {
    let once = ClipboardHistorySettings {
        shortcut: "shift+win+f5".to_string(),
        max_items: 3,
        ..ClipboardHistorySettings::default()
    }
    .normalized();
    let label = once.shortcut.clone();
    let twice = once.normalized();
    assert_eq!(twice.shortcut, label);
    assert_eq!(twice.shortcut, "Shift+Win+F5");
    assert_eq!(twice.max_items, 5);
}

#[test]
fn shortcut_labels_are_canonical() {
    let b = parse_shortcut_binding("shift + CONTROL + a").unwrap();
    assert_eq!(b.label, "Ctrl+Shift+A");
    assert_eq!(b.modifiers, MOD_CONTROL | MOD_SHIFT);
    assert_eq!(b.key_code, 0x41);
    let w = parse_shortcut_binding("cmd+option+7").unwrap();
    assert_eq!(w.label, "Alt+Win+7");
    assert_eq!(w.modifiers, MOD_ALT | MOD_WIN);
    assert_eq!(w.key_code, 0x37);
    let again = parse_shortcut_binding(&b.label).unwrap();
    assert_eq!(again.label, b.label);
    assert_eq!(again.modifiers, b.modifiers);
    assert_eq!(again.key_code, b.key_code);
}

#[test]
fn shortcuts_without_modifier_or_with_two_keys_are_refused() {
    assert!(parse_shortcut_binding("A").is_none());
    assert!(parse_shortcut_binding("Ctrl+A+B").is_none());
    assert!(parse_shortcut_binding("Ctrl").is_none());
    assert!(parse_shortcut_binding("Ctrl+Nope").is_none());
    assert!(parse_shortcut_binding("Ctrl+F25").is_none());
}

#[test]
fn named_and_function_keys() {
    assert_eq!(shortcut_key_code("esc"), Some(("Esc".to_string(), 0x1B)));
    assert_eq!(shortcut_key_code(" page down "), Some(("PageDown".to_string(), 0x22)));
    assert_eq!(shortcut_key_code("f1"), Some(("F1".to_string(), 0x70)));
    assert_eq!(shortcut_key_code("F24"), Some(("F24".to_string(), 0x87)));
    assert_eq!(shortcut_key_code("F0"), None);
    assert_eq!(shortcut_key_code("z"), Some(("Z".to_string(), 0x5A)));
    assert_eq!(shortcut_key_code("ArrowLeft"), Some(("Left".to_string(), 0x25)));
    assert_eq!(shortcut_key_code("é"), None);
}

#[test]
fn distinct_shortcuts_register_in_cycle_order() {
    let settings = ClipboardHistorySettings::default().normalized();
    let candidates = unique_shortcut_candidates(&settings);
    let ids: Vec<i32> = candidates.iter().map(|c| c.0).collect();
    assert_eq!(ids, vec![AGENT_HOTKEY_ID, MUSIC_HOTKEY_ID, TODO_HOTKEY_ID, CLIPBOARD_HOTKEY_ID]);
    assert_eq!(candidates[1].1.label, "Ctrl+Alt+M");
}

// ---------------------------------------------------------------------------
// Hotkey registry and the listener window
// ---------------------------------------------------------------------------

#[test]
fn hotkey_registry_maps_ids_to_labels() {
    let mut registry = HotkeyRegistry::new();
    registry.insert(AGENT_HOTKEY_ID, "Ctrl+Q".to_string());
    registry.insert(TODO_HOTKEY_ID, "Ctrl+Alt+T".to_string());
    registry.insert(AGENT_HOTKEY_ID, "Ctrl+Shift+Q".to_string());
    assert_eq!(registry.registered_shortcut_for_id(AGENT_HOTKEY_ID), Some("Ctrl+Shift+Q".to_string()));
    assert_eq!(registry.registered_shortcut_for_id(MUSIC_HOTKEY_ID), None);
    assert!(registry.shortcut_is_registered("Ctrl+Alt+T"));
    assert!(!registry.shortcut_is_registered("Ctrl+Q"));
    assert_eq!(registry.registered_hotkeys().len(), 2);
    let mut ids = registry.drain_ids();
    ids.sort();
    assert_eq!(ids, vec![AGENT_HOTKEY_ID, TODO_HOTKEY_ID]);
    assert_eq!(registry.registered_hotkeys().len(), 0);
}

#[test]
fn listener_window_messages() {
    let mut registry = HotkeyRegistry::new();
    registry.insert(MUSIC_HOTKEY_ID, "Ctrl+Alt+M".to_string());
    assert!(matches!(registry.window_message_action(WM_CLIPBOARDUPDATE, 0), WindowMessageAction::ClipboardChanged));
    match registry.window_message_action(WM_HOTKEY, MUSIC_HOTKEY_ID as usize) {
        WindowMessageAction::PageShortcut(label) => assert_eq!(label, "Ctrl+Alt+M"),
        other => panic!("unexpected {other:?}"),
    }
    assert!(matches!(registry.window_message_action(WM_HOTKEY, 7), WindowMessageAction::Default));
    assert!(matches!(registry.window_message_action(HOTKEY_REFRESH_MESSAGE, 0), WindowMessageAction::RefreshHotkeys));
    assert_eq!(HOTKEY_REFRESH_MESSAGE, 0x8051);
    assert!(matches!(registry.window_message_action(0x0001, 0), WindowMessageAction::Default));
}

// ---------------------------------------------------------------------------
// Captures
// ---------------------------------------------------------------------------

#[test]
fn hash_bytes_is_lowercase_sha256() {
    assert_eq!(hash_bytes(b"abc"), "ba7816bf8f01cfea414140de5dae2223b00361a396177a9cb410ff61f20015ad");
    assert_eq!(hash_bytes(b""), "e3b0c44298fc1c149afbf4c8996fb92427ae41e4649b934ca495991b7852b855");
}

#[test]
fn hex_encode_writes_two_digits_per_byte() {
    assert_eq!(hex_encode(&[0x00, 0x0f, 0xa0, 0xff]), "000fa0ff");
    assert_eq!(hex_encode(&[]), "");
}

#[test]
fn text_capture_hashes_prefixed_text() {
    let capture = text_capture("hello  world".to_string()).unwrap();
    assert_eq!(capture.hash(), hash_bytes(b"text:hello  world"));
    match capture {
        ClipboardCapture::Text { text, preview, .. } => {
            assert_eq!(text, "hello  world");
            assert_eq!(preview, "hello world");
        }
        ClipboardCapture::Image { .. } => panic!("text expected"),
    }
    assert!(text_capture(" \n\t ".to_string()).is_none());
    assert!(text_capture(String::new()).is_none());
}

#[test]
fn image_capture_hashes_size_and_pixels() {
    let rgba = vec![1u8, 2, 3, 4];
    let capture = image_capture(1, 1, rgba.clone());
    let mut input = Vec::new();
    input.extend_from_slice(&1usize.to_le_bytes());
    input.extend_from_slice(&1usize.to_le_bytes());
    input.extend_from_slice(&rgba);
    assert_eq!(capture.hash(), hash_bytes(&input));
    match capture {
        ClipboardCapture::Image { width, height, rgba: bytes, .. } => {
            assert_eq!((width, height), (1, 1));
            assert_eq!(bytes, rgba);
        }
        ClipboardCapture::Text { .. } => panic!("image expected"),
    }
}

#[test]
fn preview_collapses_whitespace_and_cuts_long_text() {
    assert_eq!(preview_text("  hello \n\t world  "), "hello world");
    assert_eq!(preview_text(""), "");
    let long = "a".repeat(150);
    let preview = preview_text(&long);
    assert_eq!(preview, format!("{}...", "a".repeat(140)));
    let exact = "b".repeat(140);
    assert_eq!(preview_text(&exact), exact);
    let words = "x ".repeat(80);
    assert_eq!(preview_text(&words).chars().count(), 143);
}

#[test]
fn item_ids_join_time_and_hash_start() {
    assert_eq!(create_item_id(1700000000000, "abcdef0123456789"), "1700000000000-abcdef012345");
    assert_eq!(create_item_id(-5, "ab"), "-5-ab");
    assert_eq!(create_item_id(0, ""), "0-");
}

#[test]
fn history_items_from_captures() {
    let item = text_history_item(42, "0123456789abcdef".to_string(), "hi".to_string(), "hi".to_string());
    assert_eq!(item.id, "42-0123456789ab");
    assert_eq!(item.kind, ClipboardHistoryItemKind::Text);
    assert_eq!(item.created_at, 42);
    assert_eq!(item.copied_at, 42);
    assert!(!item.favorite);
    assert_eq!(item.text.as_deref(), Some("hi"));
    assert!(item.image.is_none());

    let image = stored_image(640, 480, 1234, "o.png".to_string(), "t.png".to_string(), &[1, 2, 3]);
    assert_eq!(image.byte_size, 1234);
    assert_eq!(image.thumbnail_data_url.as_deref(), Some("data:image/png;base64,AQID"));
    let item = image_history_item(7, "ffff".to_string(), image);
    assert_eq!(item.preview, "640 x 480 image");
    assert_eq!(item.kind, ClipboardHistoryItemKind::Image);
    assert_eq!(item.id, "7-ffff");
    assert!(item.text.is_none());
}

#[test]
fn png_encoding_and_limits() {
    let png = encode_png(1, 1, vec![255, 0, 0, 255]).unwrap();
    assert_eq!(&png[..8], &[0x89, b'P', b'N', b'G', 0x0D, 0x0A, 0x1A, 0x0A]);
    let kept = clipboard_image_png(1, 1, vec![255, 0, 0, 255]).unwrap();
    assert_eq!(kept, png);
    assert!(matches!(clipboard_image_png(2, 2, vec![0; 4]), Err(ClipboardImageError::InvalidData)));
    assert!(matches!(limit_png_size(vec![0; MAX_IMAGE_PNG_BYTES + 1]), Err(ClipboardImageError::TooLarge)));
    assert_eq!(limit_png_size(vec![1, 2]).unwrap(), vec![1, 2]);
    assert_eq!(ClipboardImageError::InvalidData.message(), "Clipboard image data is invalid.");
    assert_eq!(ClipboardImageError::TooLarge.message(), "Clipboard image is larger than the history limit.");
}

#[test]
fn images_without_pixels_fail_to_encode() {
    let error = encode_png(0, 3, Vec::new()).unwrap_err();
    assert!(error.starts_with("Failed to encode clipboard image: "));
    assert!(encode_png(3, 0, Vec::new()).is_err());
    assert!(matches!(clipboard_image_png(0, 5, Vec::new()), Err(ClipboardImageError::EncodeFailed(_))));
    let wide = encode_png(3, 2, vec![7; 24]).unwrap();
    assert_eq!(&wide[..8], &[0x89, b'P', b'N', b'G', 0x0D, 0x0A, 0x1A, 0x0A]);
}

#[test]
fn image_files_and_data_urls() {
    let hash = "0123456789abcdef0123456789abcdef";
    let (original, thumbnail) = image_file_names(hash);
    assert_eq!(original, "0123456789abcdef01234567.png");
    assert_eq!(thumbnail, "0123456789abcdef01234567-thumb.png");
    let (short, short_thumb) = image_file_names("ab");
    assert_eq!(short, "ab.png");
    assert_eq!(short_thumb, "ab-thumb.png");
    assert_eq!(png_data_url("QUJD"), "data:image/png;base64,QUJD");
    assert_eq!(thumbnail_data_url(b"ABC"), "data:image/png;base64,QUJD");
    assert_eq!(thumbnail_data_url(b"AB"), "data:image/png;base64,QUI=");
}

// ---------------------------------------------------------------------------
// The history
// ---------------------------------------------------------------------------

fn text_item(n: i64) -> ClipboardHistoryItem {
    let hash = format!("{n:016x}");
    text_history_item(n, hash, format!("text {n}"), format!("text {n}"))
}

fn settings_with_max(max_items: usize) -> ClipboardHistorySettings {
    ClipboardHistorySettings { max_items, ..ClipboardHistorySettings::default() }
}

fn hashes(state: &ClipboardHistoryState) -> Vec<String> {
    state.items().iter().map(|item| item.hash.clone()).collect()
}

#[test]
fn new_state_normalizes_settings() {
    let state = ClipboardHistoryState::new(settings_with_max(1), Vec::new());
    assert_eq!(state.settings().max_items, 5);
    assert!(state.items().is_empty());
}

#[test]
fn insert_drops_oldest_non_favorites_over_the_limit() {
    let mut state = ClipboardHistoryState::new(settings_with_max(5), Vec::new());
    for n in 1..=5 {
        assert!(state.insert_item(text_item(n)).is_empty());
    }
    let id_of_first = text_item(1).id;
    state.toggle_favorite(&id_of_first).unwrap();
    let removed = state.insert_item(text_item(6));
    assert_eq!(removed.len(), 1);
    assert_eq!(removed[0].hash, format!("{:016x}", 2));
    assert_eq!(state.items().len(), 5);
    assert_eq!(state.items()[0].hash, format!("{:016x}", 6));
    assert!(state.items().iter().any(|item| item.id == id_of_first && item.favorite));
}

#[test]
fn limit_keeps_favorites_even_over_the_limit() {
    let items: Vec<ClipboardHistoryItem> = (1..=7)
        .map(|n| {
            let mut item = text_item(n);
            item.favorite = true;
            item
        })
        .collect();
    let mut state = ClipboardHistoryState::new(settings_with_max(5), items);
    let removed = state.enforce_limit();
    assert_eq!(removed.len(), 2);
    assert_eq!(state.items().len(), 5);
    assert!(state.items().iter().all(|item| item.favorite));
}

#[test]
fn capture_steps() {
    let mut state = ClipboardHistoryState::new(settings_with_max(10), Vec::new());
    assert_eq!(state.begin_capture("h1", 1000), CaptureStep::Insert);
    state.insert_item(text_history_item(1000, "h1".to_string(), "a".to_string(), "a".to_string()));
    assert_eq!(state.begin_capture("h1", 1500), CaptureStep::Unchanged);
    assert_eq!(state.begin_capture("h2", 2000), CaptureStep::Insert);
    state.insert_item(text_history_item(2000, "h2".to_string(), "b".to_string(), "b".to_string()));
    assert_eq!(state.begin_capture("h1", 9000), CaptureStep::Moved);
    assert_eq!(hashes(&state), vec!["h1".to_string(), "h2".to_string()]);
    assert_eq!(state.items()[0].copied_at, 9000);
    assert_eq!(state.begin_capture("h2", 9500), CaptureStep::Moved);
    assert_eq!(state.begin_capture("h1", 9600), CaptureStep::Moved);
    assert_eq!(state.begin_capture("h1", 9700), CaptureStep::Unchanged);
}

#[test]
fn newest_item_copied_again_soon_is_unchanged() {
    let mut state = ClipboardHistoryState::new(settings_with_max(10), vec![text_history_item(
        1000,
        "h1".to_string(),
        "a".to_string(),
        "a".to_string(),
    )]);
    assert_eq!(state.begin_capture("h1", 2500), CaptureStep::Unchanged);
    assert_eq!(state.begin_capture("h2", 2600), CaptureStep::Insert);
    assert_eq!(state.begin_capture("h1", 3000), CaptureStep::Unchanged);
    assert_eq!(state.items()[0].copied_at, 1000);
}

#[test]
fn toggle_favorite_twice_restores_the_item() {
    let mut state = ClipboardHistoryState::new(settings_with_max(10), vec![text_item(1), text_item(2)]);
    let id = text_item(2).id;
    state.toggle_favorite(&id).unwrap();
    assert!(state.items()[1].favorite);
    state.toggle_favorite(&id).unwrap();
    assert!(!state.items()[1].favorite);
    assert_eq!(state.toggle_favorite("missing"), Err(HistoryError::ItemNotFound));
    assert_eq!(HistoryError::ItemNotFound.message(), "Clipboard history item was not found.");
}

#[test]
fn delete_and_clear() {
    let mut state = ClipboardHistoryState::new(settings_with_max(10), vec![text_item(1), text_item(2), text_item(3)]);
    let id = text_item(2).id;
    state.toggle_favorite(&text_item(3).id).unwrap();
    let deleted = state.delete_item(&id).unwrap();
    assert_eq!(deleted.id, id);
    assert!(state.delete_item(&id).is_none());
    let removed = state.clear();
    assert_eq!(removed.len(), 1);
    assert_eq!(state.items().len(), 1);
    assert!(state.items()[0].favorite);
}

#[test]
fn find_and_copy_items() {
    let mut state = ClipboardHistoryState::new(settings_with_max(10), vec![text_item(1), text_item(2)]);
    let item = state.find_item(&text_item(2).id).unwrap();
    match copy_payload(&item).unwrap() {
        CopyPayload::Text(text) => assert_eq!(text, "text 2"),
        CopyPayload::ImageFile(_) => panic!("text expected"),
    }
    assert!(state.mark_copied(&item.hash, 77));
    assert_eq!(state.items()[0].hash, item.hash);
    assert_eq!(state.items()[0].copied_at, 77);
    assert!(!state.mark_copied("unknown", 78));
    assert_eq!(state.find_item("unknown").err(), Some(HistoryError::ItemNotFound));

    let mut broken = text_item(3);
    broken.text = None;
    assert_eq!(copy_payload(&broken).err(), Some(HistoryError::TextMissing));
    let mut image = text_item(4);
    image.kind = ClipboardHistoryItemKind::Image;
    assert_eq!(copy_payload(&image).err(), Some(HistoryError::ImageMissing));
    image.image = Some(ClipboardHistoryImage {
        width: 1,
        height: 1,
        byte_size: 1,
        original_path: "C:/a.png".to_string(),
        thumbnail_path: "C:/a-thumb.png".to_string(),
        thumbnail_data_url: None,
    });
    match copy_payload(&image).unwrap() {
        CopyPayload::ImageFile(path) => assert_eq!(path, "C:/a.png"),
        CopyPayload::Text(_) => panic!("image expected"),
    }
}

#[test]
fn loading_drops_items_without_content() {
    let mut empty_text = text_item(2);
    empty_text.text = Some(String::new());
    let mut image_without_file = text_item(3);
    image_without_file.kind = ClipboardHistoryItemKind::Image;
    let kept = retain_loadable(vec![text_item(1), empty_text, image_without_file, text_item(4)]);
    let ids: Vec<String> = kept.iter().map(|item| item.id.clone()).collect();
    assert_eq!(ids, vec![text_item(1).id, text_item(4).id]);
}

#[test]
fn lowering_the_limit_drops_items() {
    let items: Vec<ClipboardHistoryItem> = (1..=8).map(text_item).collect();
    let mut state = ClipboardHistoryState::new(settings_with_max(10), items);
    let removed = state.set_settings(settings_with_max(6));
    assert_eq!(removed.len(), 2);
    assert_eq!(state.items().len(), 6);
    assert_eq!(state.settings().max_items, 6);
    assert_eq!(state.items()[0].hash, format!("{:016x}", 1));
}

#[test]
fn snapshot_reports_registered_shortcuts() {
    let state = ClipboardHistoryState::new(ClipboardHistorySettings::default(), vec![text_item(1)]);
    let mut registry = HotkeyRegistry::new();
    registry.insert(AGENT_HOTKEY_ID, "Ctrl+Q".to_string());
    let snapshot = state.snapshot(&registry);
    assert!(snapshot.agent_shortcut_registered);
    assert!(!snapshot.clipboard_shortcut_registered);
    assert!(!snapshot.todo_shortcut_registered);
    assert!(!snapshot.music_shortcut_registered);
    assert_eq!(snapshot.items.len(), 1);
    assert_eq!(snapshot.settings.shortcut, "Ctrl+X");
}

#[test]
fn captures_become_history_items() {
    let text = text_capture("note".to_string()).unwrap();
    let hash = text.hash().to_string();
    let item = history_item_for_capture(text, 5, None).unwrap();
    assert_eq!(item.hash, hash);
    assert_eq!(item.text.as_deref(), Some("note"));
    assert_eq!(item.id, format!("5-{}", &hash[..12]));

    let image = image_capture(2, 1, vec![0; 8]);
    let image_hash = image.hash().to_string();
    assert!(history_item_for_capture(image_capture(2, 1, vec![0; 8]), 6, None).is_none());
    let stored = stored_image(2, 1, 10, "a.png".to_string(), "a-thumb.png".to_string(), &[]);
    let item = history_item_for_capture(image, 6, Some(stored)).unwrap();
    assert_eq!(item.hash, image_hash);
    assert_eq!(item.preview, "2 x 1 image");
    assert_eq!(item.image.as_ref().map(|i| i.byte_size), Some(10));
    assert_eq!(item.image.as_ref().and_then(|i| i.thumbnail_data_url.clone()), Some("data:image/png;base64,".to_string()));
}
