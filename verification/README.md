# focusd_island

The logic of FocuSD Island, a Windows "dynamic island" that keeps a clipboard
history, shows the running state of coding agents (Codex and a second provider) and
offers a few global shortcuts, written in Verus and proved against its
contracts.

## Layout

- `src/` — the verified library.
  - `text` — character-sequence helpers and their specifications.
  - `shortcut`, `settings`, `hotkeys` — parsing of shortcut bindings,
    normalized history settings, and the registry of registered hotkeys.
  - `history` — the clipboard history: limit, favorites, copy, capture.
  - `capture` — hashing, previews, item ids, PNG and data-URL encoding of
    captured clipboard content (through `sha2`, `image` and `base64`).
  - `agent` — the agent status model: marker files, running instances,
    display order, clearing, thread names.
  - `hooks` and its JSON sibling — installing and removing the managed hook
    blocks in the Codex `config.toml` and in the other provider's
    `settings.json` (its text parsed and printed through `serde_json`).
  - `island` — small decisions of the island window (modes, todo file
    target, startup registry commands, monitor choice).
- `tests/` — tests of the library on concrete values.
- `app/` — ordinary Rust around the library: files, the system clipboard,
  serde copies of the library's types, and the floating-point window geometry.
