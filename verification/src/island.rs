//! Small decisions of the island application: its display mode, where a
//! todo list is saved, how clipboard writes are retried, and timestamps.
use vstd::prelude::*;
use crate::text::{all_digits, chars_of, extend_chars, extend_str, is_digit, string_from, string_of, trim, trim_chars};

verus! {

/// Whether the island is shown small or open.
#[derive(Clone, Copy, Debug, PartialEq, Eq, Structural)]
pub enum IslandMode {
    Collapsed,
    Expanded,
}

impl IslandMode {
    /// The mode named `value` (`collapsed` or `expanded`), or the error
    /// `Unsupported island mode: <value>`.
    pub fn from_value(value: &str) -> (r: Result<IslandMode, String>)
        ensures
            value@ == "collapsed"@ ==> r == Ok::<IslandMode, String>(IslandMode::Collapsed),
            value@ == "expanded"@ ==> r == Ok::<IslandMode, String>(IslandMode::Expanded),
            value@ != "collapsed"@ && value@ != "expanded"@ ==> (r matches Err(message) && message@
                == "Unsupported island mode: "@ + value@),
    {
        proof {
            reveal_strlit("collapsed");
            reveal_strlit("expanded");
            assert("collapsed"@.len() != "expanded"@.len());
        }
        let v = chars_of(value);
        let collapsed = chars_of("collapsed");
        let expanded = chars_of("expanded");
        if crate::text::chars_eq(&v, &collapsed) {
            Ok(IslandMode::Collapsed)
        } else if crate::text::chars_eq(&v, &expanded) {
            Ok(IslandMode::Expanded)
        } else {
            let mut message: Vec<char> = Vec::new();
            extend_str(&mut message, "Unsupported island mode: ");
            extend_chars(&mut message, &v);
            Err(string_of(&message))
        }
    }
}

// ---------------------------------------------------------------------------
// Saving a todo list
// ---------------------------------------------------------------------------

/// Why a todo list cannot be saved.
#[derive(Clone, Copy, Debug, PartialEq, Eq, Structural)]
pub enum TodoSaveError {
    /// The directory is blank.
    EmptyPath,
    /// The date holds a character other than a digit or `-`.
    InvalidDate,
}

impl TodoSaveError {
    pub open spec fn message_spec(&self) -> Seq<char> {
        match self {
            TodoSaveError::EmptyPath => "Todo save path is empty."@,
            TodoSaveError::InvalidDate => "Todo date contains invalid filename characters."@,
        }
    }

    /// The message shown to the user.
    pub fn message(&self) -> (r: String)
        ensures
            r@ == self.message_spec(),
    {
        match self {
            TodoSaveError::EmptyPath => string_from("Todo save path is empty."),
            TodoSaveError::InvalidDate => string_from("Todo date contains invalid filename characters."),
        }
    }
}

/// Where a todo list of one day is written.
#[derive(Debug)]
pub struct TodoSaveTarget {
    /// The directory, without surrounding whitespace.
    pub directory: String,
    /// The file name: the date and `.md`.
    pub file_name: String,
}

/// A date that can name a file: only digits and `-`.
pub open spec fn is_date_name(date: Seq<char>) -> bool {
    forall|i: int| 0 <= i < date.len() ==> is_digit(#[trigger] date[i]) || date[i] == '-'
}

/// Where the todo list of `date` goes in `directory`: refused when the
/// directory is blank or the date holds another character than a digit or
/// `-` (the directory is checked first).
pub fn todo_markdown_target(directory: &str, date: &str) -> (r: Result<TodoSaveTarget, TodoSaveError>)
    ensures
        trim(directory@).len() == 0 ==> r matches Err(TodoSaveError::EmptyPath),
        trim(directory@).len() != 0 && !is_date_name(date@) ==> r matches Err(TodoSaveError::InvalidDate),
        trim(directory@).len() != 0 && is_date_name(date@) ==> (r matches Ok(target) && target.directory@
            == trim(directory@) && target.file_name@ == date@ + ".md"@),
{
    let dir = chars_of(directory);
    let trimmed = trim_chars(&dir);
    if trimmed.len() == 0 {
        return Err(TodoSaveError::EmptyPath);
    }
    let d = chars_of(date);
    let mut i: usize = 0;
    while i < d.len()
        invariant
            i <= d.len(),
            d@ == date@,
            trimmed@ == trim(directory@),
            trimmed.len() > 0,
            forall|j: int| 0 <= j < i ==> is_digit(#[trigger] d@[j]) || d@[j] == '-',
        decreases d.len() - i,
    {
        let c = d[i];
        if !(('0' <= c && c <= '9') || c == '-') {
            assert(!(is_digit(date@[i as int]) || date@[i as int] == '-'));
            return Err(TodoSaveError::InvalidDate);
        }
        i += 1;
    }
    let mut name = d;
    extend_str(&mut name, ".md");
    Ok(TodoSaveTarget { directory: string_of(&trimmed), file_name: string_of(&name) })
}

// ---------------------------------------------------------------------------
// Retrying clipboard writes
// ---------------------------------------------------------------------------

/// How many times a clipboard write is tried.
pub const CLIPBOARD_WRITE_RETRY_ATTEMPTS: usize = 8;

/// What to do after a clipboard write failed.
#[derive(Debug)]
pub enum RetryStep {
    /// Wait a moment, then try again.
    Retry,
    /// Stop, with this error.
    GiveUp(String),
}

/// The error after the last attempt failed.
pub open spec fn give_up_message(action: Seq<char>, error: Seq<char>) -> Seq<char> {
    "Failed to "@ + action + " after 8 attempts: "@ + error
}

/// After attempt number `attempt` (from 0) of `action` failed with `error`:
/// retry while attempts are left, else give up with the last error.
pub fn clipboard_write_failed(attempt: usize, action: &str, error: &str) -> (r: RetryStep)
    ensures
        attempt + 1 < CLIPBOARD_WRITE_RETRY_ATTEMPTS ==> r is Retry,
        attempt + 1 >= CLIPBOARD_WRITE_RETRY_ATTEMPTS ==> (r matches RetryStep::GiveUp(message) && message@
            == give_up_message(action@, error@)),
{
    if attempt < CLIPBOARD_WRITE_RETRY_ATTEMPTS - 1 {
        return RetryStep::Retry;
    }
    let mut message: Vec<char> = Vec::new();
    extend_str(&mut message, "Failed to ");
    extend_str(&mut message, action);
    extend_str(&mut message, " after 8 attempts: ");
    extend_str(&mut message, error);
    RetryStep::GiveUp(string_of(&message))
}

// ---------------------------------------------------------------------------
// Timestamps
// ---------------------------------------------------------------------------

/// Milliseconds since the Unix epoch as an `i64`, from the time since the
/// epoch in milliseconds (`None` when the time is before it); the count is
/// cut to 64 bits as `as i64` cuts it.
pub fn system_time_to_unix_millis(since_epoch_millis: Option<u128>) -> (r: Option<i64>)
    ensures
        match since_epoch_millis {
            Some(ms) => r == Some(ms as i64),
            None => r is None,
        },
{
    match since_epoch_millis {
        Some(ms) => Some(#[verifier::truncate] (ms as i64)),
        None => None,
    }
}

/// The current time in milliseconds since the Unix epoch, 0 when the clock
/// is before it.
pub fn current_unix_millis(since_epoch_millis: Option<u128>) -> (r: i64)
    ensures
        match since_epoch_millis {
            Some(ms) => r == ms as i64,
            None => r == 0,
        },
{
    match system_time_to_unix_millis(since_epoch_millis) {
        Some(ms) => ms,
        None => 0,
    }
}


// ---------------------------------------------------------------------------
// The user's home directory and starting with Windows
// ---------------------------------------------------------------------------

/// The user's home directory from the environment: `USERPROFILE` without
/// surrounding whitespace when that is not blank, else `HOMEDRIVE` followed
/// by `HOMEPATH` when both are set and not empty.
pub fn windows_home_dir(user_profile: Option<&str>, home_drive: Option<&str>, home_path: Option<&str>) -> (r: Result<String, String>)
    ensures
        (user_profile matches Some(p) && trim(p@).len() != 0) ==> (r matches Ok(dir) && dir@ == trim(
            user_profile->Some_0@,
        )),
        !(user_profile matches Some(p) && trim(p@).len() != 0) ==> if (home_drive matches Some(d) && d@.len()
            != 0) && (home_path matches Some(h) && h@.len() != 0) {
            r matches Ok(dir) && dir@ == home_drive->Some_0@ + home_path->Some_0@
        } else {
            r matches Err(message) && message@ == "Failed to resolve the Windows user profile directory."@
        },
{
    if let Some(profile) = user_profile {
        let p = chars_of(profile);
        let t = trim_chars(&p);
        if t.len() > 0 {
            return Ok(string_of(&t));
        }
    }
    match (home_drive, home_path) {
        (Some(drive), Some(path)) => {
            let d = chars_of(drive);
            let h = chars_of(path);
            if d.len() > 0 && h.len() > 0 {
                let mut dir = d;
                extend_chars(&mut dir, &h);
                return Ok(string_of(&dir));
            }
        },
        _ => {},
    }
    Err(string_from("Failed to resolve the Windows user profile directory."))
}

/// The registry key of the programs started with Windows.
pub const STARTUP_REGISTRY_KEY: &'static str = "HKCU\\Software\\Microsoft\\Windows\\CurrentVersion\\Run";

/// The value under which the island starts with Windows.
pub const STARTUP_REGISTRY_VALUE: &'static str = "FocuSD Island";

pub open spec fn string_seq_views(v: Seq<String>) -> Seq<Seq<char>> {
    v.map_values(|s: String| s@)
}

/// The arguments of `reg` that ask whether the island starts with Windows.
pub fn startup_registry_query_args() -> (r: Vec<String>)
    ensures
        string_seq_views(r@) == seq!["query"@, STARTUP_REGISTRY_KEY@, "/v"@, STARTUP_REGISTRY_VALUE@],
{
    let mut args: Vec<String> = Vec::new();
    args.push(string_from("query"));
    args.push(string_from(STARTUP_REGISTRY_KEY));
    args.push(string_from("/v"));
    args.push(string_from(STARTUP_REGISTRY_VALUE));
    assert(string_seq_views(args@) =~= seq!["query"@, STARTUP_REGISTRY_KEY@, "/v"@, STARTUP_REGISTRY_VALUE@]);
    args
}

/// The arguments of `reg` that make the island start with Windows, running
/// `current_exe` (quoted), or stop doing so.
pub fn startup_registry_update_args(enabled: bool, current_exe: &str) -> (r: Vec<String>)
    ensures
        enabled ==> string_seq_views(r@) == seq![
            "add"@,
            STARTUP_REGISTRY_KEY@,
            "/v"@,
            STARTUP_REGISTRY_VALUE@,
            "/t"@,
            "REG_SZ"@,
            "/d"@,
            "\""@ + current_exe@ + "\""@,
            "/f"@,
        ],
        !enabled ==> string_seq_views(r@) == seq!["delete"@, STARTUP_REGISTRY_KEY@, "/v"@, STARTUP_REGISTRY_VALUE@, "/f"@],
{
    let mut args: Vec<String> = Vec::new();
    if enabled {
        args.push(string_from("add"));
        args.push(string_from(STARTUP_REGISTRY_KEY));
        args.push(string_from("/v"));
        args.push(string_from(STARTUP_REGISTRY_VALUE));
        args.push(string_from("/t"));
        args.push(string_from("REG_SZ"));
        args.push(string_from("/d"));
        let mut quoted: Vec<char> = Vec::new();
        extend_str(&mut quoted, "\"");
        extend_str(&mut quoted, current_exe);
        extend_str(&mut quoted, "\"");
        args.push(string_of(&quoted));
        args.push(string_from("/f"));
        assert(string_seq_views(args@) =~= seq![
            "add"@,
            STARTUP_REGISTRY_KEY@,
            "/v"@,
            STARTUP_REGISTRY_VALUE@,
            "/t"@,
            "REG_SZ"@,
            "/d"@,
            "\""@ + current_exe@ + "\""@,
            "/f"@,
        ]);
    } else {
        args.push(string_from("delete"));
        args.push(string_from(STARTUP_REGISTRY_KEY));
        args.push(string_from("/v"));
        args.push(string_from(STARTUP_REGISTRY_VALUE));
        args.push(string_from("/f"));
        assert(string_seq_views(args@) =~= seq!["delete"@, STARTUP_REGISTRY_KEY@, "/v"@, STARTUP_REGISTRY_VALUE@, "/f"@]);
    }
    args
}

/// The outcome of the `reg` command that changed the start-up setting.
pub fn startup_registry_update_result(success: bool) -> (r: Result<(), String>)
    ensures
        success ==> r is Ok,
        !success ==> (r matches Err(message) && message@ == "Startup registry command failed."@),
{
    if success {
        Ok(())
    } else {
        Err(string_from("Startup registry command failed."))
    }
}


// ---------------------------------------------------------------------------
// Monitors
// ---------------------------------------------------------------------------

/// A monitor's area in physical pixels.
#[derive(Clone, Copy, Debug)]
pub struct MonitorArea {
    pub x: i32,
    pub y: i32,
    pub width: u32,
    pub height: u32,
}

/// The point lies on the monitor: from its left and top edges inclusive to
/// its right and bottom edges exclusive.
pub open spec fn monitor_contains(m: MonitorArea, x: i32, y: i32) -> bool {
    m.x <= x < m.x + m.width && m.y <= y < m.y + m.height
}

/// The first monitor the point lies on. Each monitor's right and bottom
/// edges must fit in an `i32`.
pub fn monitor_for_point(monitors: &Vec<MonitorArea>, x: i32, y: i32) -> (r: Option<usize>)
    requires
        forall|i: int| 0 <= i < monitors@.len() ==> (#[trigger] monitors@[i]).x + monitors@[i].width <= i32::MAX
            && monitors@[i].y + monitors@[i].height <= i32::MAX,
    ensures
        match r {
            Some(i) => i < monitors@.len() && monitor_contains(monitors@[i as int], x, y) && forall|j: int|
                0 <= j < i ==> !monitor_contains(#[trigger] monitors@[j], x, y),
            None => forall|j: int| 0 <= j < monitors@.len() ==> !monitor_contains(#[trigger] monitors@[j], x, y),
        },
{
    let mut i: usize = 0;
    while i < monitors.len()
        invariant
            i <= monitors@.len(),
            forall|k: int| 0 <= k < monitors@.len() ==> (#[trigger] monitors@[k]).x + monitors@[k].width <= i32::MAX
                && monitors@[k].y + monitors@[k].height <= i32::MAX,
            forall|j: int| 0 <= j < i ==> !monitor_contains(#[trigger] monitors@[j], x, y),
        decreases monitors.len() - i,
    {
        let m = monitors[i];
        assert(m.x + m.width <= i32::MAX && m.y + m.height <= i32::MAX) by {
            assert(monitors@[i as int] == m);
        }
        let right: i64 = m.x as i64 + m.width as i64;
        let bottom: i64 = m.y as i64 + m.height as i64;
        if m.x <= x && (x as i64) < right && m.y <= y && (y as i64) < bottom {
            return Some(i);
        }
        i += 1;
    }
    None
}

} // verus!
