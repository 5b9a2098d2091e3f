//! The claudeCode agent's `settings.json`: the FocuSD hook entries, removing the
//! FocuSD hooks an earlier install left, and installing the current ones.
//! The document is held as a `JsonValue`; its text is parsed and printed
//! with `serde_json`, and reading and writing the file happen outside the
//! library.
use vstd::prelude::*;
use crate::text::{chars_eq, chars_of, contains, contains_chars, decimal_int, extend_chars, push_decimal_i64, string_from, string_of, trim, trim_chars};
use crate::hooks::{agent_hook_command_argument, hook_command_argument, lemma_contains_concat, FOCUSD_AGENT_HOOK_SIGNATURE};

verus! {

broadcast use vstd::seq_lib::group_seq_properties;

/// A JSON document: objects list their members in order.
pub enum Json {
    Null,
    Bool(bool),
    Number(Seq<char>),
    Text(Seq<char>),
    Array(Seq<Json>),
    Object(Seq<(Seq<char>, Json)>),
}

/// A JSON value of the settings file. A number keeps its decimal text; an
/// object keeps its members in order, each key at most once.
#[derive(Debug)]
pub enum JsonValue {
    Null,
    Bool(bool),
    Number(String),
    Text(String),
    Array(Vec<JsonValue>),
    Object(Vec<(String, JsonValue)>),
}

impl View for JsonValue {
    type V = Json;

    open spec fn view(&self) -> Json
        decreases self,
    {
        match self {
            JsonValue::Null => Json::Null,
            JsonValue::Bool(b) => Json::Bool(*b),
            JsonValue::Number(n) => Json::Number(n@),
            JsonValue::Text(t) => Json::Text(t@),
            JsonValue::Array(items) => Json::Array(
                Seq::new(
                    items.len() as nat,
                    |i: int|
                        if 0 <= i < items.len() {
                            items@[i].view()
                        } else {
                            Json::Null
                        },
                ),
            ),
            JsonValue::Object(members) => {
                let values = Seq::new(
                    members.len() as nat,
                    |i: int|
                        if 0 <= i < members.len() {
                            members@[i].1.view()
                        } else {
                            Json::Null
                        },
                );
                Json::Object(Seq::new(members.len() as nat, |i: int| (members@[i].0@, values[i])))
            },
        }
    }
}

pub open spec fn json_views(s: Seq<JsonValue>) -> Seq<Json> {
    s.map_values(|v: JsonValue| v@)
}

pub open spec fn member_views(s: Seq<(String, JsonValue)>) -> Seq<(Seq<char>, Json)> {
    s.map_values(|m: (String, JsonValue)| (m.0@, m.1@))
}

pub open spec fn opt_json(o: Option<JsonValue>) -> Option<Json> {
    match o {
        Some(v) => Some(v@),
        None => None,
    }
}

proof fn lemma_array_view(items: Vec<JsonValue>)
    ensures
        JsonValue::Array(items)@ == Json::Array(json_views(items@)),
{
    assert(JsonValue::Array(items)@->Array_0 =~= json_views(items@));
}

proof fn lemma_object_view(members: Vec<(String, JsonValue)>)
    ensures
        JsonValue::Object(members)@ == Json::Object(member_views(members@)),
{
    let v = JsonValue::Object(members)@->Object_0;
    assert forall|i: int| 0 <= i < members.len() implies #[trigger] v[i] == member_views(members@)[i] by {
        assert(v[i] == (members@[i].0@, members@[i].1@));
    }
    assert(v =~= member_views(members@));
}

// ---------------------------------------------------------------------------
// Members of an object
// ---------------------------------------------------------------------------

/// The position of the first member named `key`, or -1.
pub open spec fn key_index(members: Seq<(Seq<char>, Json)>, key: Seq<char>) -> int
    decreases members.len(),
{
    if members.len() == 0 {
        -1
    } else if members[0].0 == key {
        0
    } else {
        let r = key_index(members.drop_first(), key);
        if r < 0 {
            -1
        } else {
            r + 1
        }
    }
}

proof fn lemma_key_index(members: Seq<(Seq<char>, Json)>, key: Seq<char>)
    ensures
        -1 <= key_index(members, key) < members.len(),
        key_index(members, key) >= 0 ==> members[key_index(members, key)].0 == key,
        forall|j: int| 0 <= j < members.len() && (key_index(members, key) < 0 || j < key_index(members, key))
            ==> #[trigger] members[j].0 != key,
    decreases members.len(),
{
    if members.len() > 0 && members[0].0 != key {
        let rest = members.drop_first();
        lemma_key_index(rest, key);
        assert forall|j: int| 0 <= j < members.len() && (key_index(members, key) < 0 || j < key_index(members, key))
            implies #[trigger] members[j].0 != key by {
            if j > 0 {
                assert(members[j] == rest[j - 1]);
            }
        }
    }
}

/// The first member named `key` is the one at `k`.
pub proof fn lemma_key_index_at(members: Seq<(Seq<char>, Json)>, key: Seq<char>, k: int)
    requires
        0 <= k < members.len(),
        members[k].0 == key,
        forall|j: int| 0 <= j < k ==> #[trigger] members[j].0 != key,
    ensures
        key_index(members, key) == k,
{
    lemma_key_index(members, key);
    let f = key_index(members, key);
    if f < 0 || f > k {
        assert(members[k].0 != key);
    }
}

/// The value of the member named `key`, if there is one.
pub open spec fn member_value(members: Seq<(Seq<char>, Json)>, key: Seq<char>) -> Option<Json> {
    let k = key_index(members, key);
    if k >= 0 {
        Some(members[k].1)
    } else {
        None
    }
}

/// `members` without its member named `key` (`serde_json::Map::remove`).
pub open spec fn without_member(members: Seq<(Seq<char>, Json)>, key: Seq<char>) -> Seq<(Seq<char>, Json)> {
    let k = key_index(members, key);
    if k >= 0 {
        members.remove(k)
    } else {
        members
    }
}

/// `members` with `key` set to `value` (`serde_json::Map::insert`): in place
/// when the key is there, else added at the end.
pub open spec fn with_member(members: Seq<(Seq<char>, Json)>, key: Seq<char>, value: Json) -> Seq<(Seq<char>, Json)> {
    let k = key_index(members, key);
    if k >= 0 {
        members.update(k, (key, value))
    } else {
        members.push((key, value))
    }
}

/// The position of the member named `key`.
fn find_member(members: &Vec<(String, JsonValue)>, key: &str) -> (r: Option<usize>)
    ensures
        match r {
            Some(k) => key_index(member_views(members@), key@) == k && k < members.len(),
            None => key_index(member_views(members@), key@) == -1,
        },
{
    let ghost mv = member_views(members@);
    proof {
        lemma_key_index(mv, key@);
    }
    let wanted = chars_of(key);
    let mut i: usize = 0;
    while i < members.len()
        invariant
            i <= members.len(),
            mv == member_views(members@),
            wanted@ == key@,
            forall|j: int| 0 <= j < i ==> #[trigger] mv[j].0 != key@,
        decreases members.len() - i,
    {
        let name = chars_of(members[i].0.as_str());
        assert(mv[i as int].0 == members@[i as int].0@);
        if chars_eq(&name, &wanted) {
            proof {
                lemma_key_index_at(mv, key@, i as int);
            }
            return Some(i);
        }
        i += 1;
    }
    proof {
        lemma_key_index(mv, key@);
        let f = key_index(mv, key@);
        if f >= 0 {
            assert(mv[f].0 == key@);
        }
    }
    None
}

impl JsonValue {
    /// The value of the member named `key` of an object.
    pub fn get(&self, key: &str) -> (r: Option<&JsonValue>)
        ensures
            match self@ {
                Json::Object(members) => opt_json(
                    match r {
                        Some(v) => Some(*v),
                        None => None,
                    },
                ) == member_value(members, key@),
                _ => r is None,
            },
    {
        match self {
            JsonValue::Object(members) => {
                proof {
                    lemma_object_view(*members);
                }
                match find_member(members, key) {
                    Some(k) => Some(&members[k].1),
                    None => None,
                }
            },
            _ => None,
        }
    }

    /// The item at `index` of an array.
    pub fn at(&self, index: usize) -> (r: Option<&JsonValue>)
        ensures
            match self@ {
                Json::Array(items) => if index < items.len() {
                    r matches Some(v) && v@ == items[index as int]
                } else {
                    r is None
                },
                _ => r is None,
            },
    {
        match self {
            JsonValue::Array(items) => {
                proof {
                    lemma_array_view(*items);
                }
                if index < items.len() {
                    Some(&items[index])
                } else {
                    None
                }
            },
            _ => None,
        }
    }

    /// The text of a string.
    pub fn as_str(&self) -> (r: Option<&str>)
        ensures
            match self@ {
                Json::Text(t) => r matches Some(s) && s@ == t,
                _ => r is None,
            },
    {
        match self {
            JsonValue::Text(t) => Some(t.as_str()),
            _ => None,
        }
    }

    /// The items of an array.
    pub fn as_array(&self) -> (r: Option<&Vec<JsonValue>>)
        ensures
            match self@ {
                Json::Array(items) => r matches Some(v) && json_views(v@) == items,
                _ => r is None,
            },
    {
        match self {
            JsonValue::Array(items) => {
                proof {
                    lemma_array_view(*items);
                }
                Some(items)
            },
            _ => None,
        }
    }
}

// ---------------------------------------------------------------------------
// The FocuSD hook entries
// ---------------------------------------------------------------------------

/// A hook entry: one hook of type `command` running `command` with `args`.
pub open spec fn hook_entry_json(command: Seq<char>, args: Seq<Seq<char>>, timeout: int) -> Json {
    Json::Object(
        seq![
            (
                "hooks"@,
                Json::Array(
                    seq![
                        Json::Object(
                            seq![
                                ("type"@, Json::Text("command"@)),
                                ("command"@, Json::Text(command)),
                                ("args"@, Json::Array(args.map_values(|a: Seq<char>| Json::Text(a)))),
                                ("timeout"@, Json::Number(decimal_int(timeout))),
                            ],
                        ),
                    ],
                ),
            ),
        ],
    )
}

/// The arguments `cmd.exe` gets for a claudeCode hook reporting `phase`.
pub open spec fn status_hook_args(script: Seq<char>, phase: Seq<char>) -> Seq<Seq<char>> {
    seq!["/d"@, "/s"@, "/c"@, hook_command_argument(script, "claudeCode"@, phase)]
}

/// The claudeCode hook entry reporting `phase` through the hook script.
pub open spec fn status_hook_json(script: Seq<char>, phase: Seq<char>) -> Json {
    hook_entry_json("cmd.exe"@, status_hook_args(script, phase), 5)
}

/// An entry that also matches every tool: an object gets `"matcher": "*"`.
pub open spec fn match_all_json(entry: Json) -> Json {
    match entry {
        Json::Object(members) => Json::Object(with_member(members, "matcher"@, Json::Text("*"@))),
        _ => entry,
    }
}

fn text_value(s: &str) -> (r: JsonValue)
    ensures
        r@ == Json::Text(s@),
{
    JsonValue::Text(string_from(s))
}

/// A hook entry running `command` with `args`, with a `timeout` in seconds.
pub fn claude_code_hook_entry(command: &str, args: Vec<String>, timeout: i64) -> (r: JsonValue)
    ensures
        r@ == hook_entry_json(command@, args@.map_values(|a: String| a@), timeout as int),
{
    let ghost arg_views = args@.map_values(|a: String| a@);
    let mut arg_values: Vec<JsonValue> = Vec::new();
    let mut rest = args;
    let ghost all = rest@;
    while rest.len() > 0
        invariant
            arg_views == all.map_values(|a: String| a@),
            all.len() == arg_values.len() + rest.len(),
            rest@ == all.subrange(arg_values.len() as int, all.len() as int),
            json_views(arg_values@) == arg_views.take(arg_values.len() as int).map_values(|a: Seq<char>| Json::Text(a)),
        decreases rest.len(),
    {
        let ghost done = arg_values.len();
        let a = rest.remove(0);
        let ghost before = json_views(arg_values@);
        arg_values.push(JsonValue::Text(a));
        assert(json_views(arg_values@) =~= before.push(Json::Text(all[done as int]@)));
        assert(arg_views.take(done + 1) =~= arg_views.take(done as int).push(all[done as int]@));
        assert(arg_views.take(done + 1).map_values(|a: Seq<char>| Json::Text(a)) =~= arg_views.take(done as int).map_values(|a: Seq<char>| Json::Text(a)).push(Json::Text(all[done as int]@)));
        assert(rest@ =~= all.subrange(arg_values.len() as int, all.len() as int));
    }
    assert(arg_views.take(arg_views.len() as int) =~= arg_views);
    let mut timeout_text: Vec<char> = Vec::new();
    push_decimal_i64(&mut timeout_text, timeout);
    let mut hook: Vec<(String, JsonValue)> = Vec::new();
    hook.push((string_from("type"), text_value("command")));
    hook.push((string_from("command"), text_value(command)));
    hook.push((string_from("args"), JsonValue::Array(arg_values)));
    hook.push((string_from("timeout"), JsonValue::Number(string_of(&timeout_text))));
    proof {
        lemma_array_view(arg_values);
        lemma_object_view(hook);
    }
    let mut hooks: Vec<JsonValue> = Vec::new();
    hooks.push(JsonValue::Object(hook));
    proof {
        lemma_array_view(hooks);
    }
    let mut entry: Vec<(String, JsonValue)> = Vec::new();
    entry.push((string_from("hooks"), JsonValue::Array(hooks)));
    proof {
        lemma_object_view(entry);
        let inner = Json::Object(
            seq![
                ("type"@, Json::Text("command"@)),
                ("command"@, Json::Text(command@)),
                ("args"@, Json::Array(arg_views.map_values(|a: Seq<char>| Json::Text(a)))),
                ("timeout"@, Json::Number(decimal_int(timeout as int))),
            ],
        );
        assert(member_views(hook@) =~= inner->Object_0);
        assert(json_views(hooks@) =~= seq![inner]);
        assert(member_views(entry@) =~= seq![("hooks"@, Json::Array(seq![inner]))]);
    }
    JsonValue::Object(entry)
}

/// The claudeCode hook entry reporting `phase`: `cmd.exe /d /s /c` running
/// the hook script for provider `claudeCode`, with a five second timeout.
pub fn claude_code_status_hook_entry(script_path: &str, phase: &str) -> (r: JsonValue)
    ensures
        r@ == status_hook_json(script_path@, phase@),
{
    let mut args: Vec<String> = Vec::new();
    args.push(string_from("/d"));
    args.push(string_from("/s"));
    args.push(string_from("/c"));
    args.push(agent_hook_command_argument(script_path, "claudeCode", phase));
    assert(args@.map_values(|a: String| a@) =~= status_hook_args(script_path@, phase@));
    claude_code_hook_entry("cmd.exe", args, 5)
}

/// The claudeCode hook entry reporting `running`.
pub fn claude_code_running_hook_entry(script_path: &str) -> (r: JsonValue)
    ensures
        r@ == status_hook_json(script_path@, "running"@),
{
    claude_code_status_hook_entry(script_path, "running")
}

/// `entry` with `"matcher": "*"` when it is an object.
pub fn claude_code_match_all_hook_entry(entry: JsonValue) -> (r: JsonValue)
    ensures
        r@ == match_all_json(entry@),
{
    match entry {
        JsonValue::Object(mut members) => {
            let ghost old_members = member_views(members@);
            proof {
                lemma_object_view(members);
            }
            match find_member(&members, "matcher") {
                Some(k) => {
                    members.set(k, (string_from("matcher"), text_value("*")));
                    assert(member_views(members@) =~= old_members.update(k as int, ("matcher"@, Json::Text("*"@))));
                },
                None => {
                    members.push((string_from("matcher"), text_value("*")));
                    assert(member_views(members@) =~= old_members.push(("matcher"@, Json::Text("*"@))));
                },
            }
            proof {
                lemma_object_view(members);
            }
            JsonValue::Object(members)
        },
        other => other,
    }
}

// ---------------------------------------------------------------------------
// Removing FocuSD hooks
// ---------------------------------------------------------------------------

/// Some string inside `v` holds FocuSD's hook signature.
pub open spec fn has_signature(v: Json) -> bool
    decreases v,
{
    match v {
        Json::Text(t) => contains(t, FOCUSD_AGENT_HOOK_SIGNATURE@),
        Json::Array(items) => items_have_signature(items),
        Json::Object(members) => members_have_signature(members),
        _ => false,
    }
}

/// Some item of `items` holds FocuSD's hook signature.
pub open spec fn items_have_signature(items: Seq<Json>) -> bool
    decreases items,
{
    if items.len() == 0 {
        false
    } else {
        has_signature(items[0]) || items_have_signature(items.drop_first())
    }
}

/// Some member value of `members` holds FocuSD's hook signature.
pub open spec fn members_have_signature(members: Seq<(Seq<char>, Json)>) -> bool
    decreases members,
{
    if members.len() == 0 {
        false
    } else {
        proof {
            assert(decreases_to!(members => members[0]));
        }
        has_signature(members[0].1) || members_have_signature(members.drop_first())
    }
}

proof fn lemma_items_have_signature(items: Seq<Json>)
    ensures
        items_have_signature(items) <==> exists|i: int| 0 <= i < items.len() && has_signature(#[trigger] items[i]),
    decreases items.len(),
{
    if items.len() > 0 {
        let rest = items.drop_first();
        lemma_items_have_signature(rest);
        if items_have_signature(items) && !has_signature(items[0]) {
            let i = choose|i: int| 0 <= i < rest.len() && has_signature(#[trigger] rest[i]);
            assert(items[i + 1] == rest[i]);
        }
        if exists|i: int| 0 <= i < items.len() && has_signature(#[trigger] items[i]) {
            let i = choose|i: int| 0 <= i < items.len() && has_signature(#[trigger] items[i]);
            if i > 0 {
                assert(rest[i - 1] == items[i]);
            }
        }
    }
}

proof fn lemma_members_have_signature(members: Seq<(Seq<char>, Json)>)
    ensures
        members_have_signature(members) <==> exists|i: int| 0 <= i < members.len() && has_signature(#[trigger] members[i].1),
    decreases members.len(),
{
    if members.len() > 0 {
        let rest = members.drop_first();
        lemma_members_have_signature(rest);
        if members_have_signature(members) && !has_signature(members[0].1) {
            let i = choose|i: int| 0 <= i < rest.len() && has_signature(#[trigger] rest[i].1);
            assert(members[i + 1] == rest[i]);
        }
        if exists|i: int| 0 <= i < members.len() && has_signature(#[trigger] members[i].1) {
            let i = choose|i: int| 0 <= i < members.len() && has_signature(#[trigger] members[i].1);
            if i > 0 {
                assert(rest[i - 1] == members[i]);
            }
        }
    }
}

/// Whether some string inside `value` holds FocuSD's hook signature.
pub fn value_contains_focusd_hook_signature(value: &JsonValue) -> (r: bool)
    ensures
        r == has_signature(value@),
    decreases value,
{
    match value {
        JsonValue::Text(t) => {
            let c = chars_of(t.as_str());
            let sig = chars_of(FOCUSD_AGENT_HOOK_SIGNATURE);
            contains_chars(&c, &sig)
        },
        JsonValue::Array(items) => {
            proof {
                lemma_array_view(*items);
            }
            let ghost iv = json_views(items@);
            let mut i: usize = 0;
            while i < items.len()
                invariant
                    i <= items.len(),
                    *value == JsonValue::Array(*items),
                    iv == json_views(items@),
                    value@ == Json::Array(iv),
                    forall|j: int| 0 <= j < i ==> !has_signature(#[trigger] iv[j]),
                decreases items.len() - i,
            {
                proof {
                    assert(decreases_to!(*value => value->Array_0));
                    assert(decreases_to!(*value => value->Array_0[i as int]));
                }
                if value_contains_focusd_hook_signature(&items[i]) {
                    assert(has_signature(iv[i as int]));
                    proof {
                        lemma_items_have_signature(iv);
                    }
                    return true;
                }
                i += 1;
            }
            proof {
                lemma_items_have_signature(iv);
            }
            false
        },
        JsonValue::Object(members) => {
            proof {
                lemma_object_view(*members);
            }
            let ghost mv = member_views(members@);
            let mut i: usize = 0;
            while i < members.len()
                invariant
                    i <= members.len(),
                    *value == JsonValue::Object(*members),
                    mv == member_views(members@),
                    value@ == Json::Object(mv),
                    forall|j: int| 0 <= j < i ==> !has_signature(#[trigger] mv[j].1),
                decreases members.len() - i,
            {
                proof {
                    assert(decreases_to!(*value => value->Object_0));
                    assert(decreases_to!(*value => value->Object_0[i as int]));
                    assert(decreases_to!(*value => value->Object_0[i as int].1));
                }
                if value_contains_focusd_hook_signature(&members[i].1) {
                    assert(has_signature(mv[i as int].1));
                    proof {
                        lemma_members_have_signature(mv);
                    }
                    return true;
                }
                i += 1;
            }
            proof {
                lemma_members_have_signature(mv);
            }
            false
        },
        _ => false,
    }
}

/// The hooks of a list that hold no FocuSD signature, in order.
pub open spec fn unmanaged_hooks(hooks: Seq<Json>) -> Seq<Json>
    decreases hooks.len(),
{
    if hooks.len() == 0 {
        Seq::empty()
    } else if has_signature(hooks[0]) {
        unmanaged_hooks(hooks.drop_first())
    } else {
        seq![hooks[0]] + unmanaged_hooks(hooks.drop_first())
    }
}

/// A hook entry without its FocuSD hooks: an object whose `hooks` member is
/// an array loses the hooks that hold FocuSD's signature, and the whole
/// entry goes (`None`) when none is left; any other entry stays as it is.
pub open spec fn without_managed_hooks(entry: Json) -> Option<Json> {
    match entry {
        Json::Object(members) => {
            let k = key_index(members, "hooks"@);
            if k < 0 {
                Some(entry)
            } else {
                match members[k].1 {
                    Json::Array(hooks) => {
                        let kept = unmanaged_hooks(hooks);
                        if kept.len() == 0 {
                            None
                        } else {
                            Some(Json::Object(members.update(k, ("hooks"@, Json::Array(kept)))))
                        }
                    },
                    _ => Some(entry),
                }
            }
        },
        _ => Some(entry),
    }
}

/// The hooks of `hooks` that hold no FocuSD signature.
fn keep_unmanaged_hooks(hooks: Vec<JsonValue>) -> (r: Vec<JsonValue>)
    ensures
        json_views(r@) == unmanaged_hooks(json_views(hooks@)),
{
    let ghost all = json_views(hooks@);
    let mut kept: Vec<JsonValue> = Vec::new();
    let mut rest = hooks;
    while rest.len() > 0
        invariant
            json_views(kept@) + unmanaged_hooks(json_views(rest@)) == unmanaged_hooks(all),
        decreases rest.len(),
    {
        let ghost rv = json_views(rest@);
        let ghost kv = json_views(kept@);
        let hook = rest.remove(0);
        assert(json_views(rest@) =~= rv.drop_first());
        if !value_contains_focusd_hook_signature(&hook) {
            kept.push(hook);
            assert(json_views(kept@) =~= kv.push(rv[0]));
            assert(json_views(kept@) + unmanaged_hooks(json_views(rest@)) =~= kv + unmanaged_hooks(rv));
        }
    }
    assert(json_views(rest@) =~= Seq::<Json>::empty());
    assert(json_views(kept@) + Seq::<Json>::empty() =~= json_views(kept@));
    kept
}

/// A hook entry without its FocuSD hooks (see `without_managed_hooks`).
pub fn remove_managed_claude_code_hooks(entry: JsonValue) -> (r: Option<JsonValue>)
    ensures
        opt_json(r) == without_managed_hooks(entry@),
{
    match entry {
        JsonValue::Object(mut members) => {
            let ghost mv = member_views(members@);
            proof {
                lemma_object_view(members);
                lemma_key_index(mv, "hooks"@);
            }
            match find_member(&members, "hooks") {
                None => {
                    proof {
                        lemma_object_view(members);
                    }
                    Some(JsonValue::Object(members))
                },
                Some(k) => {
                    let (key, value) = members.remove(k);
                    assert(key@ == "hooks"@);
                    match value {
                        JsonValue::Array(hooks) => {
                            proof {
                                lemma_array_view(hooks);
                            }
                            let kept = keep_unmanaged_hooks(hooks);
                            if kept.len() == 0 {
                                None
                            } else {
                                let ghost kv = json_views(kept@);
                                members.insert(k, (key, JsonValue::Array(kept)));
                                proof {
                                    lemma_array_view(kept);
                                    assert(member_views(members@) =~= mv.update(k as int, ("hooks"@, Json::Array(kv))));
                                    lemma_object_view(members);
                                }
                                Some(JsonValue::Object(members))
                            }
                        },
                        other => {
                            members.insert(k, (key, other));
                            proof {
                                assert(member_views(members@) =~= mv);
                                lemma_object_view(members);
                            }
                            Some(JsonValue::Object(members))
                        },
                    }
                },
            }
        },
        other => Some(other),
    }
}

// ---------------------------------------------------------------------------
// Installing the FocuSD hooks
// ---------------------------------------------------------------------------

/// The entries of a hook event list after their FocuSD hooks are removed.
pub open spec fn unmanaged_entries(entries: Seq<Json>) -> Seq<Json>
    decreases entries.len(),
{
    if entries.len() == 0 {
        Seq::empty()
    } else {
        let rest = unmanaged_entries(entries.drop_first());
        match without_managed_hooks(entries[0]) {
            Some(e) => seq![e] + rest,
            None => rest,
        }
    }
}

/// The entries of the hook event `event`: its array, or none.
pub open spec fn event_entries(hooks: Seq<(Seq<char>, Json)>, event: Seq<char>) -> Seq<Json> {
    match member_value(hooks, event) {
        Some(Json::Array(entries)) => entries,
        _ => Seq::empty(),
    }
}

/// The hooks object after installing `entry` for `event`: the event is taken
/// out, its entries lose their FocuSD hooks, `entry` is appended, and the
/// event is put back at the end.
pub open spec fn install_event(hooks: Seq<(Seq<char>, Json)>, event: Seq<char>, entry: Json) -> Seq<(Seq<char>, Json)> {
    without_member(hooks, event).push(
        (event, Json::Array(unmanaged_entries(event_entries(hooks, event)).push(entry))),
    )
}

/// Installs `entry` for the hook event `event_name` (see `install_event`).
pub fn install_claude_code_hook_event(hooks: &mut Vec<(String, JsonValue)>, event_name: &str, entry: JsonValue)
    ensures
        member_views(final(hooks)@) == install_event(member_views(old(hooks)@), event_name@, entry@),
{
    let ghost hv = member_views(hooks@);
    proof {
        lemma_key_index(hv, event_name@);
    }
    let existing: Vec<JsonValue> = match find_member(hooks, event_name) {
        Some(k) => {
            let (_, value) = hooks.remove(k);
            assert(member_views(hooks@) =~= without_member(hv, event_name@));
            match value {
                JsonValue::Array(items) => {
                    proof {
                        lemma_array_view(items);
                    }
                    items
                },
                _ => Vec::new(),
            }
        },
        None => Vec::new(),
    };
    let ghost ev = json_views(existing@);
    assert(ev =~= event_entries(hv, event_name@));
    assert(member_views(hooks@) =~= without_member(hv, event_name@));
    let mut entries: Vec<JsonValue> = Vec::new();
    let mut rest = existing;
    while rest.len() > 0
        invariant
            json_views(entries@) + unmanaged_entries(json_views(rest@)) == unmanaged_entries(ev),
        decreases rest.len(),
    {
        let ghost rv = json_views(rest@);
        let ghost done = json_views(entries@);
        let e = rest.remove(0);
        assert(json_views(rest@) =~= rv.drop_first());
        match remove_managed_claude_code_hooks(e) {
            Some(kept) => {
                entries.push(kept);
                assert(json_views(entries@) =~= done.push(without_managed_hooks(rv[0])->Some_0));
                assert(json_views(entries@) + unmanaged_entries(json_views(rest@)) =~= done + unmanaged_entries(rv));
            },
            None => {},
        }
    }
    assert(json_views(rest@) =~= Seq::<Json>::empty());
    let ghost kept_views = json_views(entries@);
    assert(kept_views + Seq::<Json>::empty() =~= kept_views);
    let ghost entry_view = entry@;
    entries.push(entry);
    let ghost without = member_views(hooks@);
    assert(json_views(entries@) =~= kept_views.push(entry_view));
    proof {
        lemma_array_view(entries);
    }
    hooks.push((string_from(event_name), JsonValue::Array(entries)));
    assert(member_views(hooks@) =~= without.push((event_name@, Json::Array(kept_views.push(entry_view)))));
}

/// Why the claudeCode agent's settings could not take the hooks.
#[derive(Debug)]
pub enum ClaudeSettingsError {
    /// The settings text is not JSON; the parser's message.
    ParseFailed(String),
    /// The settings document is not a JSON object.
    NotAnObject,
}

impl ClaudeSettingsError {
    pub open spec fn message_spec(&self) -> Seq<char> {
        match self {
            ClaudeSettingsError::ParseFailed(e) => "Failed to parse claudeCode settings.json: "@ + e@,
            ClaudeSettingsError::NotAnObject => "claudeCode settings.json must contain a JSON object."@,
        }
    }

    /// The message shown to the user.
    pub fn message(&self) -> (r: String)
        ensures
            r@ == self.message_spec(),
    {
        match self {
            ClaudeSettingsError::ParseFailed(e) => {
                let mut m = chars_of("Failed to parse claudeCode settings.json: ");
                let d = chars_of(e.as_str());
                extend_chars(&mut m, &d);
                string_of(&m)
            },
            ClaudeSettingsError::NotAnObject => string_from("claudeCode settings.json must contain a JSON object."),
        }
    }
}

/// The members of the `hooks` object of `root`: none when it is missing or
/// not an object.
pub open spec fn hooks_members(root: Seq<(Seq<char>, Json)>) -> Seq<(Seq<char>, Json)> {
    match member_value(root, "hooks"@) {
        Some(Json::Object(members)) => members,
        _ => Seq::empty(),
    }
}

/// The FocuSD hooks of the claudeCode agent: `UserPromptSubmit` and `PreToolUse`
/// (every tool) report `running`, `Stop` reports `completed` and
/// `StopFailure` reports `failed`.
pub open spec fn installed_hooks(hooks: Seq<(Seq<char>, Json)>, script: Seq<char>) -> Seq<(Seq<char>, Json)> {
    let running = status_hook_json(script, "running"@);
    let h1 = install_event(hooks, "UserPromptSubmit"@, running);
    let h2 = install_event(h1, "PreToolUse"@, match_all_json(running));
    let h3 = install_event(h2, "Stop"@, status_hook_json(script, "completed"@));
    install_event(h3, "StopFailure"@, status_hook_json(script, "failed"@))
}

/// The claudeCode agent's settings with FocuSD's hooks installed, or `None` when the
/// settings are not an object. The `hooks` member keeps its place (a
/// missing or non-object one becomes an object).
pub open spec fn settings_with_hooks(config: Json, script: Seq<char>) -> Option<Json> {
    match config {
        Json::Object(root) => Some(
            Json::Object(with_member(root, "hooks"@, Json::Object(installed_hooks(hooks_members(root), script)))),
        ),
        _ => None,
    }
}

/// Whether the text of the settings file is blank, which counts as `{}`.
pub fn claude_settings_text_is_blank(content: &str) -> (r: bool)
    ensures
        r == (trim(content@).len() == 0),
{
    let c = chars_of(content);
    let t = trim_chars(&c);
    t.len() == 0
}

/// The claudeCode agent's settings (`None`: no file, or a blank one) with FocuSD's
/// hooks installed through `hook_script_path`.
pub fn claude_settings_with_hooks(config: Option<JsonValue>, hook_script_path: &str) -> (r: Result<JsonValue, ClaudeSettingsError>)
    ensures
        ({
            let c = match config {
                Some(v) => v@,
                None => Json::Object(Seq::empty()),
            };
            match r {
                Ok(v) => settings_with_hooks(c, hook_script_path@) == Some(v@),
                Err(e) => settings_with_hooks(c, hook_script_path@) is None && e is NotAnObject,
            }
        }),
{
    let config = match config {
        Some(v) => v,
        None => {
            let empty: Vec<(String, JsonValue)> = Vec::new();
            proof {
                lemma_object_view(empty);
            }
            JsonValue::Object(empty)
        },
    };
    let mut root = match config {
        JsonValue::Object(members) => members,
        _ => {
            return Err(ClaudeSettingsError::NotAnObject);
        },
    };
    let ghost rv = member_views(root@);
    proof {
        lemma_object_view(root);
        lemma_key_index(rv, "hooks"@);
    }
    let found = find_member(&root, "hooks");
    let mut hooks: Vec<(String, JsonValue)> = match found {
        Some(k) => {
            let (_, value) = root.remove(k);
            match value {
                JsonValue::Object(members) => {
                    proof {
                        lemma_object_view(members);
                    }
                    members
                },
                _ => Vec::new(),
            }
        },
        None => Vec::new(),
    };
    assert(member_views(hooks@) =~= hooks_members(rv));
    let running = claude_code_running_hook_entry(hook_script_path);
    install_claude_code_hook_event(&mut hooks, "UserPromptSubmit", running);
    let running = claude_code_running_hook_entry(hook_script_path);
    let match_all = claude_code_match_all_hook_entry(running);
    install_claude_code_hook_event(&mut hooks, "PreToolUse", match_all);
    let completed = claude_code_status_hook_entry(hook_script_path, "completed");
    install_claude_code_hook_event(&mut hooks, "Stop", completed);
    let failed = claude_code_status_hook_entry(hook_script_path, "failed");
    install_claude_code_hook_event(&mut hooks, "StopFailure", failed);
    let ghost hv = member_views(hooks@);
    assert(hv == installed_hooks(hooks_members(rv), hook_script_path@));
    proof {
        lemma_object_view(hooks);
    }
    match found {
        Some(k) => {
            let ghost before = member_views(root@);
            root.insert(k, (string_from("hooks"), JsonValue::Object(hooks)));
            assert(member_views(root@) =~= rv.update(k as int, ("hooks"@, Json::Object(hv))));
        },
        None => {
            root.push((string_from("hooks"), JsonValue::Object(hooks)));
            assert(member_views(root@) =~= rv.push(("hooks"@, Json::Object(hv))));
        },
    }
    proof {
        lemma_object_view(root);
    }
    Ok(JsonValue::Object(root))
}

// ---------------------------------------------------------------------------
// The settings text
// ---------------------------------------------------------------------------

#[verifier::external_type_specification]
#[verifier::external_body]
pub struct ExJsonDocument(serde_json::Value);

/// The document `serde_json::from_str::<serde_json::Value>` reads from
/// `text`, or the text of its error.
pub uninterp spec fn json_document(text: Seq<char>) -> Result<Json, Seq<char>>;

/// The text `serde_json::to_string_pretty` writes for `value` (two-space
/// indentation; members in the order of `serde_json`'s map).
pub uninterp spec fn json_pretty_text(value: Json) -> Seq<char>;

/// `serde_json::Value` as a `JsonValue`: a number by its text, an object's
/// members in the order the map yields them. Converts the parser's result
/// for `parse_json_document`.
#[verifier::external_body]
fn json_value_from_serde(value: serde_json::Value) -> JsonValue {
    match value {
        serde_json::Value::Null => JsonValue::Null,
        serde_json::Value::Bool(b) => JsonValue::Bool(b),
        serde_json::Value::Number(n) => JsonValue::Number(n.to_string()),
        serde_json::Value::String(s) => JsonValue::Text(s),
        serde_json::Value::Array(items) => JsonValue::Array(items.into_iter().map(json_value_from_serde).collect()),
        serde_json::Value::Object(members) => JsonValue::Object(members.into_iter().map(|(k, v)| (k, json_value_from_serde(v))).collect()),
    }
}

/// `JsonValue` as a `serde_json::Value`, for `pretty_json`: a number from
/// its text (`null` if the text is no JSON number), an object's members
/// inserted in order (a later member of the same key replaces an earlier).
#[verifier::external_body]
fn json_value_to_serde(value: &JsonValue) -> serde_json::Value {
    match value {
        JsonValue::Null => serde_json::Value::Null,
        JsonValue::Bool(b) => serde_json::Value::Bool(*b),
        JsonValue::Number(n) => serde_json::from_str::<serde_json::Number>(n).map(serde_json::Value::Number).unwrap_or(serde_json::Value::Null),
        JsonValue::Text(s) => serde_json::Value::String(s.clone()),
        JsonValue::Array(items) => serde_json::Value::Array(items.iter().map(json_value_to_serde).collect()),
        JsonValue::Object(members) => serde_json::Value::Object(members.iter().map(|(k, v)| (k.clone(), json_value_to_serde(v))).collect()),
    }
}

/// `serde_json::from_str::<serde_json::Value>` on the settings text, the
/// value converted to a `JsonValue`; a parse error is given by its text.
/// The result is named `json_document`: it depends on the text alone.
#[verifier::external_body]
fn parse_json_document(text: &str) -> (r: Result<JsonValue, String>)
    ensures
        match r {
            Ok(v) => json_document(text@) == Ok::<Json, Seq<char>>(v@),
            Err(e) => json_document(text@) == Err::<Json, Seq<char>>(e@),
        },
{
    serde_json::from_str::<serde_json::Value>(text).map(json_value_from_serde).map_err(|error| error.to_string())
}

/// `serde_json::to_string_pretty` on the value converted back to a
/// `serde_json::Value`. Writing a value (whose keys are strings) into
/// memory cannot fail. The text is named `json_pretty_text`.
#[verifier::external_body]
fn pretty_json(value: &JsonValue) -> (r: String)
    ensures
        r@ == json_pretty_text(value@),
{
    serde_json::to_string_pretty(&json_value_to_serde(value)).unwrap_or_default()
}

/// The settings document read from the file's text: `{}` when there is no
/// text or only whitespace, else what the JSON parser gives.
pub open spec fn settings_document(content: Option<Seq<char>>) -> Result<Json, Seq<char>> {
    match content {
        Some(c) => if trim(c).len() == 0 {
            Ok(Json::Object(Seq::empty()))
        } else {
            json_document(c)
        },
        None => Ok(Json::Object(Seq::empty())),
    }
}

/// The new text of the claudeCode agent's `settings.json` with FocuSD's hooks
/// through `hook_script_path`. `content` is the old text, `None` when the
/// file could not be read.
pub fn claude_settings_text_with_hooks(content: Option<&str>, hook_script_path: &str) -> (r: Result<String, ClaudeSettingsError>)
    ensures
        match settings_document(
            match content {
                Some(c) => Some(c@),
                None => None,
            },
        ) {
            Err(e) => r matches Err(ClaudeSettingsError::ParseFailed(m)) && m@ == e,
            Ok(doc) => match settings_with_hooks(doc, hook_script_path@) {
                Some(s) => r matches Ok(text) && text@ == json_pretty_text(s),
                None => r matches Err(ClaudeSettingsError::NotAnObject),
            },
        },
{
    let config = match content {
        Some(c) => if claude_settings_text_is_blank(c) {
            None
        } else {
            match parse_json_document(c) {
                Ok(v) => Some(v),
                Err(e) => {
                    return Err(ClaudeSettingsError::ParseFailed(e));
                },
            }
        },
        None => None,
    };
    match claude_settings_with_hooks(config, hook_script_path) {
        Ok(settings) => Ok(pretty_json(&settings)),
        Err(e) => Err(e),
    }
}


// ---------------------------------------------------------------------------
// Installing twice
// ---------------------------------------------------------------------------

/// No two members share a key, as in any object that `serde_json` reads.
pub open spec fn keys_unique(members: Seq<(Seq<char>, Json)>) -> bool {
    forall|i: int, j: int| 0 <= i < j < members.len() ==> (#[trigger] members[i]).0 != (#[trigger] members[j]).0
}

proof fn lemma_key_absent(members: Seq<(Seq<char>, Json)>, key: Seq<char>)
    requires
        forall|j: int| 0 <= j < members.len() ==> (#[trigger] members[j]).0 != key,
    ensures
        key_index(members, key) == -1,
{
    lemma_key_index(members, key);
    let k = key_index(members, key);
    if k >= 0 {
        assert(members[k].0 == key);
    }
}

proof fn lemma_key_index_concat(a: Seq<(Seq<char>, Json)>, b: Seq<(Seq<char>, Json)>, key: Seq<char>)
    ensures
        key_index(a, key) >= 0 ==> key_index(a + b, key) == key_index(a, key),
        key_index(a, key) < 0 ==> key_index(a + b, key) == if key_index(b, key) >= 0 {
            a.len() + key_index(b, key)
        } else {
            -1
        },
{
    lemma_key_index(a, key);
    lemma_key_index(b, key);
    let ab = a + b;
    let ka = key_index(a, key);
    let kb = key_index(b, key);
    if ka >= 0 {
        assert forall|j: int| 0 <= j < ka implies #[trigger] ab[j].0 != key by {
            assert(ab[j] == a[j]);
        }
        lemma_key_index_at(ab, key, ka);
    } else if kb >= 0 {
        assert forall|j: int| 0 <= j < a.len() + kb implies #[trigger] ab[j].0 != key by {
            if j < a.len() {
                assert(ab[j] == a[j]);
            } else {
                assert(ab[j] == b[j - a.len()]);
            }
        }
        lemma_key_index_at(ab, key, a.len() + kb);
    } else {
        assert forall|j: int| 0 <= j < ab.len() implies (#[trigger] ab[j]).0 != key by {
            if j < a.len() {
                assert(ab[j] == a[j]);
            } else {
                assert(ab[j] == b[j - a.len()]);
            }
        }
        lemma_key_absent(ab, key);
    }
}

/// Removing a key keeps the other members in order and removes the key.
proof fn lemma_without_member(members: Seq<(Seq<char>, Json)>, key: Seq<char>, other: Seq<char>)
    requires
        keys_unique(members),
    ensures
        keys_unique(without_member(members, key)),
        key_index(without_member(members, key), key) == -1,
        key_index(members, other) == -1 ==> key_index(without_member(members, key), other) == -1,
{
    lemma_key_index(members, key);
    lemma_key_index(members, other);
    let k = key_index(members, key);
    let w = without_member(members, key);
    assert forall|j: int| 0 <= j < w.len() implies (#[trigger] w[j]).0 != key by {
        if k >= 0 {
            if j < k {
                assert(w[j] == members[j]);
            } else {
                assert(w[j] == members[j + 1]);
            }
        }
    }
    lemma_key_absent(w, key);
    if key_index(members, other) == -1 {
        assert forall|j: int| 0 <= j < w.len() implies (#[trigger] w[j]).0 != other by {
            if k >= 0 {
                if j < k {
                    assert(w[j] == members[j]);
                } else {
                    assert(w[j] == members[j + 1]);
                }
            }
        }
        lemma_key_absent(w, other);
    }
    assert forall|i: int, j: int| 0 <= i < j < w.len() implies (#[trigger] w[i]).0 != (#[trigger] w[j]).0 by {
        if k >= 0 {
            let i0 = if i < k { i } else { i + 1 };
            let j0 = if j < k { j } else { j + 1 };
            assert(w[i] == members[i0]);
            assert(w[j] == members[j0]);
        }
    }
}

/// Removing a key before or after appending another member is the same.
proof fn lemma_without_member_push(members: Seq<(Seq<char>, Json)>, key: Seq<char>, x: (Seq<char>, Json))
    requires
        x.0 != key,
    ensures
        without_member(members.push(x), key) == without_member(members, key).push(x),
{
    lemma_key_index(members, key);
    lemma_key_index_concat(members, seq![x], key);
    assert(members + seq![x] == members.push(x));
    lemma_key_absent(seq![x], key);
    let k = key_index(members, key);
    if k >= 0 {
        assert(members.push(x).remove(k) =~= members.remove(k).push(x));
    }
}

proof fn lemma_unmanaged_hooks_clean(hooks: Seq<Json>)
    ensures
        unmanaged_hooks(unmanaged_hooks(hooks)) == unmanaged_hooks(hooks),
    decreases hooks.len(),
{
    if hooks.len() > 0 {
        let rest = hooks.drop_first();
        lemma_unmanaged_hooks_clean(rest);
        if !has_signature(hooks[0]) {
            let u = seq![hooks[0]] + unmanaged_hooks(rest);
            assert(u.drop_first() =~= unmanaged_hooks(rest));
        }
    }
}

/// An entry without its FocuSD hooks has none left to remove.
pub proof fn lemma_without_managed_hooks_clean(entry: Json)
    ensures
        without_managed_hooks(entry) matches Some(e) ==> without_managed_hooks(e) == Some(e),
{
    if let Json::Object(members) = entry {
        let k = key_index(members, "hooks"@);
        lemma_key_index(members, "hooks"@);
        if k >= 0 {
            if let Json::Array(hooks) = members[k].1 {
                let kept = unmanaged_hooks(hooks);
                if kept.len() > 0 {
                    let m2 = members.update(k, ("hooks"@, Json::Array(kept)));
                    assert forall|j: int| 0 <= j < k implies #[trigger] m2[j].0 != "hooks"@ by {
                        assert(m2[j] == members[j]);
                    }
                    lemma_key_index_at(m2, "hooks"@, k);
                    lemma_unmanaged_hooks_clean(hooks);
                    assert(m2.update(k, ("hooks"@, Json::Array(unmanaged_hooks(kept)))) =~= m2);
                }
            }
        }
    }
}

proof fn lemma_unmanaged_entries_concat(a: Seq<Json>, b: Seq<Json>)
    ensures
        unmanaged_entries(a + b) == unmanaged_entries(a) + unmanaged_entries(b),
    decreases a.len(),
{
    if a.len() == 0 {
        assert(a + b =~= b);
    } else {
        lemma_unmanaged_entries_concat(a.drop_first(), b);
        assert((a + b).drop_first() =~= a.drop_first() + b);
        match without_managed_hooks(a[0]) {
            Some(e) => {
                assert(seq![e] + (unmanaged_entries(a.drop_first()) + unmanaged_entries(b)) =~= (seq![e]
                    + unmanaged_entries(a.drop_first())) + unmanaged_entries(b));
            },
            None => {},
        }
    }
}

proof fn lemma_unmanaged_entries_clean(entries: Seq<Json>)
    ensures
        unmanaged_entries(unmanaged_entries(entries)) == unmanaged_entries(entries),
    decreases entries.len(),
{
    if entries.len() > 0 {
        let rest = entries.drop_first();
        lemma_unmanaged_entries_clean(rest);
        match without_managed_hooks(entries[0]) {
            Some(e) => {
                lemma_without_managed_hooks_clean(entries[0]);
                lemma_unmanaged_entries_concat(seq![e], unmanaged_entries(rest));
                assert(seq![e].drop_first() =~= Seq::<Json>::empty());
                assert(unmanaged_entries(seq![e]) =~= seq![e]);
            },
            None => {},
        }
    }
}

/// The FocuSD hook entries are FocuSD's own: removing FocuSD hooks drops
/// them whole, when the hook script's path holds the signature.
proof fn lemma_status_hook_managed(script: Seq<char>, phase: Seq<char>)
    requires
        contains(script, FOCUSD_AGENT_HOOK_SIGNATURE@),
    ensures
        without_managed_hooks(status_hook_json(script, phase)) is None,
        without_managed_hooks(match_all_json(status_hook_json(script, phase))) is None,
{
    let args = status_hook_args(script, phase);
    let texts = args.map_values(|a: Seq<char>| Json::Text(a));
    let arg = hook_command_argument(script, "claudeCode"@, phase);
    let pre = "\"\""@;
    let post = "\" "@ + "claudeCode"@ + " "@ + phase + "\""@;
    assert(arg =~= pre + script + post);
    lemma_contains_concat(pre, script, post, FOCUSD_AGENT_HOOK_SIGNATURE@);
    assert(texts[3] == Json::Text(arg));
    assert(has_signature(texts[3]));
    lemma_items_have_signature(texts);
    let hook_members = seq![
        ("type"@, Json::Text("command"@)),
        ("command"@, Json::Text("cmd.exe"@)),
        ("args"@, Json::Array(texts)),
        ("timeout"@, Json::Number(decimal_int(5))),
    ];
    assert(has_signature(hook_members[2].1));
    lemma_members_have_signature(hook_members);
    let hook = Json::Object(hook_members);
    assert(has_signature(hook));
    let hooks = seq![hook];
    assert(hooks.drop_first() =~= Seq::<Json>::empty());
    assert(unmanaged_hooks(Seq::<Json>::empty()) == Seq::<Json>::empty());
    assert(hooks[0] == hook);
    assert(unmanaged_hooks(hooks) == Seq::<Json>::empty());
    let members = seq![("hooks"@, Json::Array(hooks))];
    lemma_key_index_at(members, "hooks"@, 0);
    reveal_strlit("hooks");
    reveal_strlit("matcher");
    assert("hooks"@.len() != "matcher"@.len());
    assert(members[0].0 != "matcher"@);
    lemma_key_absent(members, "matcher"@);
    let with_matcher = members.push(("matcher"@, Json::Text("*"@)));
    assert(with_matcher[0] == members[0]);
    lemma_key_index_at(with_matcher, "hooks"@, 0);
}

/// Installing an event's entry again into an event that holds it already,
/// last, after entries without FocuSD hooks, moves the event to the end and
/// changes nothing else.
proof fn lemma_install_event_again(
    before: Seq<(Seq<char>, Json)>,
    event: Seq<char>,
    items: Seq<Json>,
    after: Seq<(Seq<char>, Json)>,
    entry: Json,
)
    requires
        key_index(before, event) == -1,
        key_index(after, event) == -1,
        items.len() > 0,
        items.last() == entry,
        without_managed_hooks(entry) is None,
        unmanaged_entries(items.drop_last()) == items.drop_last(),
    ensures
        install_event(before + seq![(event, Json::Array(items))] + after, event, entry) == before + after
            + seq![(event, Json::Array(items))],
{
    let x = (event, Json::Array(items));
    let bx = before + seq![x];
    lemma_key_index_at(seq![x], event, 0);
    lemma_key_index_concat(before, seq![x], event);
    lemma_key_index_concat(bx, after, event);
    let m = bx + after;
    assert(key_index(m, event) == before.len());
    assert(m.remove(before.len() as int) =~= before + after);
    assert(event_entries(m, event) == items);
    let rest = items.drop_last();
    assert(items =~= rest + seq![entry]);
    lemma_unmanaged_entries_concat(rest, seq![entry]);
    assert(seq![entry].drop_first() =~= Seq::<Json>::empty());
    assert(unmanaged_entries(Seq::<Json>::empty()) == Seq::<Json>::empty());
    assert(seq![entry][0] == entry);
    assert(unmanaged_entries(seq![entry]) == Seq::<Json>::empty());
    assert(unmanaged_entries(items) =~= rest);
    assert(rest.push(entry) =~= items);
}

proof fn lemma_event_names()
    ensures
        "UserPromptSubmit"@ != "PreToolUse"@,
        "UserPromptSubmit"@ != "Stop"@,
        "UserPromptSubmit"@ != "StopFailure"@,
        "PreToolUse"@ != "Stop"@,
        "PreToolUse"@ != "StopFailure"@,
        "Stop"@ != "StopFailure"@,
{
    reveal_strlit("UserPromptSubmit");
    reveal_strlit("PreToolUse");
    reveal_strlit("Stop");
    reveal_strlit("StopFailure");
    assert("UserPromptSubmit"@.len() == 16);
    assert("PreToolUse"@.len() == 10);
    assert("Stop"@.len() == 4);
    assert("StopFailure"@.len() == 11);
}

/// Hooks installed into a hooks object with distinct keys have the shape
/// `rest + [UserPromptSubmit, PreToolUse, Stop, StopFailure]`, where `rest`
/// holds none of these events and each event's entries end with FocuSD's
/// entry after entries without FocuSD hooks.
#[verifier::spinoff_prover]
#[verifier::rlimit(50)]
proof fn lemma_installed_hooks_shape(hooks: Seq<(Seq<char>, Json)>, script: Seq<char>) -> (r: (
    Seq<(Seq<char>, Json)>,
    Seq<Json>,
    Seq<Json>,
    Seq<Json>,
    Seq<Json>,
))
    requires
        keys_unique(hooks),
    ensures
        installed_hooks(hooks, script) == r.0 + seq![
            ("UserPromptSubmit"@, Json::Array(r.1.push(status_hook_json(script, "running"@)))),
            ("PreToolUse"@, Json::Array(r.2.push(match_all_json(status_hook_json(script, "running"@))))),
            ("Stop"@, Json::Array(r.3.push(status_hook_json(script, "completed"@)))),
            ("StopFailure"@, Json::Array(r.4.push(status_hook_json(script, "failed"@)))),
        ],
        key_index(r.0, "UserPromptSubmit"@) == -1,
        key_index(r.0, "PreToolUse"@) == -1,
        key_index(r.0, "Stop"@) == -1,
        key_index(r.0, "StopFailure"@) == -1,
        unmanaged_entries(r.1) == r.1,
        unmanaged_entries(r.2) == r.2,
        unmanaged_entries(r.3) == r.3,
        unmanaged_entries(r.4) == r.4,
{
    let u = "UserPromptSubmit"@;
    let p = "PreToolUse"@;
    let s = "Stop"@;
    let f = "StopFailure"@;
    lemma_event_names();
    let running = status_hook_json(script, "running"@);
    let w1 = without_member(hooks, u);
    lemma_without_member(hooks, u, p);
    let i1 = unmanaged_entries(event_entries(hooks, u));
    let x1 = (u, Json::Array(i1.push(running)));
    let h1 = w1.push(x1);
    let w2 = without_member(w1, p);
    lemma_without_member(w1, p, u);
    lemma_without_member_push(w1, p, x1);
    let i2 = unmanaged_entries(event_entries(h1, p));
    let x2 = (p, Json::Array(i2.push(match_all_json(running))));
    let h2 = w2.push(x1).push(x2);
    assert(install_event(h1, p, match_all_json(running)) == h2);
    let w3 = without_member(w2, s);
    lemma_without_member(w2, s, u);
    lemma_without_member(w2, s, p);
    lemma_without_member_push(w2, s, x1);
    lemma_without_member_push(w2.push(x1), s, x2);
    let i3 = unmanaged_entries(event_entries(h2, s));
    let x3 = (s, Json::Array(i3.push(status_hook_json(script, "completed"@))));
    let h3 = w3.push(x1).push(x2).push(x3);
    assert(install_event(h2, s, status_hook_json(script, "completed"@)) == h3);
    let w4 = without_member(w3, f);
    lemma_without_member(w3, f, u);
    lemma_without_member(w3, f, p);
    lemma_without_member(w3, f, s);
    lemma_without_member_push(w3, f, x1);
    lemma_without_member_push(w3.push(x1), f, x2);
    lemma_without_member_push(w3.push(x1).push(x2), f, x3);
    let i4 = unmanaged_entries(event_entries(h3, f));
    let x4 = (f, Json::Array(i4.push(status_hook_json(script, "failed"@))));
    let h4 = w4.push(x1).push(x2).push(x3).push(x4);
    assert(install_event(h3, f, status_hook_json(script, "failed"@)) == h4);
    assert(h4 =~= w4 + seq![x1, x2, x3, x4]);
    lemma_unmanaged_entries_clean(event_entries(hooks, u));
    lemma_unmanaged_entries_clean(event_entries(h1, p));
    lemma_unmanaged_entries_clean(event_entries(h2, s));
    lemma_unmanaged_entries_clean(event_entries(h3, f));
    (w4, i1, i2, i3, i4)
}

proof fn lemma_member_keys_absent(members: Seq<(Seq<char>, Json)>, key: Seq<char>)
    requires
        forall|j: int| 0 <= j < members.len() ==> (#[trigger] members[j]).0 != key,
    ensures
        key_index(members, key) == -1,
{
    lemma_key_absent(members, key);
}

/// Installing FocuSD's hooks into the claudeCode agent's settings a second time
/// changes nothing, when the hook script's path holds FocuSD's signature and
/// the hooks object has distinct keys.
#[verifier::spinoff_prover]
#[verifier::rlimit(50)]
pub proof fn lemma_claude_settings_install_idempotent(config: Json, script: Seq<char>)
    requires
        config is Object,
        keys_unique(hooks_members(config->Object_0)),
        contains(script, FOCUSD_AGENT_HOOK_SIGNATURE@),
    ensures
        settings_with_hooks(config, script) is Some,
        settings_with_hooks(settings_with_hooks(config, script)->Some_0, script) == settings_with_hooks(config, script),
{
    let root = config->Object_0;
    let h0 = hooks_members(root);
    let h4 = installed_hooks(h0, script);
    let root1 = with_member(root, "hooks"@, Json::Object(h4));
    lemma_key_index(root, "hooks"@);
    let k = key_index(root, "hooks"@);
    if k >= 0 {
        assert forall|j: int| 0 <= j < k implies #[trigger] root1[j].0 != "hooks"@ by {
            assert(root1[j] == root[j]);
        }
        lemma_key_index_at(root1, "hooks"@, k);
    } else {
        lemma_key_index_concat(root, seq![("hooks"@, Json::Object(h4))], "hooks"@);
        lemma_key_index_at(seq![("hooks"@, Json::Object(h4))], "hooks"@, 0);
        assert(root + seq![("hooks"@, Json::Object(h4))] == root1);
    }
    assert(hooks_members(root1) == h4);
    let (b, i1, i2, i3, i4) = lemma_installed_hooks_shape(h0, script);
    let u = "UserPromptSubmit"@;
    let p = "PreToolUse"@;
    let s = "Stop"@;
    let f = "StopFailure"@;
    lemma_event_names();
    let running = status_hook_json(script, "running"@);
    let e1 = running;
    let e2 = match_all_json(running);
    let e3 = status_hook_json(script, "completed"@);
    let e4 = status_hook_json(script, "failed"@);
    lemma_status_hook_managed(script, "running"@);
    lemma_status_hook_managed(script, "completed"@);
    lemma_status_hook_managed(script, "failed"@);
    let x1 = (u, Json::Array(i1.push(e1)));
    let x2 = (p, Json::Array(i2.push(e2)));
    let x3 = (s, Json::Array(i3.push(e3)));
    let x4 = (f, Json::Array(i4.push(e4)));
    assert(i1.push(e1).drop_last() =~= i1);
    assert(i2.push(e2).drop_last() =~= i2);
    assert(i3.push(e3).drop_last() =~= i3);
    assert(i4.push(e4).drop_last() =~= i4);
    lemma_member_keys_absent(seq![x2, x3, x4], u);
    lemma_install_event_again(b, u, i1.push(e1), seq![x2, x3, x4], e1);
    assert(h4 =~= b + seq![x1] + seq![x2, x3, x4]);
    let g1 = b + seq![x2, x3, x4] + seq![x1];
    assert(g1 =~= b + seq![x2] + seq![x3, x4, x1]);
    lemma_member_keys_absent(seq![x3, x4, x1], p);
    lemma_install_event_again(b, p, i2.push(e2), seq![x3, x4, x1], e2);
    let g2 = b + seq![x3, x4, x1] + seq![x2];
    assert(g2 =~= b + seq![x3] + seq![x4, x1, x2]);
    lemma_member_keys_absent(seq![x4, x1, x2], s);
    lemma_install_event_again(b, s, i3.push(e3), seq![x4, x1, x2], e3);
    let g3 = b + seq![x4, x1, x2] + seq![x3];
    assert(g3 =~= b + seq![x4] + seq![x1, x2, x3]);
    lemma_member_keys_absent(seq![x1, x2, x3], f);
    lemma_install_event_again(b, f, i4.push(e4), seq![x1, x2, x3], e4);
    let g4 = b + seq![x1, x2, x3] + seq![x4];
    assert(g4 =~= h4);
    assert(installed_hooks(h4, script) == h4);
    assert(with_member(root1, "hooks"@, Json::Object(h4)) =~= root1);
}

} // verus!
