//! AI agent status: the instances read from the status file and from the
//! per-instance marker files, and the requests that clear them.
use vstd::prelude::*;
use crate::text::{
    chars_eq, chars_eq_str, chars_of, ends_with, ends_with_chars, extend_chars, extend_str,
    parse_i64, parse_i64_chars, slice_chars, starts_with, starts_with_chars, string_of, trim,
    trim_chars,
};

verus! {

broadcast use vstd::seq_lib::group_seq_properties;

pub const AGENT_RUNNING_MARKER_PREFIX: &'static str = "agent-running-";

pub const AGENT_HOLD_MARKER_PREFIX: &'static str = "agent-hold-";

pub const AGENT_MARKER_SUFFIX: &'static str = ".flag";

pub const CODEX_RUNNING_MARKER_FILE_NAME: &'static str = "agent-codex-running.flag";

pub const CODEX_RUNNING_HOLD_FILE_NAME: &'static str = "agent-codex-running-hold.flag";

pub const CLAUDE_CODE_RUNNING_MARKER_FILE_NAME: &'static str = "agent-claudeCode-running.flag";

pub const CLAUDE_CODE_RUNNING_HOLD_FILE_NAME: &'static str = "agent-claudeCode-running-hold.flag";

/// How long a completed instance stays listed: one day.
pub const AGENT_COMPLETED_MAX_RETENTION_MS: i64 = 86_400_000;

/// A running marker older than this (ten minutes) shows its instance stale.
pub const AGENT_STALE_MARKER_MS: i64 = 600_000;

/// One agent session.
#[derive(Debug)]
pub struct AgentInstance {
    pub id: String,
    pub provider: String,
    pub display_index: u32,
    pub phase: String,
    pub task_id: Option<String>,
    pub display_name: Option<String>,
    pub updated_at: i64,
}

/// The status of a provider in the single-object file format of older
/// versions.
#[derive(Debug)]
pub struct AgentTaskStatus {
    pub phase: String,
    pub task_id: Option<String>,
    pub updated_at: i64,
}

/// The status file's contents.
#[derive(Debug)]
pub struct PersistedAgentStatus {
    pub instances: Vec<AgentInstance>,
    pub codex: Option<AgentTaskStatus>,
    pub claude_code: Option<AgentTaskStatus>,
    pub updated_at: i64,
}

/// What the user is shown.
#[derive(Debug)]
pub struct AgentStatusSnapshot {
    pub instances: Vec<AgentInstance>,
    pub updated_at: i64,
    pub status_path: String,
}

/// An instance as plain values.
pub struct InstanceView {
    pub id: Seq<char>,
    pub provider: Seq<char>,
    pub display_index: u32,
    pub phase: Seq<char>,
    pub task_id: Option<Seq<char>>,
    pub display_name: Option<Seq<char>>,
    pub updated_at: i64,
}

pub open spec fn opt_view(o: Option<String>) -> Option<Seq<char>> {
    match o {
        Some(s) => Some(s@),
        None => None,
    }
}

impl View for AgentInstance {
    type V = InstanceView;

    open spec fn view(&self) -> InstanceView {
        InstanceView {
            id: self.id@,
            provider: self.provider@,
            display_index: self.display_index,
            phase: self.phase@,
            task_id: opt_view(self.task_id),
            display_name: opt_view(self.display_name),
            updated_at: self.updated_at,
        }
    }
}

pub open spec fn instance_views(v: Seq<AgentInstance>) -> Seq<InstanceView> {
    v.map_values(|x: AgentInstance| x@)
}

fn clone_opt(s: &Option<String>) -> (r: Option<String>)
    ensures
        r == *s,
{
    match s {
        Some(v) => Some(v.clone()),
        None => None,
    }
}

impl Clone for AgentInstance {
    fn clone(&self) -> (r: Self)
        ensures
            r == *self,
    {
        AgentInstance {
            id: self.id.clone(),
            provider: self.provider.clone(),
            display_index: self.display_index,
            phase: self.phase.clone(),
            task_id: clone_opt(&self.task_id),
            display_name: clone_opt(&self.display_name),
            updated_at: self.updated_at,
        }
    }
}

// ---------------------------------------------------------------------------
// Phases, providers, defaults
// ---------------------------------------------------------------------------

pub open spec fn is_known_phase(p: Seq<char>) -> bool {
    p == "idle"@ || p == "running"@ || p == "completed"@ || p == "failed"@ || p == "stale"@
}

/// A phase as stored: unknown phases read as `idle`.
pub open spec fn normalized_phase(p: Seq<char>) -> Seq<char> {
    if is_known_phase(p) {
        p
    } else {
        "idle"@
    }
}

pub open spec fn is_known_provider(p: Seq<char>) -> bool {
    p == "codex"@ || p == "claudeCode"@
}

/// An instance as stored: unknown providers read as `codex`, index 0 as 1,
/// unknown phases as `idle`.
pub open spec fn normalized_instance(v: InstanceView) -> InstanceView {
    InstanceView {
        provider: if is_known_provider(v.provider) {
            v.provider
        } else {
            "codex"@
        },
        display_index: if v.display_index == 0 {
            1
        } else {
            v.display_index
        },
        phase: normalized_phase(v.phase),
        ..v
    }
}

pub fn default_agent_phase() -> (r: String)
    ensures
        r@ == "idle"@,
{
    String::from_str("idle")
}

pub fn default_agent_provider() -> (r: String)
    ensures
        r@ == "codex"@,
{
    String::from_str("codex")
}

pub fn default_display_index() -> (r: u32)
    ensures
        r == 1,
{
    1
}

impl Default for AgentInstance {
    /// An instance of Codex with no id, display index 1, idle, at time 0.
    fn default() -> (r: Self)
        ensures
            r.id@ == Seq::<char>::empty(),
            r.provider@ == "codex"@,
            r.display_index == 1,
            r.phase@ == "idle"@,
            r.task_id is None,
            r.display_name is None,
            r.updated_at == 0,
    {
        AgentInstance {
            id: String::new(),
            provider: default_agent_provider(),
            display_index: default_display_index(),
            phase: default_agent_phase(),
            task_id: None,
            display_name: None,
            updated_at: 0,
        }
    }
}

impl Default for AgentTaskStatus {
    /// An idle status without a task, at time 0.
    fn default() -> (r: Self)
        ensures
            r.phase@ == "idle"@,
            r.task_id is None,
            r.updated_at == 0,
    {
        AgentTaskStatus { phase: default_agent_phase(), task_id: None, updated_at: 0 }
    }
}

fn phase_is_known(p: &[char]) -> (r: bool)
    ensures
        r == is_known_phase(p@),
{
    chars_eq_str(p, "idle") || chars_eq_str(p, "running") || chars_eq_str(p, "completed")
        || chars_eq_str(p, "failed") || chars_eq_str(p, "stale")
}

/// Reads an unknown phase as `idle`.
pub fn normalize_agent_task_status(status: AgentTaskStatus) -> (r: AgentTaskStatus)
    ensures
        r.phase@ == normalized_phase(status.phase@),
        r.task_id == status.task_id,
        r.updated_at == status.updated_at,
{
    let mut status = status;
    let phase = chars_of(status.phase.as_str());
    if !phase_is_known(&phase) {
        status.phase = default_agent_phase();
    }
    status
}

/// Reads an unknown provider as `codex`, display index 0 as 1 and an unknown
/// phase as `idle`.
pub fn normalize_agent_instance(instance: AgentInstance) -> (r: AgentInstance)
    ensures
        r@ == normalized_instance(instance@),
{
    let mut instance = instance;
    let provider = chars_of(instance.provider.as_str());
    if !chars_eq_str(&provider, "codex") && !chars_eq_str(&provider, "claudeCode") {
        instance.provider = default_agent_provider();
    }
    if instance.display_index == 0 {
        instance.display_index = 1;
    }
    let phase = chars_of(instance.phase.as_str());
    if !phase_is_known(&phase) {
        instance.phase = default_agent_phase();
    }
    instance
}

/// Normalizing a stored phase keeps each of `idle`, `running`,
/// `completed`, `failed` and `stale` as it is and reads any other phase as
/// `idle`.
pub proof fn lemma_normalized_phase(p: Seq<char>)
    ensures
        (p == "idle"@ || p == "running"@ || p == "completed"@ || p == "failed"@ || p == "stale"@)
            ==> normalized_phase(p) == p,
        !(p == "idle"@ || p == "running"@ || p == "completed"@ || p == "failed"@ || p == "stale"@)
            ==> normalized_phase(p) == "idle"@,
{
}

/// Normalizing an instance keeps its id, task, name, time and any of the
/// five phases, reads another phase as `idle`, an unknown provider as
/// `codex` and display number 0 as 1.
pub proof fn lemma_normalized_instance(v: InstanceView)
    ensures
        normalized_instance(v).id == v.id,
        normalized_instance(v).task_id == v.task_id,
        normalized_instance(v).display_name == v.display_name,
        normalized_instance(v).updated_at == v.updated_at,
        (v.phase == "idle"@ || v.phase == "running"@ || v.phase == "completed"@ || v.phase == "failed"@
            || v.phase == "stale"@) ==> normalized_instance(v).phase == v.phase,
        !(v.phase == "idle"@ || v.phase == "running"@ || v.phase == "completed"@ || v.phase == "failed"@
            || v.phase == "stale"@) ==> normalized_instance(v).phase == "idle"@,
        (v.provider == "codex"@ || v.provider == "claudeCode"@) ==> normalized_instance(v).provider == v.provider,
        !(v.provider == "codex"@ || v.provider == "claudeCode"@) ==> normalized_instance(v).provider == "codex"@,
        v.display_index > 0 ==> normalized_instance(v).display_index == v.display_index,
        v.display_index == 0 ==> normalized_instance(v).display_index == 1,
{
}

/// Every stored instance with an id is listed when the status file is
/// loaded, with its id and its phase (a phase other than the five read as
/// `idle`).
pub proof fn lemma_loaded_instance_listed(p: PersistedAgentStatus, i: int)
    requires
        0 <= i < p.instances@.len(),
        p.instances@[i].id@.len() > 0,
    ensures
        exists|w: InstanceView| #[trigger] instances_from_persisted(p).contains(w)
            && w.id == p.instances@[i].id@
            && w.updated_at == p.instances@[i].updated_at
            && ((p.instances@[i].phase@ == "idle"@ || p.instances@[i].phase@ == "running"@
                || p.instances@[i].phase@ == "completed"@ || p.instances@[i].phase@ == "failed"@
                || p.instances@[i].phase@ == "stale"@) ==> w.phase == p.instances@[i].phase@),
{
    let mapped = instance_views(p.instances@).map_values(|x: InstanceView| normalized_instance(x));
    let w = normalized_instance(p.instances@[i]@);
    assert(mapped[i] == w);
    assert(has_nonempty_id(w));
    broadcast use vstd::seq_lib::group_filter_ensures;
    let current = normalized_instances(p.instances@);
    assert(current.contains(w));
    assert(current.len() > 0);
    assert(instances_from_persisted(p).contains(w));
}

/// An empty snapshot, stamped `now`.
pub fn default_agent_status_snapshot(status_path: String, now: i64) -> (r: AgentStatusSnapshot)
    ensures
        r.instances@.len() == 0,
        r.updated_at == now,
        r.status_path == status_path,
{
    AgentStatusSnapshot { instances: Vec::new(), updated_at: now, status_path }
}

/// An empty status file, stamped `now`.
pub fn default_persisted_agent_status(now: i64) -> (r: PersistedAgentStatus)
    ensures
        r.instances@.len() == 0,
        r.codex is None,
        r.claude_code is None,
        r.updated_at == now,
{
    PersistedAgentStatus { instances: Vec::new(), codex: None, claude_code: None, updated_at: now }
}

// ---------------------------------------------------------------------------
// Reading the status file
// ---------------------------------------------------------------------------

/// The instance that a legacy single-provider status stands for, if it is
/// still of interest (neither idle nor completed).
pub open spec fn legacy_instance(
    status: Option<AgentTaskStatus>,
    id: Seq<char>,
    provider: Seq<char>,
) -> Seq<InstanceView> {
    match status {
        Some(st) => {
            let phase = normalized_phase(st.phase@);
            if phase != "idle"@ && phase != "completed"@ {
                seq![
                    InstanceView {
                        id,
                        provider,
                        display_index: 1,
                        phase,
                        task_id: opt_view(st.task_id),
                        display_name: None,
                        updated_at: st.updated_at,
                    },
                ]
            } else {
                Seq::empty()
            }
        },
        None => Seq::empty(),
    }
}

pub open spec fn has_nonempty_id(v: InstanceView) -> bool {
    v.id.len() > 0
}

pub open spec fn normalized_instances(v: Seq<AgentInstance>) -> Seq<InstanceView> {
    instance_views(v).map_values(|x: InstanceView| normalized_instance(x)).filter(
        |x: InstanceView| has_nonempty_id(x),
    )
}

/// The instances a status file stands for: its normalized instances with an
/// id; when there are none, the still-active legacy statuses.
pub open spec fn instances_from_persisted(p: PersistedAgentStatus) -> Seq<InstanceView> {
    let current = normalized_instances(p.instances@);
    if current.len() > 0 {
        current
    } else {
        legacy_instance(p.codex, "legacy-codex"@, "codex"@) + legacy_instance(
            p.claude_code,
            "legacy-claudeCode"@,
            "claudeCode"@,
        )
    }
}

fn legacy_instance_exec(status: Option<AgentTaskStatus>, id: &str, provider: &str) -> (r: Option<
    AgentInstance,
>)
    ensures
        match r {
            Some(x) => legacy_instance(status, id@, provider@) == seq![x@],
            None => legacy_instance(status, id@, provider@) == Seq::<InstanceView>::empty(),
        },
{
    match status {
        Some(st) => {
            let normalized = normalize_agent_task_status(st);
            let phase = chars_of(normalized.phase.as_str());
            if !chars_eq_str(&phase, "idle") && !chars_eq_str(&phase, "completed") {
                Some(
                    AgentInstance {
                        id: String::from_str(id),
                        provider: String::from_str(provider),
                        display_index: 1,
                        phase: normalized.phase,
                        task_id: normalized.task_id,
                        updated_at: normalized.updated_at,
                        display_name: None,
                    },
                )
            } else {
                None
            }
        },
        None => None,
    }
}

/// The snapshot a status file stands for (see `instances_from_persisted`),
/// stamped with the file's time when it has one, else `now`.
pub fn agent_status_snapshot_from_persisted(
    persisted: PersistedAgentStatus,
    status_path: String,
    now: i64,
) -> (r: AgentStatusSnapshot)
    ensures
        instance_views(r.instances@) == instances_from_persisted(persisted),
        r.updated_at == if persisted.updated_at > 0 {
            persisted.updated_at
        } else {
            now
        },
        r.status_path == status_path,
{
    let ghost p = persisted;
    let PersistedAgentStatus { instances: source, codex, claude_code, updated_at } = persisted;
    let ghost src = source@;
    let mut pending = source;
    let mut back: Vec<AgentInstance> = Vec::new();
    while pending.len() > 0
        invariant
            src == pending@ + back@.reverse(),
        decreases pending.len(),
    {
        let ghost b = back@;
        let ghost q = pending@;
        let x = pending.pop().unwrap();
        back.push(x);
        assert(b.push(x).reverse() =~= seq![x] + b.reverse());
        assert(q =~= pending@.push(x));
    }
    assert(back@.reverse() =~= src);
    assert(src.len() == back.len());
    let mut instances: Vec<AgentInstance> = Vec::new();
    let mut n: usize = 0;
    while back.len() > 0
        invariant
            n + back.len() == src.len(),
            src.len() <= usize::MAX,
            forall|j: int| 0 <= j < back.len() ==> #[trigger] back@[j] == src[src.len() - 1 - j],
            instance_views(instances@) == normalized_instances(src.take(n as int)),
        decreases back.len(),
    {
        let ghost before = back@;
        let x = back.pop().unwrap();
        assert(x == src[n as int]);
        assert forall|j: int| 0 <= j < back.len() implies #[trigger] back@[j] == src[src.len() - 1 - j] by {
            assert(back@[j] == before[j]);
        }
        let ghost prefix_views = instance_views(src.take(n as int)).map_values(
            |v: InstanceView| normalized_instance(v),
        );
        proof {
            assert(src.take(n + 1) =~= src.take(n as int).push(x));
            assert(instance_views(src.take(n + 1)).map_values(
                |v: InstanceView| normalized_instance(v),
            ) =~= prefix_views.push(normalized_instance(x@)));
            prefix_views.lemma_filter_push(
                normalized_instance(x@),
                |v: InstanceView| has_nonempty_id(v),
            );
        }
        let y = normalize_agent_instance(x);
        if y.id.as_str().is_empty() {
        } else {
            let ghost before_views = instance_views(instances@);
            instances.push(y);
            assert(instance_views(instances@) =~= before_views.push(y@));
        }
        n += 1;
    }
    assert(src.take(src.len() as int) =~= src);
    if instances.len() == 0 {
        let ghost empty_views = instance_views(instances@);
        assert(empty_views.len() == 0);
        if let Some(x) = legacy_instance_exec(codex, "legacy-codex", "codex") {
            instances.push(x);
        }
        if let Some(x) = legacy_instance_exec(claude_code, "legacy-claudeCode", "claudeCode") {
            instances.push(x);
        }
        assert(instance_views(instances@) =~= legacy_instance(p.codex, "legacy-codex"@, "codex"@)
            + legacy_instance(p.claude_code, "legacy-claudeCode"@, "claudeCode"@));
    }
    AgentStatusSnapshot {
        instances,
        updated_at: if updated_at > 0 {
            updated_at
        } else {
            now
        },
        status_path,
    }
}

// ---------------------------------------------------------------------------
// Marker file names and display indices
// ---------------------------------------------------------------------------

/// What `parse_agent_marker_file_name` reads from a file name: the provider
/// and instance id of `prefix + provider + "-" + id + suffix`, for the two
/// known providers and a non-empty id.
pub open spec fn marker_file_name(name: Seq<char>, prefix: Seq<char>, suffix: Seq<char>) -> Option<
    (Seq<char>, Seq<char>),
> {
    if starts_with(name, prefix) && ends_with(name, suffix) && prefix.len() + suffix.len()
        <= name.len() {
        let body = name.subrange(prefix.len() as int, name.len() - suffix.len());
        if starts_with(body, "claudeCode-"@) {
            let id = body.subrange("claudeCode-"@.len() as int, body.len() as int);
            if id.len() > 0 {
                Some(("claudeCode"@, id))
            } else {
                None
            }
        } else if starts_with(body, "codex-"@) {
            let id = body.subrange("codex-"@.len() as int, body.len() as int);
            if id.len() > 0 {
                Some(("codex"@, id))
            } else {
                None
            }
        } else {
            None
        }
    } else {
        None
    }
}

/// The name has the prefix and the suffix, and they overlap in it: the one
/// case in which slicing out the part between them fails.
pub open spec fn marker_affixes_overlap(name: Seq<char>, prefix: Seq<char>, suffix: Seq<char>) -> bool {
    starts_with(name, prefix) && ends_with(name, suffix) && prefix.len() + suffix.len() > name.len()
}

/// Reads the provider and instance id out of a marker file name such as
/// `agent-running-codex-1a2b.flag`.
pub fn parse_agent_marker_file_name(file_name: &str, prefix: &str, suffix: &str) -> (r: Option<
    (String, String),
>)
    requires
        !marker_affixes_overlap(file_name@, prefix@, suffix@),
    ensures
        match r {
            Some(pair) => marker_file_name(file_name@, prefix@, suffix@) == Some(
                (pair.0@, pair.1@),
            ),
            None => marker_file_name(file_name@, prefix@, suffix@) is None,
        },
{
    let name = chars_of(file_name);
    let p = chars_of(prefix);
    let s = chars_of(suffix);
    if !starts_with_chars(&name, &p) || !ends_with_chars(&name, &s) {
        return None;
    }
    let body = slice_chars(&name, p.len(), name.len() - s.len());
    let claude = chars_of("claudeCode-");
    if starts_with_chars(&body, &claude) {
        let id = slice_chars(&body, claude.len(), body.len());
        if id.len() == 0 {
            return None;
        }
        return Some((String::from_str("claudeCode"), string_of(&id)));
    }
    let codex = chars_of("codex-");
    if starts_with_chars(&body, &codex) {
        let id = slice_chars(&body, codex.len(), body.len());
        if id.len() == 0 {
            return None;
        }
        return Some((String::from_str("codex"), string_of(&id)));
    }
    None
}

/// Some instance of `provider` shows the number `k`.
pub open spec fn index_used(instances: Seq<InstanceView>, provider: Seq<char>, k: int) -> bool {
    exists|i: int|
        0 <= i < instances.len() && (#[trigger] instances[i]).provider == provider
            && instances[i].display_index == k
}

/// `k` is the smallest positive number that no instance of `provider` shows.
pub open spec fn is_next_display_index(instances: Seq<InstanceView>, provider: Seq<char>, k: int) -> bool {
    &&& k >= 1
    &&& !index_used(instances, provider, k)
    &&& forall|j: int| 1 <= j < k ==> #[trigger] index_used(instances, provider, j)
}

/// Pigeonhole: some number in `1..=len + 1` is free.
proof fn lemma_free_index_exists(instances: Seq<InstanceView>, provider: Seq<char>)
    ensures
        exists|k: int| 1 <= k <= instances.len() + 1 && !index_used(instances, provider, k),
{
    broadcast use vstd::set::group_set_axioms;
    broadcast use vstd::seq_lib::seq_to_set_is_finite;

    if forall|k: int| 1 <= k <= instances.len() + 1 ==> index_used(instances, provider, k) {
        let shown = instances.map_values(|x: InstanceView| x.display_index as int);
        let range = vstd::set_lib::set_int_range(1, instances.len() as int + 2);
        assert forall|k: int| range.contains(k) implies shown.to_set().contains(k) by {
            assert(index_used(instances, provider, k));
            let i = choose|i: int|
                0 <= i < instances.len() && (#[trigger] instances[i]).provider == provider
                    && instances[i].display_index == k;
            assert(shown[i] == k);
        }
        shown.lemma_cardinality_of_set();
        vstd::set_lib::lemma_int_range(1, instances.len() as int + 2);
        vstd::set_lib::lemma_len_subset(range, shown.to_set());
        assert(false);
    }
}

/// The smallest positive display number that no instance of `provider` shows.
pub fn next_display_index(instances: &Vec<AgentInstance>, provider: &str) -> (r: u32)
    requires
        instances@.len() < u32::MAX,
    ensures
        is_next_display_index(instance_views(instances@), provider@, r as int),
{
    let ghost views = instance_views(instances@);
    let wanted = chars_of(provider);
    proof {
        lemma_free_index_exists(views, provider@);
    }
    let mut k: u32 = 1;
    loop
        invariant
            views == instance_views(instances@),
            wanted@ == provider@,
            instances@.len() < u32::MAX,
            1 <= k <= instances@.len() + 1,
            forall|j: int| 1 <= j < k ==> #[trigger] index_used(views, provider@, j),
            exists|f: int| k <= f <= instances@.len() + 1 && !index_used(views, provider@, f),
        decreases instances@.len() + 1 - k,
    {
        let mut used = false;
        let mut i: usize = 0;
        while i < instances.len()
            invariant
                views == instance_views(instances@),
                wanted@ == provider@,
                i <= instances.len(),
                used == exists|t: int|
                    0 <= t < i && (#[trigger] views[t]).provider == provider@
                        && views[t].display_index == k,
            decreases instances.len() - i,
        {
            let p = chars_of(instances[i].provider.as_str());
            assert(views[i as int] == instances@[i as int]@);
            if instances[i].display_index == k && chars_eq(&p, &wanted) {
                used = true;
            }
            assert(used == exists|t: int|
                0 <= t < i + 1 && (#[trigger] views[t]).provider == provider@
                    && views[t].display_index == k) by {
                if used && !(instances[i as int].display_index == k && p@ == wanted@) {
                    let t = choose|t: int|
                        0 <= t < i && (#[trigger] views[t]).provider == provider@
                            && views[t].display_index == k;
                    assert(0 <= t < i + 1);
                }
            }
            i += 1;
        }
        if !used {
            return k;
        }
        assert(index_used(views, provider@, k as int));
        k = k + 1;
    }
}

/// The instance for `provider` and `instance_id` takes the phase and time
/// given; a new one gets the next free display number.
pub open spec fn upserted(
    before: Seq<InstanceView>,
    after: Seq<InstanceView>,
    provider: Seq<char>,
    id: Seq<char>,
    phase: Seq<char>,
    t: i64,
) -> bool {
    if exists|i: int| 0 <= i < before.len() && (#[trigger] before[i]).provider == provider && before[i].id == id {
        exists|i: int|
            0 <= i < before.len() && (#[trigger] before[i]).provider == provider && before[i].id == id
                && (forall|j: int| 0 <= j < i ==> !((#[trigger] before[j]).provider == provider && before[j].id == id))
                && after == before.update(i, InstanceView { phase, updated_at: t, ..before[i] })
    } else {
        &&& after.len() == before.len() + 1
        &&& after.drop_last() == before
        &&& after.last().id == id
        &&& after.last().provider == provider
        &&& after.last().phase == phase
        &&& after.last().updated_at == t
        &&& after.last().task_id is None
        &&& after.last().display_name is None
        &&& is_next_display_index(before, provider, after.last().display_index as int)
    }
}

/// Marks the instance of `provider` and `instance_id` with `phase` at
/// `updated_at`, adding it with the next free display number if absent.
pub fn upsert_running_instance(
    snapshot: &mut AgentStatusSnapshot,
    provider: &str,
    instance_id: &str,
    phase: &str,
    updated_at: i64,
)
    requires
        old(snapshot).instances@.len() < u32::MAX,
    ensures
        upserted(
            instance_views(old(snapshot).instances@),
            instance_views(final(snapshot).instances@),
            provider@,
            instance_id@,
            phase@,
            updated_at,
        ),
        final(snapshot).updated_at == old(snapshot).updated_at,
        final(snapshot).status_path == old(snapshot).status_path,
{
    let ghost before = instance_views(snapshot.instances@);
    let p = chars_of(provider);
    let id = chars_of(instance_id);
    let mut i: usize = 0;
    while i < snapshot.instances.len()
        invariant
            before == instance_views(snapshot.instances@),
            snapshot.instances@ == old(snapshot).instances@,
            snapshot.updated_at == old(snapshot).updated_at,
            snapshot.status_path == old(snapshot).status_path,
            p@ == provider@,
            id@ == instance_id@,
            i <= snapshot.instances.len(),
            forall|j: int| 0 <= j < i ==> !((#[trigger] before[j]).provider == provider@ && before[j].id == instance_id@),
        decreases snapshot.instances.len() - i,
    {
        let ip = chars_of(snapshot.instances[i].provider.as_str());
        let iid = chars_of(snapshot.instances[i].id.as_str());
        if chars_eq(&ip, &p) && chars_eq(&iid, &id) {
            let mut x = snapshot.instances.remove(i);
            x.phase = String::from_str(phase);
            x.updated_at = updated_at;
            snapshot.instances.insert(i, x);
            assert(instance_views(snapshot.instances@) =~= before.update(
                i as int,
                InstanceView { phase: phase@, updated_at, ..before[i as int] },
            ));
            return;
        }
        i += 1;
    }
    let display_index = next_display_index(&snapshot.instances, provider);
    snapshot.instances.push(
        AgentInstance {
            id: String::from_str(instance_id),
            provider: String::from_str(provider),
            display_index,
            phase: String::from_str(phase),
            task_id: None,
            updated_at,
            display_name: None,
        },
    );
    assert(instance_views(snapshot.instances@).drop_last() =~= before);
}

/// Marking instances keeps display numbers distinct within each provider.
pub open spec fn indices_distinct(instances: Seq<InstanceView>) -> bool {
    forall|i: int, j: int|
        0 <= i < instances.len() && 0 <= j < instances.len() && i != j && (#[trigger] instances[i]).provider
            == (#[trigger] instances[j]).provider ==> instances[i].display_index
            != instances[j].display_index
}

/// Marking an instance keeps the display numbers of each provider distinct.
pub proof fn lemma_upsert_keeps_indices_distinct(
    before: Seq<InstanceView>,
    after: Seq<InstanceView>,
    provider: Seq<char>,
    id: Seq<char>,
    phase: Seq<char>,
    t: i64,
)
    requires
        indices_distinct(before),
        upserted(before, after, provider, id, phase, t),
    ensures
        indices_distinct(after),
{
    if exists|i: int| 0 <= i < before.len() && (#[trigger] before[i]).provider == provider && before[i].id == id {
        let i = choose|i: int|
            0 <= i < before.len() && (#[trigger] before[i]).provider == provider && before[i].id == id
                && (forall|j: int| 0 <= j < i ==> !((#[trigger] before[j]).provider == provider && before[j].id == id))
                && after == before.update(i, InstanceView { phase, updated_at: t, ..before[i] });
        assert forall|a: int, b: int|
            0 <= a < after.len() && 0 <= b < after.len() && a != b && (#[trigger] after[a]).provider
                == (#[trigger] after[b]).provider implies after[a].display_index != after[b].display_index by {
            assert(after[a].provider == before[a].provider && after[a].display_index == before[a].display_index);
            assert(after[b].provider == before[b].provider && after[b].display_index == before[b].display_index);
        }
    } else {
        let n = before.len() as int;
        assert forall|a: int, b: int|
            0 <= a < after.len() && 0 <= b < after.len() && a != b && (#[trigger] after[a]).provider
                == (#[trigger] after[b]).provider implies after[a].display_index != after[b].display_index by {
            if a < n && b < n {
                assert(after[a] == before[a] && after[b] == before[b]);
            } else if a == n {
                assert(after[b] == before[b]);
                assert(!index_used(before, provider, after[a].display_index as int));
            } else {
                assert(after[a] == before[a]);
                assert(!index_used(before, provider, after[b].display_index as int));
            }
        }
    }
}

// ---------------------------------------------------------------------------
// Upserting as a function
// ---------------------------------------------------------------------------

pub open spec fn matches_key(v: InstanceView, provider: Seq<char>, id: Seq<char>) -> bool {
    v.provider == provider && v.id == id
}

/// `i` is the first position of the instance of `provider` and `id`.
pub open spec fn is_first_instance(insts: Seq<InstanceView>, provider: Seq<char>, id: Seq<char>, i: int) -> bool {
    &&& 0 <= i < insts.len()
    &&& matches_key(insts[i], provider, id)
    &&& forall|j: int| 0 <= j < i ==> !matches_key(#[trigger] insts[j], provider, id)
}

pub open spec fn next_index_spec(insts: Seq<InstanceView>, provider: Seq<char>) -> int {
    choose|k: int| is_next_display_index(insts, provider, k)
}

/// The instances after marking the instance of `provider` and `id` with
/// `phase` at `t` (see `upserted`).
pub open spec fn upsert_spec(
    insts: Seq<InstanceView>,
    provider: Seq<char>,
    id: Seq<char>,
    phase: Seq<char>,
    t: i64,
) -> Seq<InstanceView> {
    if exists|i: int| is_first_instance(insts, provider, id, i) {
        let i = choose|i: int| is_first_instance(insts, provider, id, i);
        insts.update(i, InstanceView { phase, updated_at: t, ..insts[i] })
    } else {
        insts.push(
            InstanceView {
                id,
                provider,
                display_index: next_index_spec(insts, provider) as u32,
                phase,
                task_id: None,
                display_name: None,
                updated_at: t,
            },
        )
    }
}

proof fn lemma_next_index_unique(insts: Seq<InstanceView>, provider: Seq<char>, k: int)
    requires
        is_next_display_index(insts, provider, k),
    ensures
        next_index_spec(insts, provider) == k,
{
    let c = next_index_spec(insts, provider);
    assert(is_next_display_index(insts, provider, c));
    if c < k {
        assert(index_used(insts, provider, c));
    } else if k < c {
        assert(index_used(insts, provider, k));
    }
}

proof fn lemma_upserted_is_upsert_spec(
    before: Seq<InstanceView>,
    after: Seq<InstanceView>,
    provider: Seq<char>,
    id: Seq<char>,
    phase: Seq<char>,
    t: i64,
)
    requires
        upserted(before, after, provider, id, phase, t),
    ensures
        after == upsert_spec(before, provider, id, phase, t),
{
    if exists|i: int| 0 <= i < before.len() && (#[trigger] before[i]).provider == provider && before[i].id == id {
        let i = choose|i: int|
            0 <= i < before.len() && (#[trigger] before[i]).provider == provider && before[i].id == id
                && (forall|j: int| 0 <= j < i ==> !((#[trigger] before[j]).provider == provider && before[j].id == id))
                && after == before.update(i, InstanceView { phase, updated_at: t, ..before[i] });
        assert(is_first_instance(before, provider, id, i));
        let c = choose|c: int| is_first_instance(before, provider, id, c);
        if c < i {
            assert(!matches_key(before[c], provider, id));
        } else if i < c {
            assert(!matches_key(before[i], provider, id));
        }
    } else {
        assert(!exists|i: int| is_first_instance(before, provider, id, i));
        lemma_next_index_unique(before, provider, after.last().display_index as int);
        assert(after =~= upsert_spec(before, provider, id, phase, t));
    }
}

// ---------------------------------------------------------------------------
// Marker files
// ---------------------------------------------------------------------------

/// A file of the status directory as read for the markers: its name, when it
/// was modified, and what it holds (read for hold markers only).
#[derive(Debug)]
pub struct MarkerFile {
    pub name: String,
    pub modified_at: Option<i64>,
    pub content: Option<String>,
}

/// The marker files of an older version for one provider.
#[derive(Debug)]
pub struct LegacyMarkers {
    pub running: bool,
    pub running_modified_at: Option<i64>,
    pub hold_content: Option<String>,
}

/// The markers seen so far: the instances, the `(provider, id)` keys with a
/// live marker, and the expired hold files to delete.
pub struct MarkerScan {
    pub instances: Seq<InstanceView>,
    pub keys: Seq<(Seq<char>, Seq<char>)>,
    pub removals: Seq<Seq<char>>,
}

/// Until when a hold marker keeps its instance running: the number it holds,
/// or 0.
pub open spec fn hold_visible_until(content: Option<Seq<char>>) -> i64 {
    match content {
        Some(c) => match parse_i64(trim(c)) {
            Some(v) => v,
            None => 0,
        },
        None => 0,
    }
}

pub open spec fn running_marker(name: Seq<char>) -> Option<(Seq<char>, Seq<char>)> {
    marker_file_name(name, AGENT_RUNNING_MARKER_PREFIX@, AGENT_MARKER_SUFFIX@)
}

pub open spec fn hold_marker(name: Seq<char>) -> Option<(Seq<char>, Seq<char>)> {
    marker_file_name(name, AGENT_HOLD_MARKER_PREFIX@, AGENT_MARKER_SUFFIX@)
}

pub open spec fn modified_or(t: Option<i64>, now: i64) -> i64 {
    match t {
        Some(v) => v,
        None => now,
    }
}

/// Some file of `all` is a hold marker of the key `k` that is still visible.
pub open spec fn hold_visible_in(all: Seq<(Seq<char>, Option<i64>, Option<Seq<char>>)>, k: (Seq<char>, Seq<char>), now: i64) -> bool {
    exists|g: int|
        0 <= g < all.len() && running_marker(all[g].0) is None && #[trigger] hold_marker(all[g].0) == Some(k)
            && hold_visible_until(all[g].2) > now
}

/// The phase a running marker gives its instance: stale when the marker was
/// modified more than `AGENT_STALE_MARKER_MS` before `now` and no visible
/// hold marker (`held`) keeps the instance running; else running.
pub open spec fn running_marker_phase(modified: Option<i64>, now: i64, held: bool) -> Seq<char> {
    match modified {
        Some(m) => if now - m > AGENT_STALE_MARKER_MS && !held {
            "stale"@
        } else {
            "running"@
        },
        None => "running"@,
    }
}

/// One file's effect, among the files `all`: a running marker marks its
/// instance running (stale once the marker is old and no visible hold marker
/// of `all` is for it, see `running_marker_phase`) since the file's time; a
/// hold marker marks it running now while it is visible, and is deleted once
/// it is not.
pub open spec fn marker_step(st: MarkerScan, name: Seq<char>, modified: Option<i64>, content: Option<Seq<char>>, now: i64, all: Seq<(Seq<char>, Option<i64>, Option<Seq<char>>)>) -> MarkerScan {
    match running_marker(name) {
        Some(k) => MarkerScan {
            instances: upsert_spec(st.instances, k.0, k.1, running_marker_phase(modified, now, hold_visible_in(all, k, now)), modified_or(modified, now)),
            keys: st.keys.push(k),
            removals: st.removals,
        },
        None => match hold_marker(name) {
            Some(k) => if hold_visible_until(content) > now {
                MarkerScan {
                    instances: upsert_spec(st.instances, k.0, k.1, "running"@, now),
                    keys: st.keys.push(k),
                    removals: st.removals,
                }
            } else {
                MarkerScan { removals: st.removals.push(name), ..st }
            },
            None => st,
        },
    }
}

pub open spec fn file_views(files: Seq<MarkerFile>) -> Seq<(Seq<char>, Option<i64>, Option<Seq<char>>)> {
    files.map_values(|f: MarkerFile| (f.name@, f.modified_at, opt_view(f.content)))
}

pub open spec fn scan_files(st: MarkerScan, files: Seq<(Seq<char>, Option<i64>, Option<Seq<char>>)>, now: i64, all: Seq<(Seq<char>, Option<i64>, Option<Seq<char>>)>) -> MarkerScan
    decreases files.len(),
{
    if files.len() == 0 {
        st
    } else {
        let f = files.last();
        marker_step(scan_files(st, files.drop_last(), now, all), f.0, f.1, f.2, now, all)
    }
}

/// The legacy markers' effect for one provider.
pub open spec fn legacy_step(
    st: MarkerScan,
    provider: Seq<char>,
    id: Seq<char>,
    hold_name: Seq<char>,
    running: bool,
    modified: Option<i64>,
    hold_content: Option<Seq<char>>,
    now: i64,
) -> MarkerScan {
    if running {
        MarkerScan {
            instances: upsert_spec(
                st.instances,
                provider,
                id,
                running_marker_phase(modified, now, hold_visible_until(hold_content) > now),
                modified_or(modified, now),
            ),
            keys: st.keys.push((provider, id)),
            removals: st.removals,
        }
    } else if hold_visible_until(hold_content) > now {
        MarkerScan {
            instances: upsert_spec(st.instances, provider, id, "running"@, now),
            keys: st.keys.push((provider, id)),
            removals: st.removals,
        }
    } else {
        MarkerScan { removals: st.removals.push(hold_name), ..st }
    }
}

/// Whether an instance stays listed: running and stale ones while a marker is
/// live (always for stale and legacy ones), completed ones for a day, failed
/// ones always, idle ones never.
pub open spec fn retained(v: InstanceView, keys: Seq<(Seq<char>, Seq<char>)>, now: i64) -> bool {
    if v.phase == "running"@ || v.phase == "stale"@ {
        keys.contains((v.provider, v.id)) || v.phase == "stale"@ || starts_with(v.id, "legacy"@)
    } else if v.phase == "completed"@ {
        v.updated_at > 0 && crate::history::saturating_sub_i64(now, v.updated_at)
            < AGENT_COMPLETED_MAX_RETENTION_MS
    } else {
        v.phase == "failed"@
    }
}

/// Strict lexicographic order of character sequences.
pub open spec fn lex_lt(a: Seq<char>, b: Seq<char>) -> bool
    decreases a.len(),
{
    if a.len() == 0 {
        b.len() > 0
    } else if b.len() == 0 {
        false
    } else if a[0] != b[0] {
        a[0] < b[0]
    } else {
        lex_lt(a.drop_first(), b.drop_first())
    }
}

/// The listing order: by provider, then by display number.
pub open spec fn listed_before_or_with(x: InstanceView, y: InstanceView) -> bool {
    lex_lt(x.provider, y.provider) || (x.provider == y.provider && x.display_index <= y.display_index)
}

pub open spec fn is_listing_order(s: Seq<InstanceView>) -> bool {
    forall|a: int, b: int| 0 <= a < b < s.len() ==> listed_before_or_with(#[trigger] s[a], #[trigger] s[b])
}

proof fn lemma_lex_total(a: Seq<char>, b: Seq<char>)
    ensures
        a != b ==> lex_lt(a, b) || lex_lt(b, a),
        !(lex_lt(a, b) && lex_lt(b, a)),
        !lex_lt(a, a),
    decreases a.len(),
{
    if a.len() > 0 && b.len() > 0 && a[0] == b[0] {
        lemma_lex_total(a.drop_first(), b.drop_first());
        if a != b {
            assert(a.drop_first() != b.drop_first()) by {
                if a.drop_first() == b.drop_first() {
                    assert(a =~= seq![a[0]] + a.drop_first());
                    assert(b =~= seq![b[0]] + b.drop_first());
                }
            }
        }
    } else if a.len() > 0 && b.len() == 0 {
    } else if a.len() == 0 && b.len() == 0 {
        assert(a =~= b);
    }
    if a.len() > 0 {
        lemma_lex_total(a.drop_first(), a.drop_first());
    }
}

proof fn lemma_lex_trans(a: Seq<char>, b: Seq<char>, c: Seq<char>)
    requires
        lex_lt(a, b),
        lex_lt(b, c),
    ensures
        lex_lt(a, c),
    decreases a.len(),
{
    if a.len() > 0 && b.len() > 0 && c.len() > 0 && a[0] == b[0] && b[0] == c[0] {
        lemma_lex_trans(a.drop_first(), b.drop_first(), c.drop_first());
    }
}

proof fn lemma_listing_total(x: InstanceView, y: InstanceView)
    ensures
        !listed_before_or_with(x, y) ==> listed_before_or_with(y, x),
{
    lemma_lex_total(x.provider, y.provider);
}

proof fn lemma_listing_trans(x: InstanceView, y: InstanceView, z: InstanceView)
    requires
        listed_before_or_with(x, y),
        listed_before_or_with(y, z),
    ensures
        listed_before_or_with(x, z),
{
    if lex_lt(x.provider, y.provider) && lex_lt(y.provider, z.provider) {
        lemma_lex_trans(x.provider, y.provider, z.provider);
    }
}

// ---------------------------------------------------------------------------
// Applying the markers
// ---------------------------------------------------------------------------

fn lex_less(a: &[char], b: &[char]) -> (r: bool)
    ensures
        r == lex_lt(a@, b@),
{
    let mut i: usize = 0;
    while i < a.len() && i < b.len() && a[i] == b[i]
        invariant
            i <= a.len(),
            i <= b.len(),
            lex_lt(a@, b@) == lex_lt(a@.subrange(i as int, a@.len() as int), b@.subrange(i as int, b@.len() as int)),
        decreases a.len() - i,
    {
        let ghost sa = a@.subrange(i as int, a@.len() as int);
        let ghost sb = b@.subrange(i as int, b@.len() as int);
        assert(sa.drop_first() =~= a@.subrange(i + 1, a@.len() as int));
        assert(sb.drop_first() =~= b@.subrange(i + 1, b@.len() as int));
        i += 1;
    }
    let ghost sa = a@.subrange(i as int, a@.len() as int);
    let ghost sb = b@.subrange(i as int, b@.len() as int);
    if i == a.len() {
        i < b.len()
    } else if i == b.len() {
        false
    } else {
        assert(sa[0] == a@[i as int] && sb[0] == b@[i as int]);
        a[i] < b[i]
    }
}

fn listed_before_or_with_exec(x: &AgentInstance, y: &AgentInstance) -> (r: bool)
    ensures
        r == listed_before_or_with(x@, y@),
{
    let xp = chars_of(x.provider.as_str());
    let yp = chars_of(y.provider.as_str());
    lex_less(&xp, &yp) || (chars_eq(&xp, &yp) && x.display_index <= y.display_index)
}

/// `x` placed into `r` after every leading instance listed before or with it.
pub open spec fn insert_listed(r: Seq<InstanceView>, x: InstanceView) -> Seq<InstanceView>
    decreases r.len(),
{
    if r.len() == 0 {
        seq![x]
    } else if listed_before_or_with(r[0], x) {
        seq![r[0]] + insert_listed(r.drop_first(), x)
    } else {
        seq![x] + r
    }
}

/// The stable sort of `s` into listing order: instances that list alike keep
/// their order.
pub open spec fn listing_sort(s: Seq<InstanceView>) -> Seq<InstanceView>
    decreases s.len(),
{
    if s.len() == 0 {
        Seq::empty()
    } else {
        insert_listed(listing_sort(s.drop_last()), s.last())
    }
}

proof fn lemma_insert_listed_at(r: Seq<InstanceView>, x: InstanceView, j: int)
    requires
        0 <= j <= r.len(),
        forall|t: int| 0 <= t < j ==> listed_before_or_with(#[trigger] r[t], x),
        j == r.len() || !listed_before_or_with(r[j], x),
    ensures
        insert_listed(r, x) == r.insert(j, x),
    decreases r.len(),
{
    if r.len() == 0 {
        assert(r.insert(j, x) =~= seq![x]);
    } else if j == 0 {
        assert(r.insert(0, x) =~= seq![x] + r);
    } else {
        let rest = r.drop_first();
        assert forall|t: int| 0 <= t < j - 1 implies listed_before_or_with(#[trigger] rest[t], x) by {
            assert(rest[t] == r[t + 1]);
        }
        lemma_insert_listed_at(rest, x, j - 1);
        assert(r.insert(j, x) =~= seq![r[0]] + rest.insert(j - 1, x));
    }
}

/// The instances in listing order: by provider, then display number, with
/// instances that list alike in their former order.
pub fn sort_instances(v: Vec<AgentInstance>) -> (r: Vec<AgentInstance>)
    ensures
        instance_views(r@) == listing_sort(instance_views(v@)),
        is_listing_order(instance_views(r@)),
        instance_views(r@).to_multiset() == instance_views(v@).to_multiset(),
{
    broadcast use vstd::seq_lib::to_multiset_insert;

    let ghost src = v@;
    let mut pending = v;
    let mut back: Vec<AgentInstance> = Vec::new();
    while pending.len() > 0
        invariant
            src == pending@ + back@.reverse(),
        decreases pending.len(),
    {
        let ghost b = back@;
        let ghost q = pending@;
        let x = pending.pop().unwrap();
        back.push(x);
        assert(b.push(x).reverse() =~= seq![x] + b.reverse());
        assert(q =~= pending@.push(x));
    }
    assert(back@.reverse() =~= src);
    assert(src.len() == back.len());
    let mut r: Vec<AgentInstance> = Vec::new();
    let mut n: usize = 0;
    while back.len() > 0
        invariant
            n + back.len() == src.len(),
            src.len() <= usize::MAX,
            forall|j: int| 0 <= j < back.len() ==> #[trigger] back@[j] == src[src.len() - 1 - j],
            is_listing_order(instance_views(r@)),
            instance_views(r@).to_multiset() == instance_views(src.take(n as int)).to_multiset(),
            instance_views(r@) == listing_sort(instance_views(src.take(n as int))),
        decreases back.len(),
    {
        let ghost before = back@;
        let x = back.pop().unwrap();
        assert(x == src[n as int]);
        assert forall|j: int| 0 <= j < back.len() implies #[trigger] back@[j] == src[src.len() - 1 - j] by {
            assert(back@[j] == before[j]);
        }
        let ghost rv = instance_views(r@);
        let mut j: usize = 0;
        while j < r.len() && listed_before_or_with_exec(&r[j], &x)
            invariant
                j <= r.len(),
                rv == instance_views(r@),
                forall|t: int| 0 <= t < j ==> listed_before_or_with(#[trigger] rv[t], x@),
            decreases r.len() - j,
        {
            j += 1;
        }
        proof {
            assert forall|t: int| j <= t < rv.len() implies listed_before_or_with(x@, #[trigger] rv[t]) by {
                lemma_listing_total(rv[j as int], x@);
                if t > j {
                    lemma_listing_trans(x@, rv[j as int], rv[t]);
                }
            }
        }
        proof {
            assert(j == rv.len() || !listed_before_or_with(rv[j as int], x@));
            lemma_insert_listed_at(rv, x@, j as int);
            let next = instance_views(src.take(n + 1));
            assert(src.take(n + 1) =~= src.take(n as int).push(x));
            assert(next.drop_last() =~= instance_views(src.take(n as int)));
            assert(next.last() == x@);
        }
        r.insert(j, x);
        proof {
            let nv = instance_views(r@);
            assert(nv =~= rv.insert(j as int, x@));
            assert forall|a: int, b: int| 0 <= a < b < nv.len() implies listed_before_or_with(#[trigger] nv[a], #[trigger] nv[b]) by {
                if b < j {
                } else if b == j {
                } else if a < j {
                    assert(nv[b] == rv[b - 1]);
                    lemma_listing_trans(nv[a], x@, nv[b]);
                } else if a == j {
                    assert(nv[b] == rv[b - 1]);
                } else {
                    assert(nv[a] == rv[a - 1] && nv[b] == rv[b - 1]);
                }
            }
            assert(src.take(n + 1) =~= src.take(n as int).push(x));
            assert(instance_views(src.take(n + 1)) =~= instance_views(src.take(n as int)).push(x@));
            assert(instance_views(src.take(n as int)).push(x@) =~= instance_views(src.take(n as int)).insert(n as int, x@));
        }
        n += 1;
    }
    assert(src.take(src.len() as int) =~= src);
    assert(src.take(0) =~= Seq::<AgentInstance>::empty());
    r
}

proof fn lemma_marker_affixes_disjoint(name: Seq<char>, prefix: &str)
    requires
        prefix@.len() > 0,
        prefix@.last() == '-',
    ensures
        !marker_affixes_overlap(name, prefix@, AGENT_MARKER_SUFFIX@),
{
    reveal_strlit(".flag");
    let s = AGENT_MARKER_SUFFIX@;
    if marker_affixes_overlap(name, prefix@, s) {
        let k = prefix@.len() - 1;
        assert(name[k] == prefix@[k]);
        let off = name.len() - s.len();
        assert(name.subrange(off, name.len() as int)[k - off] == name[k]);
        assert(s[k - off] != '-');
    }
}

fn hold_visible_until_exec(content: &Option<String>) -> (r: i64)
    ensures
        r == hold_visible_until(opt_view(*content)),
{
    match content {
        Some(c) => {
            let cs = chars_of(c.as_str());
            let t = trim_chars(&cs);
            match parse_i64_chars(&t) {
                Some(v) => v,
                None => 0,
            }
        },
        None => 0,
    }
}

pub open spec fn key_views(keys: Seq<(String, String)>) -> Seq<(Seq<char>, Seq<char>)> {
    keys.map_values(|k: (String, String)| (k.0@, k.1@))
}

pub open spec fn string_views(v: Seq<String>) -> Seq<Seq<char>> {
    v.map_values(|s: String| s@)
}

pub open spec fn scan_of(snapshot: AgentStatusSnapshot, keys: Seq<(String, String)>, removals: Seq<String>) -> MarkerScan {
    MarkerScan { instances: instance_views(snapshot.instances@), keys: key_views(keys), removals: string_views(removals) }
}

fn running_marker_phase_exec(modified: Option<i64>, now: i64, held: bool) -> (r: &'static str)
    ensures
        r@ == running_marker_phase(modified, now, held),
{
    match modified {
        Some(m) => if (now as i128) - (m as i128) > (AGENT_STALE_MARKER_MS as i128) && !held {
            "stale"
        } else {
            "running"
        },
        None => "running",
    }
}

/// Whether a visible hold marker among `files` is for `provider` and `id`.
fn hold_visible_exec(files: &Vec<MarkerFile>, provider: &str, id: &str, now: i64) -> (r: bool)
    ensures
        r == hold_visible_in(file_views(files@), (provider@, id@), now),
{
    let ghost fv = file_views(files@);
    let p = chars_of(provider);
    let d = chars_of(id);
    let mut i: usize = 0;
    while i < files.len()
        invariant
            i <= files@.len(),
            fv == file_views(files@),
            p@ == provider@,
            d@ == id@,
            forall|g: int| 0 <= g < i ==> !(running_marker(fv[g].0) is None && #[trigger] hold_marker(fv[g].0) == Some((provider@, id@))
                && hold_visible_until(fv[g].2) > now),
        decreases files.len() - i,
    {
        let file = &files[i];
        assert(fv[i as int] == (file.name@, file.modified_at, opt_view(file.content)));
        proof {
            reveal_strlit("agent-running-");
            reveal_strlit("agent-hold-");
            lemma_marker_affixes_disjoint(file.name@, AGENT_RUNNING_MARKER_PREFIX);
            lemma_marker_affixes_disjoint(file.name@, AGENT_HOLD_MARKER_PREFIX);
        }
        if parse_agent_marker_file_name(file.name.as_str(), AGENT_RUNNING_MARKER_PREFIX, AGENT_MARKER_SUFFIX).is_none() {
            match parse_agent_marker_file_name(file.name.as_str(), AGENT_HOLD_MARKER_PREFIX, AGENT_MARKER_SUFFIX) {
                Some((hp, hid)) => {
                    let hpc = chars_of(hp.as_str());
                    let hic = chars_of(hid.as_str());
                    if chars_eq(&hpc, &p) && chars_eq(&hic, &d) && hold_visible_until_exec(&file.content) > now {
                        assert(hold_marker(fv[i as int].0) == Some((provider@, id@)));
                        return true;
                    }
                },
                None => {},
            }
        }
        i += 1;
    }
    false
}

fn marker_step_exec(
    snapshot: &mut AgentStatusSnapshot,
    keys: &mut Vec<(String, String)>,
    removals: &mut Vec<String>,
    file: &MarkerFile,
    files: &Vec<MarkerFile>,
    now: i64,
)
    requires
        old(snapshot).instances@.len() < u32::MAX,
    ensures
        scan_of(*final(snapshot), final(keys)@, final(removals)@) == marker_step(
            scan_of(*old(snapshot), old(keys)@, old(removals)@),
            file.name@,
            file.modified_at,
            opt_view(file.content),
            now,
            file_views(files@),
        ),
        final(snapshot).instances@.len() <= old(snapshot).instances@.len() + 1,
        final(snapshot).updated_at == old(snapshot).updated_at,
        final(snapshot).status_path == old(snapshot).status_path,
{
    proof {
        reveal_strlit("agent-running-");
        reveal_strlit("agent-hold-");
        lemma_marker_affixes_disjoint(file.name@, AGENT_RUNNING_MARKER_PREFIX);
        lemma_marker_affixes_disjoint(file.name@, AGENT_HOLD_MARKER_PREFIX);
    }
    let ghost before = instance_views(snapshot.instances@);
    match parse_agent_marker_file_name(file.name.as_str(), AGENT_RUNNING_MARKER_PREFIX, AGENT_MARKER_SUFFIX) {
        Some((provider, instance_id)) => {
            let at = match file.modified_at {
                Some(t) => t,
                None => now,
            };
            let held = hold_visible_exec(files, provider.as_str(), instance_id.as_str(), now);
            let phase = running_marker_phase_exec(file.modified_at, now, held);
            upsert_running_instance(snapshot, provider.as_str(), instance_id.as_str(), phase, at);
            proof {
                reveal_strlit("running");
                lemma_upserted_is_upsert_spec(before, instance_views(snapshot.instances@), provider@, instance_id@, phase@, at);
            }
            let ghost kb = keys@;
            keys.push((provider, instance_id));
            assert(key_views(keys@) =~= key_views(kb).push((provider@, instance_id@)));
        },
        None => match parse_agent_marker_file_name(file.name.as_str(), AGENT_HOLD_MARKER_PREFIX, AGENT_MARKER_SUFFIX) {
            Some((provider, instance_id)) => {
                if hold_visible_until_exec(&file.content) > now {
                    upsert_running_instance(snapshot, provider.as_str(), instance_id.as_str(), "running", now);
                    proof {
                        lemma_upserted_is_upsert_spec(before, instance_views(snapshot.instances@), provider@, instance_id@, "running"@, now);
                    }
                    let ghost kb = keys@;
                    keys.push((provider, instance_id));
                    assert(key_views(keys@) =~= key_views(kb).push((provider@, instance_id@)));
                } else {
                    let ghost rb = removals@;
                    removals.push(file.name.clone());
                    assert(string_views(removals@) =~= string_views(rb).push(file.name@));
                }
            },
            None => {},
        },
    }
}

fn legacy_step_exec(
    snapshot: &mut AgentStatusSnapshot,
    keys: &mut Vec<(String, String)>,
    removals: &mut Vec<String>,
    provider: &str,
    instance_id: &str,
    hold_name: &str,
    legacy: &LegacyMarkers,
    now: i64,
)
    requires
        old(snapshot).instances@.len() < u32::MAX,
    ensures
        scan_of(*final(snapshot), final(keys)@, final(removals)@) == legacy_step(
            scan_of(*old(snapshot), old(keys)@, old(removals)@),
            provider@,
            instance_id@,
            hold_name@,
            legacy.running,
            legacy.running_modified_at,
            opt_view(legacy.hold_content),
            now,
        ),
        final(snapshot).instances@.len() <= old(snapshot).instances@.len() + 1,
        final(snapshot).updated_at == old(snapshot).updated_at,
        final(snapshot).status_path == old(snapshot).status_path,
{
    let ghost before = instance_views(snapshot.instances@);
    let visible = legacy.running || hold_visible_until_exec(&legacy.hold_content) > now;
    if visible {
        let at = if legacy.running {
            match legacy.running_modified_at {
                Some(t) => t,
                None => now,
            }
        } else {
            now
        };
        let phase = if legacy.running {
            let held = hold_visible_until_exec(&legacy.hold_content) > now;
            running_marker_phase_exec(legacy.running_modified_at, now, held)
        } else {
            "running"
        };
        upsert_running_instance(snapshot, provider, instance_id, phase, at);
        proof {
            lemma_upserted_is_upsert_spec(before, instance_views(snapshot.instances@), provider@, instance_id@, phase@, at);
        }
        let ghost kb = keys@;
        keys.push((String::from_str(provider), String::from_str(instance_id)));
        assert(key_views(keys@) =~= key_views(kb).push((provider@, instance_id@)));
    } else {
        let ghost rb = removals@;
        removals.push(String::from_str(hold_name));
        assert(string_views(removals@) =~= string_views(rb).push(hold_name@));
    }
}

fn keys_contain(keys: &Vec<(String, String)>, provider: &[char], id: &[char]) -> (r: bool)
    ensures
        r == key_views(keys@).contains((provider@, id@)),
{
    let mut i: usize = 0;
    while i < keys.len()
        invariant
            i <= keys.len(),
            forall|j: int| 0 <= j < i ==> key_views(keys@)[j] != (provider@, id@),
        decreases keys.len() - i,
    {
        let kp = chars_of(keys[i].0.as_str());
        let ki = chars_of(keys[i].1.as_str());
        assert(key_views(keys@)[i as int] == (keys@[i as int].0@, keys@[i as int].1@));
        if chars_eq(&kp, provider) && chars_eq(&ki, id) {
            assert(key_views(keys@)[i as int] == (provider@, id@));
            return true;
        }
        i += 1;
    }
    false
}

fn retained_exec(x: &AgentInstance, keys: &Vec<(String, String)>, now: i64) -> (r: bool)
    ensures
        r == retained(x@, key_views(keys@), now),
{
    let phase = chars_of(x.phase.as_str());
    let running = chars_eq_str(&phase, "running");
    let stale = chars_eq_str(&phase, "stale");
    if running || stale {
        let provider = chars_of(x.provider.as_str());
        let id = chars_of(x.id.as_str());
        let legacy = chars_of("legacy");
        return keys_contain(keys, &provider, &id) || stale || starts_with_chars(&id, &legacy);
    }
    if chars_eq_str(&phase, "completed") {
        let elapsed: i128 = (now as i128) - (x.updated_at as i128);
        let saturated: i128 = if elapsed < (i64::MIN as i128) {
            i64::MIN as i128
        } else if elapsed > (i64::MAX as i128) {
            i64::MAX as i128
        } else {
            elapsed
        };
        return x.updated_at > 0 && saturated < (AGENT_COMPLETED_MAX_RETENTION_MS as i128);
    }
    chars_eq_str(&phase, "failed")
}

/// The scan that the marker files and the legacy markers make of a snapshot.
pub open spec fn marker_scan(
    instances: Seq<InstanceView>,
    files: Seq<MarkerFile>,
    legacy_codex: LegacyMarkers,
    legacy_claude: LegacyMarkers,
    now: i64,
) -> MarkerScan {
    let st0 = MarkerScan { instances, keys: Seq::empty(), removals: Seq::empty() };
    let st1 = scan_files(st0, file_views(files), now, file_views(files));
    let st2 = legacy_step(
        st1,
        "codex"@,
        "legacy-codex"@,
        CODEX_RUNNING_HOLD_FILE_NAME@,
        legacy_codex.running,
        legacy_codex.running_modified_at,
        opt_view(legacy_codex.hold_content),
        now,
    );
    legacy_step(
        st2,
        "claudeCode"@,
        "legacy-claudeCode"@,
        CLAUDE_CODE_RUNNING_HOLD_FILE_NAME@,
        legacy_claude.running,
        legacy_claude.running_modified_at,
        opt_view(legacy_claude.hold_content),
        now,
    )
}

pub open spec fn is_retained_in(keys: Seq<(Seq<char>, Seq<char>)>, now: i64) -> spec_fn(InstanceView) -> bool {
    |v: InstanceView| retained(v, keys, now)
}

/// Brings a snapshot up to date with the marker files: each running marker
/// marks its instance running (stale when the marker is more than ten
/// minutes old and no visible hold marker is for the instance), each visible
/// hold marker keeps it running,
/// the legacy markers do the same for `legacy-codex` and
/// `legacy-claudeCode`; then the instances that are no longer of interest
/// are dropped (see `retained`) and the rest listed by provider and number.
/// Returns the expired hold files to delete.
pub fn apply_agent_running_markers(
    snapshot: &mut AgentStatusSnapshot,
    files: &Vec<MarkerFile>,
    legacy_codex: &LegacyMarkers,
    legacy_claude: &LegacyMarkers,
    now: i64,
) -> (removals: Vec<String>)
    requires
        old(snapshot).instances@.len() + files@.len() + 2 < u32::MAX,
    ensures
        ({
            let scan = marker_scan(instance_views(old(snapshot).instances@), files@, *legacy_codex, *legacy_claude, now);
            &&& instance_views(final(snapshot).instances@) == listing_sort(
                scan.instances.filter(is_retained_in(scan.keys, now)),
            )
            &&& is_listing_order(instance_views(final(snapshot).instances@))
            &&& instance_views(final(snapshot).instances@).to_multiset() == scan.instances.filter(
                is_retained_in(scan.keys, now),
            ).to_multiset()
            &&& string_views(removals@) == scan.removals
        }),
        final(snapshot).updated_at == now,
        final(snapshot).status_path == old(snapshot).status_path,
{
    let ghost st0 = MarkerScan { instances: instance_views(snapshot.instances@), keys: Seq::empty(), removals: Seq::empty() };
    let ghost fv = file_views(files@);
    let ghost start_len = snapshot.instances@.len();
    let mut keys: Vec<(String, String)> = Vec::new();
    let mut removals: Vec<String> = Vec::new();
    assert(key_views(keys@) =~= Seq::<(Seq<char>, Seq<char>)>::empty());
    assert(string_views(removals@) =~= Seq::<Seq<char>>::empty());
    assert(scan_of(*snapshot, keys@, removals@) == st0);
    assert(fv.take(0) =~= Seq::<(Seq<char>, Option<i64>, Option<Seq<char>>)>::empty());
    let mut i: usize = 0;
    while i < files.len()
        invariant
            i <= files.len(),
            fv == file_views(files@),
            start_len + files@.len() + 2 < u32::MAX,
            snapshot.instances@.len() <= start_len + i,
            scan_of(*snapshot, keys@, removals@) == scan_files(st0, fv.take(i as int), now, fv),
            snapshot.status_path == old(snapshot).status_path,
        decreases files.len() - i,
    {
        marker_step_exec(snapshot, &mut keys, &mut removals, &files[i], files, now);
        assert(fv.take(i + 1).drop_last() =~= fv.take(i as int));
        assert(fv.take(i + 1).last() == fv[i as int]);
        i += 1;
    }
    assert(fv.take(files.len() as int) =~= fv);
    legacy_step_exec(snapshot, &mut keys, &mut removals, "codex", "legacy-codex", CODEX_RUNNING_HOLD_FILE_NAME, legacy_codex, now);
    legacy_step_exec(snapshot, &mut keys, &mut removals, "claudeCode", "legacy-claudeCode", CLAUDE_CODE_RUNNING_HOLD_FILE_NAME, legacy_claude, now);
    let ghost scan = scan_of(*snapshot, keys@, removals@);
    let ghost pred = is_retained_in(scan.keys, now);
    let mut all: Vec<AgentInstance> = Vec::new();
    std::mem::swap(&mut all, &mut snapshot.instances);
    let ghost src = all@;
    assert(instance_views(src) == scan.instances);
    let mut kept: Vec<AgentInstance> = Vec::new();
    let mut j: usize = 0;
    while j < all.len()
        invariant
            j <= all.len(),
            all@ == src,
            scan.keys == key_views(keys@),
            pred == is_retained_in(scan.keys, now),
            instance_views(kept@) == instance_views(src.take(j as int)).filter(pred),
        decreases all.len() - j,
    {
        let x = all[j].clone();
        proof {
            assert(src.take(j + 1) =~= src.take(j as int).push(x));
            assert(instance_views(src.take(j + 1)) =~= instance_views(src.take(j as int)).push(x@));
            instance_views(src.take(j as int)).lemma_filter_push(x@, pred);
        }
        if retained_exec(&x, &keys, now) {
            let ghost kb = instance_views(kept@);
            kept.push(x);
            assert(instance_views(kept@) =~= kb.push(x@));
        }
        j += 1;
    }
    assert(src.take(src.len() as int) =~= src);
    snapshot.instances = sort_instances(kept);
    snapshot.updated_at = now;
    removals
}

// ---------------------------------------------------------------------------
// One light per running marker
// ---------------------------------------------------------------------------

/// A phase that a live marker gives: running, or stale for an old marker.
pub open spec fn is_lit(phase: Seq<char>) -> bool {
    phase == "running"@ || phase == "stale"@
}

/// Some instance of the key `k` is lit (running or stale).
pub open spec fn has_running(insts: Seq<InstanceView>, k: (Seq<char>, Seq<char>)) -> bool {
    exists|i: int| 0 <= i < insts.len() && matches_key(#[trigger] insts[i], k.0, k.1) && is_lit(insts[i].phase)
}

/// Every key with a live marker has a lit instance.
pub open spec fn keys_running(st: MarkerScan) -> bool {
    forall|k: (Seq<char>, Seq<char>)| #[trigger] st.keys.contains(k) ==> has_running(st.instances, k)
}

proof fn lemma_upsert_running(insts: Seq<InstanceView>, p: Seq<char>, id: Seq<char>, phase: Seq<char>, t: i64, k: (Seq<char>, Seq<char>))
    requires
        is_lit(phase),
    ensures
        has_running(upsert_spec(insts, p, id, phase, t), (p, id)),
        has_running(insts, k) ==> has_running(upsert_spec(insts, p, id, phase, t), k),
{
    let after = upsert_spec(insts, p, id, phase, t);
    if exists|i: int| is_first_instance(insts, p, id, i) {
        let j = choose|i: int| is_first_instance(insts, p, id, i);
        assert(matches_key(after[j], p, id) && after[j].phase == phase);
        if has_running(insts, k) {
            let i = choose|i: int| 0 <= i < insts.len() && matches_key(#[trigger] insts[i], k.0, k.1) && is_lit(insts[i].phase);
            if i != j {
                assert(after[i] == insts[i]);
            } else {
                assert(matches_key(after[i], k.0, k.1));
            }
        }
    } else {
        let n = insts.len() as int;
        assert(matches_key(after[n], p, id) && after[n].phase == phase);
        if has_running(insts, k) {
            let i = choose|i: int| 0 <= i < insts.len() && matches_key(#[trigger] insts[i], k.0, k.1) && is_lit(insts[i].phase);
            assert(after[i] == insts[i]);
        }
    }
}

/// Marking instances running keeps every key with a live marker running and
/// keeps the keys seen.
proof fn lemma_upsert_keeps_keys_running(st: MarkerScan, p: Seq<char>, id: Seq<char>, phase: Seq<char>, t: i64)
    requires
        keys_running(st),
        is_lit(phase),
    ensures
        keys_running(MarkerScan { instances: upsert_spec(st.instances, p, id, phase, t), keys: st.keys.push((p, id)), ..st }),
{
    let after = upsert_spec(st.instances, p, id, phase, t);
    let keys = st.keys.push((p, id));
    assert forall|k: (Seq<char>, Seq<char>)| #[trigger] keys.contains(k) implies has_running(after, k) by {
        lemma_upsert_running(st.instances, p, id, phase, t, k);
        if k != (p, id) {
            let i = choose|i: int| 0 <= i < keys.len() && keys[i] == k;
            assert(i < st.keys.len());
            assert(st.keys[i] == k);
            assert(st.keys.contains(k));
        }
    }
}

proof fn lemma_marker_step_keeps(st: MarkerScan, name: Seq<char>, modified: Option<i64>, content: Option<Seq<char>>, now: i64, all: Seq<(Seq<char>, Option<i64>, Option<Seq<char>>)>)
    requires
        keys_running(st),
    ensures
        keys_running(marker_step(st, name, modified, content, now, all)),
        forall|k: (Seq<char>, Seq<char>)| st.keys.contains(k) ==> #[trigger] marker_step(st, name, modified, content, now, all).keys.contains(k),
        running_marker(name) matches Some(k) ==> marker_step(st, name, modified, content, now, all).keys.contains(k),
{
    let next = marker_step(st, name, modified, content, now, all);
    match running_marker(name) {
        Some(k) => {
            lemma_upsert_keeps_keys_running(st, k.0, k.1, running_marker_phase(modified, now, hold_visible_in(all, k, now)), modified_or(modified, now));
            assert(next.keys[next.keys.len() - 1] == k);
        },
        None => match hold_marker(name) {
            Some(k) => if hold_visible_until(content) > now {
                lemma_upsert_keeps_keys_running(st, k.0, k.1, "running"@, now);
            },
            None => {},
        },
    }
    assert forall|k: (Seq<char>, Seq<char>)| st.keys.contains(k) implies #[trigger] next.keys.contains(k) by {
        let i = choose|i: int| 0 <= i < st.keys.len() && st.keys[i] == k;
        assert(next.keys[i] == k);
    }
}

proof fn lemma_scan_files_keeps(st: MarkerScan, files: Seq<(Seq<char>, Option<i64>, Option<Seq<char>>)>, now: i64, all: Seq<(Seq<char>, Option<i64>, Option<Seq<char>>)>)
    requires
        keys_running(st),
    ensures
        keys_running(scan_files(st, files, now, all)),
        forall|k: (Seq<char>, Seq<char>)| st.keys.contains(k) ==> #[trigger] scan_files(st, files, now, all).keys.contains(k),
        forall|f: int| 0 <= f < files.len() && (#[trigger] running_marker(files[f].0)) is Some ==> scan_files(st, files, now, all).keys.contains(
            running_marker(files[f].0)->Some_0,
        ),
    decreases files.len(),
{
    if files.len() > 0 {
        let rest = files.drop_last();
        let last = files.last();
        lemma_scan_files_keeps(st, rest, now, all);
        let mid = scan_files(st, rest, now, all);
        lemma_marker_step_keeps(mid, last.0, last.1, last.2, now, all);
        let fin = scan_files(st, files, now, all);
        assert forall|f: int| 0 <= f < files.len() && (#[trigger] running_marker(files[f].0)) is Some implies fin.keys.contains(
            running_marker(files[f].0)->Some_0,
        ) by {
            if f < files.len() - 1 {
                assert(files[f] == rest[f]);
                assert(mid.keys.contains(running_marker(rest[f].0)->Some_0));
            }
        }
    }
}

proof fn lemma_legacy_step_keeps(
    st: MarkerScan,
    provider: Seq<char>,
    id: Seq<char>,
    hold_name: Seq<char>,
    running: bool,
    modified: Option<i64>,
    hold_content: Option<Seq<char>>,
    now: i64,
)
    requires
        keys_running(st),
    ensures
        keys_running(legacy_step(st, provider, id, hold_name, running, modified, hold_content, now)),
        forall|k: (Seq<char>, Seq<char>)| st.keys.contains(k) ==> #[trigger] legacy_step(st, provider, id, hold_name, running, modified, hold_content, now).keys.contains(k),
{
    let next = legacy_step(st, provider, id, hold_name, running, modified, hold_content, now);
    if running {
        lemma_upsert_keeps_keys_running(st, provider, id, running_marker_phase(modified, now, hold_visible_until(hold_content) > now), modified_or(modified, now));
    } else if hold_visible_until(hold_content) > now {
        lemma_upsert_keeps_keys_running(st, provider, id, "running"@, now);
    }
    assert forall|k: (Seq<char>, Seq<char>)| st.keys.contains(k) implies #[trigger] next.keys.contains(k) by {
        let i = choose|i: int| 0 <= i < st.keys.len() && st.keys[i] == k;
        assert(next.keys[i] == k);
    }
}

/// Each running marker file lights its own instance: after the markers are
/// applied, the instance of the marker's provider and id is listed, running
/// or stale.
pub proof fn lemma_running_marker_listed(
    instances: Seq<InstanceView>,
    files: Seq<MarkerFile>,
    legacy_codex: LegacyMarkers,
    legacy_claude: LegacyMarkers,
    now: i64,
    f: int,
)
    requires
        0 <= f < files.len(),
        running_marker(files[f].name@) is Some,
    ensures
        ({
            let scan = marker_scan(instances, files, legacy_codex, legacy_claude, now);
            let k = running_marker(files[f].name@)->Some_0;
            exists|v: InstanceView| #[trigger] scan.instances.filter(is_retained_in(scan.keys, now)).contains(v)
                && v.provider == k.0 && v.id == k.1 && is_lit(v.phase)
        }),
{
    let st0 = MarkerScan { instances, keys: Seq::empty(), removals: Seq::empty() };
    let fv = file_views(files);
    let k = running_marker(files[f].name@)->Some_0;
    assert(fv[f].0 == files[f].name@);
    lemma_scan_files_keeps(st0, fv, now, fv);
    let st1 = scan_files(st0, fv, now, fv);
    assert(st1.keys.contains(k));
    lemma_legacy_step_keeps(st1, "codex"@, "legacy-codex"@, CODEX_RUNNING_HOLD_FILE_NAME@, legacy_codex.running,
        legacy_codex.running_modified_at, opt_view(legacy_codex.hold_content), now);
    let st2 = legacy_step(st1, "codex"@, "legacy-codex"@, CODEX_RUNNING_HOLD_FILE_NAME@, legacy_codex.running,
        legacy_codex.running_modified_at, opt_view(legacy_codex.hold_content), now);
    lemma_legacy_step_keeps(st2, "claudeCode"@, "legacy-claudeCode"@, CLAUDE_CODE_RUNNING_HOLD_FILE_NAME@,
        legacy_claude.running, legacy_claude.running_modified_at, opt_view(legacy_claude.hold_content), now);
    let scan = marker_scan(instances, files, legacy_codex, legacy_claude, now);
    assert(scan.keys.contains(k));
    assert(has_running(scan.instances, k));
    let i = choose|i: int| 0 <= i < scan.instances.len() && matches_key(#[trigger] scan.instances[i], k.0, k.1)
        && is_lit(scan.instances[i].phase);
    let v = scan.instances[i];
    let pred = is_retained_in(scan.keys, now);
    assert(scan.keys.contains((v.provider, v.id)));
    assert(pred(v));
    assert(scan.instances.filter(pred).contains(v)) by {
        broadcast use vstd::seq_lib::group_filter_ensures;
    }
}

// ---------------------------------------------------------------------------
// Old running markers
// ---------------------------------------------------------------------------

/// The first instance of the key `k` has the phase `ph`.
pub open spec fn first_in_phase(insts: Seq<InstanceView>, k: (Seq<char>, Seq<char>), ph: Seq<char>) -> bool {
    exists|i: int| is_first_instance(insts, k.0, k.1, i) && insts[i].phase == ph
}

/// The first instance of the key `k` is stale.
pub open spec fn stale_first(insts: Seq<InstanceView>, k: (Seq<char>, Seq<char>)) -> bool {
    first_in_phase(insts, k, "stale"@)
}

proof fn lemma_first_exists(insts: Seq<InstanceView>, p: Seq<char>, id: Seq<char>, i: int)
    requires
        0 <= i < insts.len(),
        matches_key(insts[i], p, id),
    ensures
        exists|j: int| is_first_instance(insts, p, id, j),
    decreases i,
{
    if exists|j: int| 0 <= j < i && matches_key(#[trigger] insts[j], p, id) {
        let j = choose|j: int| 0 <= j < i && matches_key(#[trigger] insts[j], p, id);
        lemma_first_exists(insts, p, id, j);
    } else {
        assert(is_first_instance(insts, p, id, i));
    }
}

proof fn lemma_upsert_stale_first(insts: Seq<InstanceView>, p: Seq<char>, id: Seq<char>, phase: Seq<char>, t: i64, k: (Seq<char>, Seq<char>))
    requires
        (p, id) == k ==> phase == "stale"@,
        (p, id) != k ==> stale_first(insts, k),
    ensures
        stale_first(upsert_spec(insts, p, id, phase, t), k),
{
    lemma_upsert_first_phase(insts, p, id, phase, t, k, "stale"@);
}

proof fn lemma_upsert_first_phase(insts: Seq<InstanceView>, p: Seq<char>, id: Seq<char>, phase: Seq<char>, t: i64, k: (Seq<char>, Seq<char>), ph: Seq<char>)
    requires
        (p, id) == k ==> phase == ph,
        (p, id) != k ==> first_in_phase(insts, k, ph),
    ensures
        first_in_phase(upsert_spec(insts, p, id, phase, t), k, ph),
{
    let after = upsert_spec(insts, p, id, phase, t);
    if (p, id) == k {
        if exists|i: int| is_first_instance(insts, p, id, i) {
            let j = choose|i: int| is_first_instance(insts, p, id, i);
            assert forall|m: int| 0 <= m < j implies !matches_key(#[trigger] after[m], p, id) by {
                assert(after[m] == insts[m]);
            }
            assert(is_first_instance(after, k.0, k.1, j));
        } else {
            let n = insts.len() as int;
            assert forall|m: int| 0 <= m < n implies !matches_key(#[trigger] after[m], p, id) by {
                assert(after[m] == insts[m]);
                if matches_key(insts[m], p, id) {
                    lemma_first_exists(insts, p, id, m);
                }
            }
            assert(is_first_instance(after, k.0, k.1, n));
        }
    } else {
        let i = choose|i: int| is_first_instance(insts, k.0, k.1, i) && insts[i].phase == ph;
        if exists|j: int| is_first_instance(insts, p, id, j) {
            let j = choose|j: int| is_first_instance(insts, p, id, j);
            assert(i != j);
            assert forall|m: int| 0 <= m < i implies !matches_key(#[trigger] after[m], k.0, k.1) by {
                if m == j {
                } else {
                    assert(after[m] == insts[m]);
                }
            }
            assert(after[i] == insts[i]);
            assert(is_first_instance(after, k.0, k.1, i));
        } else {
            assert forall|m: int| 0 <= m < i implies !matches_key(#[trigger] after[m], k.0, k.1) by {
                assert(after[m] == insts[m]);
            }
            assert(after[i] == insts[i]);
            assert(is_first_instance(after, k.0, k.1, i));
        }
    }
}

/// A running marker file of the key `k`, if `f` is one, is old enough to be
/// stale.
pub open spec fn keeps_stale(f: (Seq<char>, Option<i64>, Option<Seq<char>>), k: (Seq<char>, Seq<char>), now: i64) -> bool {
    running_marker(f.0) == Some(k) ==> running_marker_phase(f.1, now, false) == "stale"@
}

proof fn lemma_marker_step_stale(st: MarkerScan, f: (Seq<char>, Option<i64>, Option<Seq<char>>), k: (Seq<char>, Seq<char>), now: i64, all: Seq<(Seq<char>, Option<i64>, Option<Seq<char>>)>)
    requires
        stale_first(st.instances, k),
        keeps_stale(f, k, now),
        !hold_visible_in(all, k, now),
        (running_marker(f.0) is None && hold_marker(f.0) == Some(k)) ==> hold_visible_until(f.2) <= now,
    ensures
        stale_first(marker_step(st, f.0, f.1, f.2, now, all).instances, k),
{
    match running_marker(f.0) {
        Some(r) => lemma_upsert_stale_first(st.instances, r.0, r.1, running_marker_phase(f.1, now, hold_visible_in(all, r, now)), modified_or(f.1, now), k),
        None => match hold_marker(f.0) {
            Some(h) => if hold_visible_until(f.2) > now {
                lemma_upsert_stale_first(st.instances, h.0, h.1, "running"@, now, k);
            },
            None => {},
        },
    }
}

proof fn lemma_scan_files_stale(
    st: MarkerScan,
    files: Seq<(Seq<char>, Option<i64>, Option<Seq<char>>)>,
    f: int,
    k: (Seq<char>, Seq<char>),
    now: i64,
    n: int,
)
    requires
        0 <= f < n <= files.len(),
        running_marker(files[f].0) == Some(k),
        running_marker_phase(files[f].1, now, false) == "stale"@,
        !hold_visible_in(files, k, now),
        forall|g: int| f < g < files.len() ==> keeps_stale(#[trigger] files[g], k, now),
    ensures
        stale_first(scan_files(st, files.take(n), now, files).instances, k),
    decreases n,
{
    let w = files.take(n);
    assert(w.drop_last() =~= files.take(n - 1));
    assert(w.last() == files[n - 1]);
    let mid = scan_files(st, files.take(n - 1), now, files);
    if n - 1 == f {
        lemma_upsert_stale_first(mid.instances, k.0, k.1, "stale"@, modified_or(files[f].1, now), k);
    } else {
        lemma_scan_files_stale(st, files, f, k, now, n - 1);
        let g = n - 1;
        if running_marker(files[g].0) is None && hold_marker(files[g].0) == Some(k) {
            assert(hold_visible_until(files[g].2) <= now);
        }
        lemma_marker_step_stale(mid, files[n - 1], k, now, files);
    }
}

/// The legacy markers of one provider leave the key `k` as it is.
pub open spec fn legacy_keeps_stale(provider: Seq<char>, id: Seq<char>, legacy: LegacyMarkers, k: (Seq<char>, Seq<char>), now: i64) -> bool {
    (provider, id) == k ==> if legacy.running {
        running_marker_phase(legacy.running_modified_at, now, hold_visible_until(opt_view(legacy.hold_content)) > now) == "stale"@
    } else {
        hold_visible_until(opt_view(legacy.hold_content)) <= now
    }
}

proof fn lemma_legacy_step_stale(st: MarkerScan, provider: Seq<char>, id: Seq<char>, hold_name: Seq<char>, legacy: LegacyMarkers, k: (Seq<char>, Seq<char>), now: i64)
    requires
        stale_first(st.instances, k),
        legacy_keeps_stale(provider, id, legacy, k, now),
    ensures
        stale_first(legacy_step(st, provider, id, hold_name, legacy.running, legacy.running_modified_at, opt_view(legacy.hold_content), now).instances, k),
{
    if legacy.running {
        lemma_upsert_stale_first(st.instances, provider, id,
            running_marker_phase(legacy.running_modified_at, now, hold_visible_until(opt_view(legacy.hold_content)) > now),
            modified_or(legacy.running_modified_at, now), k);
    } else if hold_visible_until(opt_view(legacy.hold_content)) > now {
        lemma_upsert_stale_first(st.instances, provider, id, "running"@, now, k);
    }
}

/// A running marker modified more than ten minutes before `now` shows its
/// instance stale: after the markers are applied, the instance of the
/// marker's provider and id is listed with phase `stale`, unless a visible
/// hold marker keeps it running, or a legacy marker for the same provider
/// and id lights it running.
pub proof fn lemma_old_running_marker_stale(
    instances: Seq<InstanceView>,
    files: Seq<MarkerFile>,
    legacy_codex: LegacyMarkers,
    legacy_claude: LegacyMarkers,
    now: i64,
    f: int,
)
    requires
        0 <= f < files.len(),
        running_marker(files[f].name@) is Some,
        files[f].modified_at matches Some(m) && now - m > 600_000,
        !hold_visible_in(file_views(files), running_marker(files[f].name@)->Some_0, now),
        forall|g: int| f < g < files.len() ==> keeps_stale(
            #[trigger] file_views(files)[g],
            running_marker(files[f].name@)->Some_0,
            now,
        ),
        legacy_keeps_stale("codex"@, "legacy-codex"@, legacy_codex, running_marker(files[f].name@)->Some_0, now),
        legacy_keeps_stale("claudeCode"@, "legacy-claudeCode"@, legacy_claude, running_marker(files[f].name@)->Some_0, now),
    ensures
        ({
            let scan = marker_scan(instances, files, legacy_codex, legacy_claude, now);
            let k = running_marker(files[f].name@)->Some_0;
            exists|v: InstanceView| #[trigger] scan.instances.filter(is_retained_in(scan.keys, now)).contains(v)
                && v.provider == k.0 && v.id == k.1 && v.phase == "stale"@
        }),
{
    let st0 = MarkerScan { instances, keys: Seq::empty(), removals: Seq::empty() };
    let fv = file_views(files);
    let k = running_marker(files[f].name@)->Some_0;
    assert(fv[f].0 == files[f].name@ && fv[f].1 == files[f].modified_at);
    lemma_scan_files_stale(st0, fv, f, k, now, fv.len() as int);
    assert(fv.take(fv.len() as int) =~= fv);
    let st1 = scan_files(st0, fv, now, fv);
    lemma_legacy_step_stale(st1, "codex"@, "legacy-codex"@, CODEX_RUNNING_HOLD_FILE_NAME@, legacy_codex, k, now);
    let st2 = legacy_step(st1, "codex"@, "legacy-codex"@, CODEX_RUNNING_HOLD_FILE_NAME@, legacy_codex.running,
        legacy_codex.running_modified_at, opt_view(legacy_codex.hold_content), now);
    lemma_legacy_step_stale(st2, "claudeCode"@, "legacy-claudeCode"@, CLAUDE_CODE_RUNNING_HOLD_FILE_NAME@, legacy_claude, k, now);
    let scan = marker_scan(instances, files, legacy_codex, legacy_claude, now);
    let i = choose|i: int| is_first_instance(scan.instances, k.0, k.1, i) && scan.instances[i].phase == "stale"@;
    let v = scan.instances[i];
    let pred = is_retained_in(scan.keys, now);
    assert(pred(v));
    assert(scan.instances.filter(pred).contains(v)) by {
        broadcast use vstd::seq_lib::group_filter_ensures;
    }
}

/// A marker file is consistent with the phase `ph` for the key `k`: as a
/// running marker of `k` it gives `ph`, and as a visible hold marker of `k`
/// it gives `running`, which is then `ph`.
pub open spec fn file_gives_phase(f: (Seq<char>, Option<i64>, Option<Seq<char>>), k: (Seq<char>, Seq<char>), now: i64, all: Seq<(Seq<char>, Option<i64>, Option<Seq<char>>)>, ph: Seq<char>) -> bool {
    &&& running_marker(f.0) == Some(k) ==> running_marker_phase(f.1, now, hold_visible_in(all, k, now)) == ph
    &&& (running_marker(f.0) is None && hold_marker(f.0) == Some(k) && hold_visible_until(f.2) > now) ==> ph == "running"@
}

proof fn lemma_marker_step_phase(st: MarkerScan, f: (Seq<char>, Option<i64>, Option<Seq<char>>), k: (Seq<char>, Seq<char>), now: i64, all: Seq<(Seq<char>, Option<i64>, Option<Seq<char>>)>, ph: Seq<char>)
    requires
        first_in_phase(st.instances, k, ph),
        file_gives_phase(f, k, now, all, ph),
    ensures
        first_in_phase(marker_step(st, f.0, f.1, f.2, now, all).instances, k, ph),
{
    match running_marker(f.0) {
        Some(r) => lemma_upsert_first_phase(st.instances, r.0, r.1, running_marker_phase(f.1, now, hold_visible_in(all, r, now)), modified_or(f.1, now), k, ph),
        None => match hold_marker(f.0) {
            Some(h) => if hold_visible_until(f.2) > now {
                lemma_upsert_first_phase(st.instances, h.0, h.1, "running"@, now, k, ph);
            },
            None => {},
        },
    }
}

proof fn lemma_scan_files_phase(
    st: MarkerScan,
    files: Seq<(Seq<char>, Option<i64>, Option<Seq<char>>)>,
    f: int,
    k: (Seq<char>, Seq<char>),
    now: i64,
    n: int,
    ph: Seq<char>,
)
    requires
        0 <= f < n <= files.len(),
        running_marker(files[f].0) == Some(k),
        running_marker_phase(files[f].1, now, hold_visible_in(files, k, now)) == ph,
        forall|g: int| f < g < files.len() ==> file_gives_phase(#[trigger] files[g], k, now, files, ph),
    ensures
        first_in_phase(scan_files(st, files.take(n), now, files).instances, k, ph),
    decreases n,
{
    let w = files.take(n);
    assert(w.drop_last() =~= files.take(n - 1));
    assert(w.last() == files[n - 1]);
    let mid = scan_files(st, files.take(n - 1), now, files);
    if n - 1 == f {
        lemma_upsert_first_phase(mid.instances, k.0, k.1, ph, modified_or(files[f].1, now), k, ph);
    } else {
        lemma_scan_files_phase(st, files, f, k, now, n - 1, ph);
        lemma_marker_step_phase(mid, files[n - 1], k, now, files, ph);
    }
}

/// The legacy markers of one provider are consistent with the phase `ph`
/// for the key `k`.
pub open spec fn legacy_gives_phase(provider: Seq<char>, id: Seq<char>, legacy: LegacyMarkers, k: (Seq<char>, Seq<char>), now: i64, ph: Seq<char>) -> bool {
    (provider, id) == k ==> if legacy.running {
        running_marker_phase(legacy.running_modified_at, now, hold_visible_until(opt_view(legacy.hold_content)) > now) == ph
    } else {
        hold_visible_until(opt_view(legacy.hold_content)) > now ==> ph == "running"@
    }
}

proof fn lemma_legacy_step_phase(st: MarkerScan, provider: Seq<char>, id: Seq<char>, hold_name: Seq<char>, legacy: LegacyMarkers, k: (Seq<char>, Seq<char>), now: i64, ph: Seq<char>)
    requires
        first_in_phase(st.instances, k, ph),
        legacy_gives_phase(provider, id, legacy, k, now, ph),
    ensures
        first_in_phase(legacy_step(st, provider, id, hold_name, legacy.running, legacy.running_modified_at, opt_view(legacy.hold_content), now).instances, k, ph),
{
    if legacy.running {
        lemma_upsert_first_phase(st.instances, provider, id,
            running_marker_phase(legacy.running_modified_at, now, hold_visible_until(opt_view(legacy.hold_content)) > now),
            modified_or(legacy.running_modified_at, now), k, ph);
    } else if hold_visible_until(opt_view(legacy.hold_content)) > now {
        lemma_upsert_first_phase(st.instances, provider, id, "running"@, now, k, ph);
    }
}

/// A running marker modified at most ten minutes (600 000 ms) before `now`,
/// or at an unknown time, shows its instance running: after the markers
/// are applied, the instance of the marker's provider and id is listed with
/// phase `running`, unless a later running marker file or a legacy marker
/// of the same provider and id shows it stale.
pub proof fn lemma_fresh_running_marker_running(
    instances: Seq<InstanceView>,
    files: Seq<MarkerFile>,
    legacy_codex: LegacyMarkers,
    legacy_claude: LegacyMarkers,
    now: i64,
    f: int,
)
    requires
        0 <= f < files.len(),
        running_marker(files[f].name@) is Some,
        files[f].modified_at matches Some(m) ==> now - m <= 600_000,
        forall|g: int| f < g < files.len() ==> file_gives_phase(
            #[trigger] file_views(files)[g],
            running_marker(files[f].name@)->Some_0,
            now,
            file_views(files),
            "running"@,
        ),
        legacy_gives_phase("codex"@, "legacy-codex"@, legacy_codex, running_marker(files[f].name@)->Some_0, now, "running"@),
        legacy_gives_phase("claudeCode"@, "legacy-claudeCode"@, legacy_claude, running_marker(files[f].name@)->Some_0, now, "running"@),
    ensures
        ({
            let scan = marker_scan(instances, files, legacy_codex, legacy_claude, now);
            let k = running_marker(files[f].name@)->Some_0;
            exists|v: InstanceView| #[trigger] scan.instances.filter(is_retained_in(scan.keys, now)).contains(v)
                && v.provider == k.0 && v.id == k.1 && v.phase == "running"@
        }),
{
    let st0 = MarkerScan { instances, keys: Seq::empty(), removals: Seq::empty() };
    let fv = file_views(files);
    let k = running_marker(files[f].name@)->Some_0;
    assert(fv[f].0 == files[f].name@ && fv[f].1 == files[f].modified_at);
    lemma_scan_files_phase(st0, fv, f, k, now, fv.len() as int, "running"@);
    assert(fv.take(fv.len() as int) =~= fv);
    assert(keys_running(st0));
    lemma_scan_files_keeps(st0, fv, now, fv);
    let st1 = scan_files(st0, fv, now, fv);
    assert(st1.keys.contains(k));
    lemma_legacy_step_phase(st1, "codex"@, "legacy-codex"@, CODEX_RUNNING_HOLD_FILE_NAME@, legacy_codex, k, now, "running"@);
    lemma_legacy_step_keeps(st1, "codex"@, "legacy-codex"@, CODEX_RUNNING_HOLD_FILE_NAME@, legacy_codex.running,
        legacy_codex.running_modified_at, opt_view(legacy_codex.hold_content), now);
    let st2 = legacy_step(st1, "codex"@, "legacy-codex"@, CODEX_RUNNING_HOLD_FILE_NAME@, legacy_codex.running,
        legacy_codex.running_modified_at, opt_view(legacy_codex.hold_content), now);
    lemma_legacy_step_phase(st2, "claudeCode"@, "legacy-claudeCode"@, CLAUDE_CODE_RUNNING_HOLD_FILE_NAME@, legacy_claude, k, now, "running"@);
    lemma_legacy_step_keeps(st2, "claudeCode"@, "legacy-claudeCode"@, CLAUDE_CODE_RUNNING_HOLD_FILE_NAME@,
        legacy_claude.running, legacy_claude.running_modified_at, opt_view(legacy_claude.hold_content), now);
    let scan = marker_scan(instances, files, legacy_codex, legacy_claude, now);
    assert(scan.keys.contains(k));
    let i = choose|i: int| is_first_instance(scan.instances, k.0, k.1, i) && scan.instances[i].phase == "running"@;
    let v = scan.instances[i];
    let pred = is_retained_in(scan.keys, now);
    assert(pred(v));
    assert(scan.instances.filter(pred).contains(v)) by {
        broadcast use vstd::seq_lib::group_filter_ensures;
    }
}

proof fn lemma_marker_step_grows(st: MarkerScan, f: (Seq<char>, Option<i64>, Option<Seq<char>>), now: i64, all: Seq<(Seq<char>, Option<i64>, Option<Seq<char>>)>)
    ensures
        forall|k: (Seq<char>, Seq<char>)| st.keys.contains(k) ==> #[trigger] marker_step(st, f.0, f.1, f.2, now, all).keys.contains(k),
        forall|n: Seq<char>| st.removals.contains(n) ==> #[trigger] marker_step(st, f.0, f.1, f.2, now, all).removals.contains(n),
{
    let next = marker_step(st, f.0, f.1, f.2, now, all);
    assert forall|k: (Seq<char>, Seq<char>)| st.keys.contains(k) implies #[trigger] next.keys.contains(k) by {
        let i = choose|i: int| 0 <= i < st.keys.len() && st.keys[i] == k;
        assert(next.keys[i] == k);
    }
    assert forall|n: Seq<char>| st.removals.contains(n) implies #[trigger] next.removals.contains(n) by {
        let i = choose|i: int| 0 <= i < st.removals.len() && st.removals[i] == n;
        assert(next.removals[i] == n);
    }
}

proof fn lemma_legacy_step_grows(st: MarkerScan, provider: Seq<char>, id: Seq<char>, hold_name: Seq<char>, legacy: LegacyMarkers, now: i64)
    ensures
        ({
            let next = legacy_step(st, provider, id, hold_name, legacy.running, legacy.running_modified_at, opt_view(legacy.hold_content), now);
            &&& forall|k: (Seq<char>, Seq<char>)| st.keys.contains(k) ==> #[trigger] next.keys.contains(k)
            &&& forall|n: Seq<char>| st.removals.contains(n) ==> #[trigger] next.removals.contains(n)
        }),
{
    let next = legacy_step(st, provider, id, hold_name, legacy.running, legacy.running_modified_at, opt_view(legacy.hold_content), now);
    assert forall|k: (Seq<char>, Seq<char>)| st.keys.contains(k) implies #[trigger] next.keys.contains(k) by {
        let i = choose|i: int| 0 <= i < st.keys.len() && st.keys[i] == k;
        assert(next.keys[i] == k);
    }
    assert forall|n: Seq<char>| st.removals.contains(n) implies #[trigger] next.removals.contains(n) by {
        let i = choose|i: int| 0 <= i < st.removals.len() && st.removals[i] == n;
        assert(next.removals[i] == n);
    }
}

proof fn lemma_scan_files_hold(st: MarkerScan, files: Seq<(Seq<char>, Option<i64>, Option<Seq<char>>)>, f: int, k: (Seq<char>, Seq<char>), now: i64, n: int)
    requires
        0 <= f < n <= files.len(),
        running_marker(files[f].0) is None,
        hold_marker(files[f].0) == Some(k),
        hold_visible_until(files[f].2) > now,
        forall|g: int| f < g < files.len() ==> file_gives_phase(#[trigger] files[g], k, now, files, "running"@),
    ensures
        first_in_phase(scan_files(st, files.take(n), now, files).instances, k, "running"@),
        scan_files(st, files.take(n), now, files).keys.contains(k),
    decreases n,
{
    let w = files.take(n);
    assert(w.drop_last() =~= files.take(n - 1));
    assert(w.last() == files[n - 1]);
    let mid = scan_files(st, files.take(n - 1), now, files);
    let next = scan_files(st, files.take(n), now, files);
    if n - 1 == f {
        lemma_upsert_first_phase(mid.instances, k.0, k.1, "running"@, now, k, "running"@);
        assert(next.keys[next.keys.len() - 1] == k);
    } else {
        lemma_scan_files_hold(st, files, f, k, now, n - 1);
        lemma_marker_step_phase(mid, files[n - 1], k, now, files, "running"@);
        lemma_marker_step_grows(mid, files[n - 1], now, files);
    }
}

/// A hold marker whose text is a number after `now` keeps its instance
/// listed as running, unless a later running marker file or a legacy marker
/// of the same provider and id shows it stale.
pub proof fn lemma_visible_hold_marker_running(
    instances: Seq<InstanceView>,
    files: Seq<MarkerFile>,
    legacy_codex: LegacyMarkers,
    legacy_claude: LegacyMarkers,
    now: i64,
    f: int,
)
    requires
        0 <= f < files.len(),
        running_marker(files[f].name@) is None,
        hold_marker(files[f].name@) is Some,
        files[f].content matches Some(c) && parse_i64(trim(c@)) matches Some(until) && until > now,
        forall|g: int| f < g < files.len() ==> file_gives_phase(
            #[trigger] file_views(files)[g],
            hold_marker(files[f].name@)->Some_0,
            now,
            file_views(files),
            "running"@,
        ),
        legacy_gives_phase("codex"@, "legacy-codex"@, legacy_codex, hold_marker(files[f].name@)->Some_0, now, "running"@),
        legacy_gives_phase("claudeCode"@, "legacy-claudeCode"@, legacy_claude, hold_marker(files[f].name@)->Some_0, now, "running"@),
    ensures
        ({
            let scan = marker_scan(instances, files, legacy_codex, legacy_claude, now);
            let k = hold_marker(files[f].name@)->Some_0;
            exists|v: InstanceView| #[trigger] scan.instances.filter(is_retained_in(scan.keys, now)).contains(v)
                && v.provider == k.0 && v.id == k.1 && v.phase == "running"@
        }),
{
    let st0 = MarkerScan { instances, keys: Seq::empty(), removals: Seq::empty() };
    let fv = file_views(files);
    let k = hold_marker(files[f].name@)->Some_0;
    assert(fv[f].0 == files[f].name@ && fv[f].2 == opt_view(files[f].content));
    lemma_scan_files_hold(st0, fv, f, k, now, fv.len() as int);
    assert(fv.take(fv.len() as int) =~= fv);
    let st1 = scan_files(st0, fv, now, fv);
    lemma_legacy_step_phase(st1, "codex"@, "legacy-codex"@, CODEX_RUNNING_HOLD_FILE_NAME@, legacy_codex, k, now, "running"@);
    lemma_legacy_step_grows(st1, "codex"@, "legacy-codex"@, CODEX_RUNNING_HOLD_FILE_NAME@, legacy_codex, now);
    let st2 = legacy_step(st1, "codex"@, "legacy-codex"@, CODEX_RUNNING_HOLD_FILE_NAME@, legacy_codex.running,
        legacy_codex.running_modified_at, opt_view(legacy_codex.hold_content), now);
    lemma_legacy_step_phase(st2, "claudeCode"@, "legacy-claudeCode"@, CLAUDE_CODE_RUNNING_HOLD_FILE_NAME@, legacy_claude, k, now, "running"@);
    lemma_legacy_step_grows(st2, "claudeCode"@, "legacy-claudeCode"@, CLAUDE_CODE_RUNNING_HOLD_FILE_NAME@, legacy_claude, now);
    let scan = marker_scan(instances, files, legacy_codex, legacy_claude, now);
    assert(scan.keys.contains(k));
    let i = choose|i: int| is_first_instance(scan.instances, k.0, k.1, i) && scan.instances[i].phase == "running"@;
    let v = scan.instances[i];
    let pred = is_retained_in(scan.keys, now);
    assert(pred(v));
    assert(scan.instances.filter(pred).contains(v)) by {
        broadcast use vstd::seq_lib::group_filter_ensures;
    }
}

proof fn lemma_scan_files_removes(st: MarkerScan, files: Seq<(Seq<char>, Option<i64>, Option<Seq<char>>)>, now: i64, all: Seq<(Seq<char>, Option<i64>, Option<Seq<char>>)>, f: int)
    requires
        0 <= f < files.len(),
        running_marker(files[f].0) is None,
        hold_marker(files[f].0) is Some,
        hold_visible_until(files[f].2) <= now,
    ensures
        scan_files(st, files, now, all).removals.contains(files[f].0),
    decreases files.len(),
{
    let rest = files.drop_last();
    let mid = scan_files(st, rest, now, all);
    let next = scan_files(st, files, now, all);
    if f == files.len() - 1 {
        assert(next.removals[next.removals.len() - 1] == files[f].0);
    } else {
        assert(rest[f] == files[f]);
        lemma_scan_files_removes(st, rest, now, all, f);
        lemma_marker_step_grows(mid, files.last(), now, all);
    }
}

/// A hold marker that is no longer visible (its text is a number not after
/// `now`, or is no number and `now` is not before time 0) is among the
/// files to delete.
pub proof fn lemma_expired_hold_marker_removed(
    instances: Seq<InstanceView>,
    files: Seq<MarkerFile>,
    legacy_codex: LegacyMarkers,
    legacy_claude: LegacyMarkers,
    now: i64,
    f: int,
)
    requires
        0 <= f < files.len(),
        running_marker(files[f].name@) is None,
        hold_marker(files[f].name@) is Some,
        match files[f].content {
            Some(c) => match parse_i64(trim(c@)) {
                Some(until) => until <= now,
                None => 0 <= now,
            },
            None => 0 <= now,
        },
    ensures
        marker_scan(instances, files, legacy_codex, legacy_claude, now).removals.contains(files[f].name@),
{
    let st0 = MarkerScan { instances, keys: Seq::empty(), removals: Seq::empty() };
    let fv = file_views(files);
    assert(fv[f].0 == files[f].name@ && fv[f].2 == opt_view(files[f].content));
    match files[f].content {
        Some(c) => assert(fv[f].2 == Some(c@)),
        None => assert(fv[f].2 is None),
    }
    assert(hold_visible_until(fv[f].2) <= now);
    lemma_scan_files_removes(st0, fv, now, fv, f);
    let st1 = scan_files(st0, fv, now, fv);
    lemma_legacy_step_grows(st1, "codex"@, "legacy-codex"@, CODEX_RUNNING_HOLD_FILE_NAME@, legacy_codex, now);
    let st2 = legacy_step(st1, "codex"@, "legacy-codex"@, CODEX_RUNNING_HOLD_FILE_NAME@, legacy_codex.running,
        legacy_codex.running_modified_at, opt_view(legacy_codex.hold_content), now);
    lemma_legacy_step_grows(st2, "claudeCode"@, "legacy-claudeCode"@, CLAUDE_CODE_RUNNING_HOLD_FILE_NAME@, legacy_claude, now);
}

// ---------------------------------------------------------------------------
// Instances without markers
// ---------------------------------------------------------------------------

/// No file of `files` marks the key `k`: none is its running marker, and
/// none is a visible hold marker of it.
pub open spec fn files_leave_key(files: Seq<(Seq<char>, Option<i64>, Option<Seq<char>>)>, k: (Seq<char>, Seq<char>), now: i64) -> bool {
    forall|g: int|
        0 <= g < files.len() ==> #[trigger] running_marker(files[g].0) != Some(k) && !(running_marker(files[g].0) is None
            && hold_marker(files[g].0) == Some(k) && hold_visible_until(files[g].2) > now)
}

/// The legacy markers of one provider do not mark the key `k`.
pub open spec fn legacy_leaves_key(provider: Seq<char>, id: Seq<char>, legacy: LegacyMarkers, k: (Seq<char>, Seq<char>), now: i64) -> bool {
    (provider, id) == k ==> !legacy.running && hold_visible_until(opt_view(legacy.hold_content)) <= now
}

/// The instance at `i` and the keys seen so far do not concern `k`.
spec fn untouched(st: MarkerScan, i: int, v: InstanceView) -> bool {
    &&& 0 <= i < st.instances.len()
    &&& st.instances[i] == v
    &&& !st.keys.contains((v.provider, v.id))
}

proof fn lemma_upsert_other(st: MarkerScan, i: int, v: InstanceView, p: Seq<char>, id: Seq<char>, phase: Seq<char>, t: i64)
    requires
        untouched(st, i, v),
        (p, id) != (v.provider, v.id),
    ensures
        untouched(MarkerScan { instances: upsert_spec(st.instances, p, id, phase, t), keys: st.keys.push((p, id)), ..st }, i, v),
{
    let after = upsert_spec(st.instances, p, id, phase, t);
    if exists|j: int| is_first_instance(st.instances, p, id, j) {
        let j = choose|j: int| is_first_instance(st.instances, p, id, j);
        assert(j != i);
        assert(after[i] == v);
    } else {
        assert(after[i] == v);
    }
    let keys = st.keys.push((p, id));
    if keys.contains((v.provider, v.id)) {
        let w = choose|w: int| 0 <= w < keys.len() && keys[w] == (v.provider, v.id);
        assert(w < st.keys.len());
        assert(st.keys[w] == (v.provider, v.id));
    }
}

proof fn lemma_scan_files_untouched(st: MarkerScan, files: Seq<(Seq<char>, Option<i64>, Option<Seq<char>>)>, now: i64, all: Seq<(Seq<char>, Option<i64>, Option<Seq<char>>)>, i: int, v: InstanceView)
    requires
        untouched(st, i, v),
        files_leave_key(files, (v.provider, v.id), now),
    ensures
        untouched(scan_files(st, files, now, all), i, v),
    decreases files.len(),
{
    if files.len() > 0 {
        let rest = files.drop_last();
        let f = files.last();
        let k = (v.provider, v.id);
        assert forall|g: int| 0 <= g < rest.len() implies #[trigger] running_marker(rest[g].0) != Some(k) && !(running_marker(rest[g].0) is None
            && hold_marker(rest[g].0) == Some(k) && hold_visible_until(rest[g].2) > now) by {
            assert(rest[g] == files[g]);
        }
        lemma_scan_files_untouched(st, rest, now, all, i, v);
        let mid = scan_files(st, rest, now, all);
        assert(running_marker(files[files.len() - 1].0) != Some(k));
        match running_marker(f.0) {
            Some(r) => lemma_upsert_other(mid, i, v, r.0, r.1, running_marker_phase(f.1, now, hold_visible_in(all, r, now)), modified_or(f.1, now)),
            None => match hold_marker(f.0) {
                Some(h) => if hold_visible_until(f.2) > now {
                    lemma_upsert_other(mid, i, v, h.0, h.1, "running"@, now);
                },
                None => {},
            },
        }
    }
}

proof fn lemma_legacy_untouched(st: MarkerScan, provider: Seq<char>, id: Seq<char>, hold_name: Seq<char>, legacy: LegacyMarkers, now: i64, i: int, v: InstanceView)
    requires
        untouched(st, i, v),
        legacy_leaves_key(provider, id, legacy, (v.provider, v.id), now),
    ensures
        untouched(legacy_step(st, provider, id, hold_name, legacy.running, legacy.running_modified_at, opt_view(legacy.hold_content), now), i, v),
{
    let held = hold_visible_until(opt_view(legacy.hold_content)) > now;
    if legacy.running {
        lemma_upsert_other(st, i, v, provider, id, running_marker_phase(legacy.running_modified_at, now, held), modified_or(legacy.running_modified_at, now));
    } else if held {
        lemma_upsert_other(st, i, v, provider, id, "running"@, now);
    }
}

/// An instance that no marker file and no legacy marker names stays listed
/// exactly when it is failed, stale, a running legacy instance, or
/// completed (at a positive time) less than a day (86 400 000 ms) ago.
pub proof fn lemma_unmarked_instance_listed(
    instances: Seq<InstanceView>,
    files: Seq<MarkerFile>,
    legacy_codex: LegacyMarkers,
    legacy_claude: LegacyMarkers,
    now: i64,
    i: int,
)
    requires
        0 <= i < instances.len(),
        files_leave_key(file_views(files), (instances[i].provider, instances[i].id), now),
        legacy_leaves_key("codex"@, "legacy-codex"@, legacy_codex, (instances[i].provider, instances[i].id), now),
        legacy_leaves_key("claudeCode"@, "legacy-claudeCode"@, legacy_claude, (instances[i].provider, instances[i].id), now),
    ensures
        ({
            let scan = marker_scan(instances, files, legacy_codex, legacy_claude, now);
            let v = instances[i];
            scan.instances.filter(is_retained_in(scan.keys, now)).contains(v) <==> (v.phase == "failed"@
                || v.phase == "stale"@
                || (v.phase == "running"@ && v.id.len() >= 6 && v.id.subrange(0, 6) == "legacy"@)
                || (v.phase == "completed"@ && v.updated_at > 0 && now - v.updated_at < 86_400_000))
        }),
{
    let v = instances[i];
    let st0 = MarkerScan { instances, keys: Seq::empty(), removals: Seq::empty() };
    let fv = file_views(files);
    lemma_scan_files_untouched(st0, fv, now, fv, i, v);
    let st1 = scan_files(st0, fv, now, fv);
    lemma_legacy_untouched(st1, "codex"@, "legacy-codex"@, CODEX_RUNNING_HOLD_FILE_NAME@, legacy_codex, now, i, v);
    let st2 = legacy_step(st1, "codex"@, "legacy-codex"@, CODEX_RUNNING_HOLD_FILE_NAME@, legacy_codex.running,
        legacy_codex.running_modified_at, opt_view(legacy_codex.hold_content), now);
    lemma_legacy_untouched(st2, "claudeCode"@, "legacy-claudeCode"@, CLAUDE_CODE_RUNNING_HOLD_FILE_NAME@, legacy_claude, now, i, v);
    let scan = marker_scan(instances, files, legacy_codex, legacy_claude, now);
    let pred = is_retained_in(scan.keys, now);
    reveal_strlit("legacy");
    reveal_strlit("running");
    reveal_strlit("stale");
    reveal_strlit("completed");
    reveal_strlit("failed");

    assert(scan.instances[i] == v);
    assert("completed"@.len() == 9 && "running"@.len() == 7 && "stale"@.len() == 5 && "failed"@.len() == 6
        && "legacy"@.len() == 6);
    assert(!scan.keys.contains((v.provider, v.id)));
    assert(pred(v) <==> (v.phase == "failed"@ || v.phase == "stale"@
        || (v.phase == "running"@ && v.id.len() >= 6 && v.id.subrange(0, 6) == "legacy"@)
        || (v.phase == "completed"@ && v.updated_at > 0 && now - v.updated_at < 86_400_000)));
    broadcast use vstd::seq_lib::group_filter_ensures;
    if pred(v) {
        assert(scan.instances.filter(pred).contains(v));
    }
    if scan.instances.filter(pred).contains(v) {
        let w = choose|w: int| 0 <= w < scan.instances.filter(pred).len() && scan.instances.filter(pred)[w] == v;
        assert(pred(scan.instances.filter(pred)[w]));
    }
}

/// Every completed instance that stays listed after the markers are applied
/// was completed at a positive time less than a day (86 400 000 ms) before
/// `now`.
pub proof fn lemma_listed_completed_within_a_day(
    instances: Seq<InstanceView>,
    files: Seq<MarkerFile>,
    legacy_codex: LegacyMarkers,
    legacy_claude: LegacyMarkers,
    now: i64,
    w: InstanceView,
)
    requires
        ({
            let scan = marker_scan(instances, files, legacy_codex, legacy_claude, now);
            scan.instances.filter(is_retained_in(scan.keys, now)).contains(w)
        }),
        w.phase == "completed"@,
    ensures
        w.updated_at > 0,
        now - w.updated_at < 86_400_000,
{
    let scan = marker_scan(instances, files, legacy_codex, legacy_claude, now);
    let pred = is_retained_in(scan.keys, now);
    reveal_strlit("running");
    reveal_strlit("stale");
    reveal_strlit("completed");
    reveal_strlit("failed");
    broadcast use vstd::seq_lib::group_filter_ensures;
    let j = choose|j: int| 0 <= j < scan.instances.filter(pred).len() && scan.instances.filter(pred)[j] == w;
    assert(pred(scan.instances.filter(pred)[j]));
    assert(retained(w, scan.keys, now));
    assert("completed"@.len() == 9 && "running"@.len() == 7 && "stale"@.len() == 5);
    assert(w.phase != "running"@ && w.phase != "stale"@);
    assert(crate::history::saturating_sub_i64(now, w.updated_at) < AGENT_COMPLETED_MAX_RETENTION_MS);
}

// ---------------------------------------------------------------------------
// Clearing
// ---------------------------------------------------------------------------

/// Why a clear request was refused.
#[derive(Debug, PartialEq, Eq, Structural)]
pub enum AgentStatusError {
    UnsupportedProvider,
}

impl AgentStatusError {
    /// The message shown to the user.
    pub fn message(&self) -> (r: String)
        ensures
            r@ == "Unsupported agent provider."@,
    {
        String::from_str("Unsupported agent provider.")
    }
}

/// The marker files to delete and the providers whose per-instance markers
/// to delete, after a clear request.
#[derive(Debug)]
pub struct ClearPlan {
    pub remove_files: Vec<String>,
    pub scan_providers: Vec<String>,
}

pub open spec fn opt_or_empty(o: Option<String>) -> Seq<char> {
    match o {
        Some(s) => s@,
        None => Seq::empty(),
    }
}

/// Whether a clear request for `provider` and `id` (either may be empty)
/// removes the instance `x`.
pub open spec fn cleared_by(x: InstanceView, provider: Seq<char>, id: Seq<char>) -> bool {
    if id.len() > 0 {
        x.id == id && (provider.len() == 0 || x.provider == provider)
    } else if provider.len() == 0 {
        true
    } else {
        x.provider == provider
    }
}

pub open spec fn kept_by_clear(provider: Seq<char>, id: Seq<char>) -> spec_fn(InstanceView) -> bool {
    |x: InstanceView| !cleared_by(x, provider, id)
}

/// What a clear request leaves of the instances `s`, for an instance id
/// `id` and a provider `provider` (either may be empty):
/// - with an id and no provider, every instance with that id goes, whatever
///   its provider;
/// - with an id and a provider, only the instances with both go;
/// - with no id, every instance of the provider goes, or every instance
///   when no provider is named;
/// and every other instance stays.
pub proof fn lemma_clear_removes_named(s: Seq<InstanceView>, provider: Seq<char>, id: Seq<char>)
    ensures
        ({
            let left = s.filter(kept_by_clear(provider, id));
            &&& (id.len() > 0 && provider.len() == 0) ==> forall|w: InstanceView| #[trigger] left.contains(w) ==> w.id != id
            &&& (id.len() > 0 && provider.len() == 0) ==> forall|j: int| 0 <= j < s.len() && s[j].id != id ==> left.contains(#[trigger] s[j])
            &&& (id.len() > 0 && provider.len() > 0) ==> forall|w: InstanceView| #[trigger] left.contains(w) ==> !(w.id == id && w.provider == provider)
            &&& (id.len() > 0 && provider.len() > 0) ==> forall|j: int| 0 <= j < s.len() && !(s[j].id == id && s[j].provider == provider) ==> left.contains(#[trigger] s[j])
            &&& (id.len() == 0 && provider.len() > 0) ==> forall|w: InstanceView| #[trigger] left.contains(w) ==> w.provider != provider
            &&& (id.len() == 0 && provider.len() > 0) ==> forall|j: int| 0 <= j < s.len() && s[j].provider != provider ==> left.contains(#[trigger] s[j])
            &&& (id.len() == 0 && provider.len() == 0) ==> left.len() == 0
        }),
{
    broadcast use vstd::seq_lib::group_filter_ensures;
    let pred = kept_by_clear(provider, id);
    let left = s.filter(pred);
    assert forall|w: InstanceView| #[trigger] left.contains(w) implies pred(w) by {
        let k = choose|k: int| 0 <= k < left.len() && left[k] == w;
        assert(pred(left[k]));
    }
    if id.len() == 0 && provider.len() == 0 {
        if left.len() > 0 {
            assert(left.contains(left[0]));
        }
    }
}

/// The running and hold marker files of one instance.
pub open spec fn instance_marker_names(provider: Seq<char>, id: Seq<char>) -> Seq<Seq<char>> {
    seq![
        AGENT_RUNNING_MARKER_PREFIX@ + provider + "-"@ + id + AGENT_MARKER_SUFFIX@,
        AGENT_HOLD_MARKER_PREFIX@ + provider + "-"@ + id + AGENT_MARKER_SUFFIX@,
    ]
}

pub open spec fn legacy_codex_names() -> Seq<Seq<char>> {
    seq![CODEX_RUNNING_MARKER_FILE_NAME@, CODEX_RUNNING_HOLD_FILE_NAME@]
}

pub open spec fn legacy_claude_names() -> Seq<Seq<char>> {
    seq![CLAUDE_CODE_RUNNING_MARKER_FILE_NAME@, CLAUDE_CODE_RUNNING_HOLD_FILE_NAME@]
}

/// The files a clear request deletes by name.
pub open spec fn clear_files(provider: Seq<char>, id: Seq<char>) -> Seq<Seq<char>> {
    if id.len() > 0 {
        (if provider.len() == 0 {
            instance_marker_names("codex"@, id) + instance_marker_names("claudeCode"@, id)
        } else {
            instance_marker_names(provider, id)
        }) + (if (provider == "codex"@ || provider.len() == 0) && (id == "legacy"@ || id
            == "legacy-codex"@) {
            legacy_codex_names()
        } else {
            Seq::empty()
        }) + (if (provider == "claudeCode"@ || provider.len() == 0) && (id == "legacy"@ || id
            == "legacy-claudeCode"@) {
            legacy_claude_names()
        } else {
            Seq::empty()
        })
    } else if provider == "codex"@ {
        legacy_codex_names()
    } else if provider == "claudeCode"@ {
        legacy_claude_names()
    } else {
        legacy_codex_names() + legacy_claude_names()
    }
}

/// The providers whose per-instance markers a clear request deletes.
pub open spec fn clear_scans(provider: Seq<char>, id: Seq<char>) -> Seq<Seq<char>> {
    if id.len() > 0 {
        Seq::empty()
    } else if provider.len() == 0 {
        seq!["codex"@, "claudeCode"@]
    } else {
        seq![provider]
    }
}

proof fn lemma_marker_name_read(prefix: Seq<char>, q: Seq<char>, id: Seq<char>)
    requires
        q == "codex"@ || q == "claudeCode"@,
        id.len() > 0,
        prefix == AGENT_RUNNING_MARKER_PREFIX@ || prefix == AGENT_HOLD_MARKER_PREFIX@,
    ensures
        marker_file_name(prefix + q + "-"@ + id + AGENT_MARKER_SUFFIX@, prefix, AGENT_MARKER_SUFFIX@) == Some((q, id)),
{
    reveal_strlit("agent-running-");
    reveal_strlit("agent-hold-");
    reveal_strlit(".flag");
    reveal_strlit("-");
    reveal_strlit("codex");
    reveal_strlit("claudeCode");
    reveal_strlit("codex-");
    reveal_strlit("claudeCode-");
    let s = AGENT_MARKER_SUFFIX@;
    let name = prefix + q + "-"@ + id + s;
    let body = q + "-"@ + id;
    assert(name.subrange(0, prefix.len() as int) =~= prefix);
    assert(name.subrange(name.len() - s.len(), name.len() as int) =~= s);
    assert(name.subrange(prefix.len() as int, name.len() - s.len()) =~= body);
    if q == "codex"@ {
        assert(body.subrange(0, 6) =~= "codex-"@);
        assert(!starts_with(body, "claudeCode-"@)) by {
            if body.len() >= 11 {
                assert(body[0] == 'c' && body[1] == 'o');
                assert("claudeCode-"@[1] == 'l');
            }
        }
        assert(body.subrange(6, body.len() as int) =~= id);
    } else {
        assert(body.subrange(0, 11) =~= "claudeCode-"@);
        assert(body.subrange(11, body.len() as int) =~= id);
    }
}

/// The marker files a clear request with an instance id deletes are the
/// ones the marker scan reads as that instance's: for each provider the
/// request covers (the one named, or both when none is), the list holds a
/// file read as its running marker and one read as its hold marker.
pub proof fn lemma_clear_files_are_instance_markers(provider: Seq<char>, id: Seq<char>, q: Seq<char>)
    requires
        id.len() > 0,
        q == "codex"@ || q == "claudeCode"@,
        provider.len() == 0 || provider == q,
    ensures
        exists|n: Seq<char>| #[trigger] clear_files(provider, id).contains(n) && running_marker(n) == Some((q, id)),
        exists|n: Seq<char>| #[trigger] clear_files(provider, id).contains(n) && hold_marker(n) == Some((q, id)),
{
    let names = instance_marker_names(q, id);
    let files = clear_files(provider, id);
    lemma_marker_name_read(AGENT_RUNNING_MARKER_PREFIX@, q, id);
    lemma_marker_name_read(AGENT_HOLD_MARKER_PREFIX@, q, id);
    reveal_strlit("codex");
    reveal_strlit("claudeCode");
    let head = if provider.len() == 0 {
        instance_marker_names("codex"@, id) + instance_marker_names("claudeCode"@, id)
    } else {
        instance_marker_names(provider, id)
    };
    let off: int = if provider.len() == 0 && q == "claudeCode"@ { 2 } else { 0 };
    assert(head[off] == names[0] && head[off + 1] == names[1]);
    assert(files[off] == names[0] && files[off + 1] == names[1]);
    assert(files.contains(names[0]));
    assert(files.contains(names[1]));
}

/// A clear request names an instance, a known provider, or nothing.
pub open spec fn clear_supported(provider: Seq<char>, id: Seq<char>) -> bool {
    id.len() > 0 || provider.len() == 0 || provider == "codex"@ || provider == "claudeCode"@
}

fn push_instance_marker_names(out: &mut Vec<String>, provider: &[char], id: &[char])
    ensures
        string_views(final(out)@) == string_views(old(out)@) + instance_marker_names(provider@, id@),
{
    let mut running: Vec<char> = Vec::new();
    extend_str(&mut running, AGENT_RUNNING_MARKER_PREFIX);
    extend_chars(&mut running, provider);
    extend_str(&mut running, "-");
    extend_chars(&mut running, id);
    extend_str(&mut running, AGENT_MARKER_SUFFIX);
    let mut hold: Vec<char> = Vec::new();
    extend_str(&mut hold, AGENT_HOLD_MARKER_PREFIX);
    extend_chars(&mut hold, provider);
    extend_str(&mut hold, "-");
    extend_chars(&mut hold, id);
    extend_str(&mut hold, AGENT_MARKER_SUFFIX);
    let ghost before = string_views(out@);
    out.push(string_of(&running));
    out.push(string_of(&hold));
    assert(running@ =~= AGENT_RUNNING_MARKER_PREFIX@ + provider@ + "-"@ + id@ + AGENT_MARKER_SUFFIX@);
    assert(hold@ =~= AGENT_HOLD_MARKER_PREFIX@ + provider@ + "-"@ + id@ + AGENT_MARKER_SUFFIX@);
    assert(string_views(out@) =~= before + instance_marker_names(provider@, id@));
}

fn push_names(out: &mut Vec<String>, a: &str, b: &str)
    ensures
        string_views(final(out)@) == string_views(old(out)@) + seq![a@, b@],
{
    let ghost before = string_views(out@);
    out.push(String::from_str(a));
    out.push(String::from_str(b));
    assert(string_views(out@) =~= before + seq![a@, b@]);
}

/// Applies a clear request to the status file's contents (dropping the
/// instances it names and the legacy statuses, stamping `now`) and says
/// which marker files to delete. An empty `instance_id` with an unknown
/// provider is refused, and nothing changes.
pub fn clear_agent_status_plan(
    persisted: &mut PersistedAgentStatus,
    provider: Option<String>,
    instance_id: Option<String>,
    now: i64,
) -> (r: Result<ClearPlan, AgentStatusError>)
    ensures
        ({
            let p = opt_or_empty(provider);
            let id = opt_or_empty(instance_id);
            &&& (r is Err <==> !clear_supported(p, id))
            &&& (r is Err ==> r == Err::<ClearPlan, AgentStatusError>(AgentStatusError::UnsupportedProvider) && *final(persisted) == *old(persisted))
            &&& (r matches Ok(plan) ==> {
                &&& instance_views(final(persisted).instances@) == instance_views(old(persisted).instances@).filter(kept_by_clear(p, id))
                &&& final(persisted).codex is None
                &&& final(persisted).claude_code is None
                &&& final(persisted).updated_at == now
                &&& string_views(plan.remove_files@) == clear_files(p, id)
                &&& string_views(plan.scan_providers@) == clear_scans(p, id)
            })
        }),
{
    let p = match &provider {
        Some(s) => chars_of(s.as_str()),
        None => Vec::new(),
    };
    let id = match &instance_id {
        Some(s) => chars_of(s.as_str()),
        None => Vec::new(),
    };
    let ghost pv = p@;
    let ghost idv = id@;
    proof {
        reveal_strlit("codex");
        reveal_strlit("claudeCode");
    }
    let is_codex = chars_eq_str(&p, "codex");
    let is_claude = chars_eq_str(&p, "claudeCode");
    if id.len() == 0 && p.len() > 0 && !is_codex && !is_claude {
        return Err(AgentStatusError::UnsupportedProvider);
    }
    let ghost keep = kept_by_clear(pv, idv);
    let mut all: Vec<AgentInstance> = Vec::new();
    std::mem::swap(&mut all, &mut persisted.instances);
    let ghost src = all@;
    let mut kept: Vec<AgentInstance> = Vec::new();
    let mut j: usize = 0;
    while j < all.len()
        invariant
            j <= all.len(),
            all@ == src,
            p@ == pv,
            id@ == idv,
            keep == kept_by_clear(pv, idv),
            instance_views(kept@) == instance_views(src.take(j as int)).filter(keep),
        decreases all.len() - j,
    {
        let x = all[j].clone();
        proof {
            assert(src.take(j + 1) =~= src.take(j as int).push(x));
            assert(instance_views(src.take(j + 1)) =~= instance_views(src.take(j as int)).push(x@));
            instance_views(src.take(j as int)).lemma_filter_push(x@, keep);
        }
        let xid = chars_of(x.id.as_str());
        let xp = chars_of(x.provider.as_str());
        let cleared = if id.len() > 0 {
            chars_eq(&xid, &id) && (p.len() == 0 || chars_eq(&xp, &p))
        } else if p.len() == 0 {
            true
        } else {
            chars_eq(&xp, &p)
        };
        if !cleared {
            let ghost kb = instance_views(kept@);
            kept.push(x);
            assert(instance_views(kept@) =~= kb.push(x@));
        }
        j += 1;
    }
    assert(src.take(src.len() as int) =~= src);
    persisted.instances = kept;
    let mut files: Vec<String> = Vec::new();
    let mut scans: Vec<String> = Vec::new();
    if id.len() > 0 {
        if p.len() == 0 {
            let codex = chars_of("codex");
            let claude = chars_of("claudeCode");
            push_instance_marker_names(&mut files, &codex, &id);
            push_instance_marker_names(&mut files, &claude, &id);
        } else {
            push_instance_marker_names(&mut files, &p, &id);
        }
        let legacy_any = chars_eq_str(&id, "legacy");
        if (is_codex || p.len() == 0) && (legacy_any || chars_eq_str(&id, "legacy-codex")) {
            push_names(&mut files, CODEX_RUNNING_MARKER_FILE_NAME, CODEX_RUNNING_HOLD_FILE_NAME);
        }
        if (is_claude || p.len() == 0) && (legacy_any || chars_eq_str(&id, "legacy-claudeCode")) {
            push_names(&mut files, CLAUDE_CODE_RUNNING_MARKER_FILE_NAME, CLAUDE_CODE_RUNNING_HOLD_FILE_NAME);
        }
        assert(string_views(files@) =~= clear_files(pv, idv));
        assert(string_views(scans@) =~= clear_scans(pv, idv));
    } else if is_codex {
        push_names(&mut files, CODEX_RUNNING_MARKER_FILE_NAME, CODEX_RUNNING_HOLD_FILE_NAME);
        scans.push(String::from_str("codex"));
        assert(string_views(files@) =~= clear_files(pv, idv));
        assert(string_views(scans@) =~= clear_scans(pv, idv));
    } else if is_claude {
        push_names(&mut files, CLAUDE_CODE_RUNNING_MARKER_FILE_NAME, CLAUDE_CODE_RUNNING_HOLD_FILE_NAME);
        scans.push(String::from_str("claudeCode"));
        assert(string_views(files@) =~= clear_files(pv, idv));
        assert(string_views(scans@) =~= clear_scans(pv, idv));
    } else {
        push_names(&mut files, CODEX_RUNNING_MARKER_FILE_NAME, CODEX_RUNNING_HOLD_FILE_NAME);
        push_names(&mut files, CLAUDE_CODE_RUNNING_MARKER_FILE_NAME, CLAUDE_CODE_RUNNING_HOLD_FILE_NAME);
        scans.push(String::from_str("codex"));
        scans.push(String::from_str("claudeCode"));
        assert(string_views(files@) =~= clear_files(pv, idv));
        assert(pv.len() == 0);
        assert(string_views(scans@) =~= clear_scans(pv, idv));
    }
    persisted.codex = None;
    persisted.claude_code = None;
    persisted.updated_at = now;
    Ok(ClearPlan { remove_files: files, scan_providers: scans })
}

/// A per-instance marker file of `provider`: `agent-running-` or
/// `agent-hold-`, then the provider and `-`, ending in `.flag`.
pub open spec fn is_provider_marker(name: Seq<char>, provider: Seq<char>) -> bool {
    (starts_with(name, AGENT_RUNNING_MARKER_PREFIX@ + provider + "-"@) || starts_with(
        name,
        AGENT_HOLD_MARKER_PREFIX@ + provider + "-"@,
    )) && ends_with(name, AGENT_MARKER_SUFFIX@)
}

/// Whether the file `name` is a per-instance marker of `provider`.
pub fn is_provider_marker_file(name: &str, provider: &str) -> (r: bool)
    ensures
        r == is_provider_marker(name@, provider@),
{
    let n = chars_of(name);
    let mut running: Vec<char> = Vec::new();
    extend_str(&mut running, AGENT_RUNNING_MARKER_PREFIX);
    extend_str(&mut running, provider);
    extend_str(&mut running, "-");
    let mut hold: Vec<char> = Vec::new();
    extend_str(&mut hold, AGENT_HOLD_MARKER_PREFIX);
    extend_str(&mut hold, provider);
    extend_str(&mut hold, "-");
    let suffix = chars_of(AGENT_MARKER_SUFFIX);
    assert(running@ =~= AGENT_RUNNING_MARKER_PREFIX@ + provider@ + "-"@);
    assert(hold@ =~= AGENT_HOLD_MARKER_PREFIX@ + provider@ + "-"@);
    (starts_with_chars(&n, &running) || starts_with_chars(&n, &hold)) && ends_with_chars(&n, &suffix)
}

/// Whether a file name is a hold marker, whose contents are then read.
pub fn is_hold_marker_file(name: &str) -> (r: bool)
    ensures
        r == (hold_marker(name@) is Some),
{
    proof {
        reveal_strlit("agent-hold-");
        lemma_marker_affixes_disjoint(name@, AGENT_HOLD_MARKER_PREFIX);
    }
    parse_agent_marker_file_name(name, AGENT_HOLD_MARKER_PREFIX, AGENT_MARKER_SUFFIX).is_some()
}

/// The per-instance markers of `provider` among file names.
pub open spec fn provider_marker_pred(provider: Seq<char>) -> spec_fn(Seq<char>) -> bool {
    |name: Seq<char>| is_provider_marker(name, provider)
}

/// The files of a directory listing that are per-instance markers of
/// `provider`, in listing order: the files that removing that provider's
/// markers deletes.
pub fn provider_marker_files(listing: &Vec<String>, provider: &str) -> (r: Vec<String>)
    ensures
        string_views(r@) == string_views(listing@).filter(provider_marker_pred(provider@)),
{
    let ghost pred = provider_marker_pred(provider@);
    let mut out: Vec<String> = Vec::new();
    let mut i: usize = 0;
    while i < listing.len()
        invariant
            i <= listing.len(),
            pred == provider_marker_pred(provider@),
            string_views(out@) == string_views(listing@.take(i as int)).filter(pred),
        decreases listing.len() - i,
    {
        let name = listing[i].as_str();
        proof {
            assert(listing@.take(i + 1) =~= listing@.take(i as int).push(listing@[i as int]));
            assert(string_views(listing@.take(i + 1)) =~= string_views(listing@.take(i as int)).push(name@));
            string_views(listing@.take(i as int)).lemma_filter_push(name@, pred);
        }
        if is_provider_marker_file(name, provider) {
            let ghost before = string_views(out@);
            out.push(String::from_str(name));
            assert(string_views(out@) =~= before.push(name@));
        }
        i += 1;
    }
    assert(listing@.take(listing.len() as int) =~= listing@);
    out
}

fn extend_names(out: &mut Vec<String>, more: Vec<String>)
    ensures
        string_views(final(out)@) == string_views(old(out)@) + string_views(more@),
{
    let ghost start = string_views(out@);
    let mut i: usize = 0;
    while i < more.len()
        invariant
            i <= more.len(),
            string_views(out@) == start + string_views(more@.take(i as int)),
        decreases more.len() - i,
    {
        let ghost before = string_views(out@);
        out.push(String::from_str(more[i].as_str()));
        assert(string_views(out@) =~= before.push(more@[i as int]@));
        assert(string_views(more@.take(i + 1)) =~= string_views(more@.take(i as int)).push(more@[i as int]@));
        i += 1;
    }
    assert(more@.take(more.len() as int) =~= more@);
}

/// The files that removing every agent marker deletes: the per-instance
/// markers of Codex, then of the claudeCode agent, in the listing, then the legacy
/// marker files of both.
pub fn remove_all_agent_marker_files(listing: &Vec<String>) -> (r: Vec<String>)
    ensures
        string_views(r@) == string_views(listing@).filter(provider_marker_pred("codex"@)) + string_views(
            listing@,
        ).filter(provider_marker_pred("claudeCode"@)) + legacy_codex_names() + legacy_claude_names(),
{
    let mut out = provider_marker_files(listing, "codex");
    let claude = provider_marker_files(listing, "claudeCode");
    extend_names(&mut out, claude);
    push_names(&mut out, CODEX_RUNNING_MARKER_FILE_NAME, CODEX_RUNNING_HOLD_FILE_NAME);
    push_names(&mut out, CLAUDE_CODE_RUNNING_MARKER_FILE_NAME, CLAUDE_CODE_RUNNING_HOLD_FILE_NAME);
    out
}

/// The files removed before a provider's hooks are upgraded: its
/// per-instance markers in the listing, then its legacy marker files.
pub fn provider_upgrade_marker_files(listing: &Vec<String>, codex: bool) -> (r: Vec<String>)
    ensures
        codex ==> string_views(r@) == string_views(listing@).filter(provider_marker_pred("codex"@))
            + legacy_codex_names(),
        !codex ==> string_views(r@) == string_views(listing@).filter(provider_marker_pred("claudeCode"@))
            + legacy_claude_names(),
{
    if codex {
        let mut out = provider_marker_files(listing, "codex");
        push_names(&mut out, CODEX_RUNNING_MARKER_FILE_NAME, CODEX_RUNNING_HOLD_FILE_NAME);
        out
    } else {
        let mut out = provider_marker_files(listing, "claudeCode");
        push_names(&mut out, CLAUDE_CODE_RUNNING_MARKER_FILE_NAME, CLAUDE_CODE_RUNNING_HOLD_FILE_NAME);
        out
    }
}

// ---------------------------------------------------------------------------
// Codex session titles
// ---------------------------------------------------------------------------

/// The `id` and `thread_name` string fields of a line of Codex's session
/// index, when the line is JSON.
pub uninterp spec fn session_record_fields(line: Seq<char>) -> Option<(Option<Seq<char>>, Option<Seq<char>>)>;

/// Parses one line with `serde_json::from_str::<serde_json::Value>` and, when
/// that succeeds, reads the fields `id` and `thread_name` where they are JSON
/// strings. The contract names the result and says nothing more of it.
#[verifier::external_body]
fn session_record(line: &str) -> (r: Option<(Option<String>, Option<String>)>)
    ensures
        match r {
            Some(fields) => session_record_fields(line@) == Some((opt_view(fields.0), opt_view(fields.1))),
            None => session_record_fields(line@) is None,
        },
{
    let record = serde_json::from_str::<serde_json::Value>(line).ok()?;
    let id = record.get("id").and_then(serde_json::Value::as_str).map(str::to_string);
    let name = record.get("thread_name").and_then(serde_json::Value::as_str).map(str::to_string);
    Some((id, name))
}

pub open spec fn has_title_for(names: Seq<(Seq<char>, Seq<char>)>, id: Seq<char>) -> bool {
    exists|i: int| 0 <= i < names.len() && (#[trigger] names[i]).0 == id
}

/// One session record's effect on the titles found so far (from later
/// lines): the first record of a session with a non-blank title gives it its
/// title. A record is `None` when its line is not JSON, else its `id` and
/// `thread_name` where they are strings.
pub open spec fn record_step(
    names: Seq<(Seq<char>, Seq<char>)>,
    record: Option<(Option<Seq<char>>, Option<Seq<char>>)>,
) -> Seq<(Seq<char>, Seq<char>)> {
    match record {
        Some((Some(id), title)) => if has_title_for(names, id) {
            names
        } else {
            match title {
                Some(t) => if trim(t).len() > 0 {
                    names.push((id, trim(t)))
                } else {
                    names
                },
                None => names,
            }
        },
        _ => names,
    }
}

/// The session titles of `records`, read from the last one up.
pub open spec fn titles_of_records(records: Seq<Option<(Option<Seq<char>>, Option<Seq<char>>)>>) -> Seq<(Seq<char>, Seq<char>)>
    decreases records.len(),
{
    if records.len() == 0 {
        Seq::empty()
    } else {
        record_step(titles_of_records(records.drop_first()), records[0])
    }
}

/// One line's effect on the titles found so far (see `record_step`).
pub open spec fn title_step(names: Seq<(Seq<char>, Seq<char>)>, line: Seq<char>) -> Seq<(Seq<char>, Seq<char>)> {
    record_step(names, session_record_fields(line))
}

/// The session titles of `lines`, read from the last line up: for each
/// session, the trimmed title of its latest record with a non-blank one.
pub open spec fn titles_of(lines: Seq<Seq<char>>) -> Seq<(Seq<char>, Seq<char>)>
    decreases lines.len(),
{
    if lines.len() == 0 {
        Seq::empty()
    } else {
        title_step(titles_of(lines.drop_first()), lines[0])
    }
}

fn has_title_exec(names: &Vec<(String, String)>, id: &[char]) -> (r: bool)
    ensures
        r == has_title_for(key_views(names@), id@),
{
    let mut i: usize = 0;
    while i < names.len()
        invariant
            i <= names.len(),
            forall|j: int| 0 <= j < i ==> (#[trigger] key_views(names@)[j]).0 != id@,
        decreases names.len() - i,
    {
        let k = chars_of(names[i].0.as_str());
        assert(key_views(names@)[i as int].0 == names@[i as int].0@);
        if chars_eq(&k, id) {
            return true;
        }
        i += 1;
    }
    false
}

pub open spec fn record_view(r: Option<(Option<String>, Option<String>)>) -> Option<(Option<Seq<char>>, Option<Seq<char>>)> {
    match r {
        Some(fields) => Some((opt_view(fields.0), opt_view(fields.1))),
        None => None,
    }
}

pub open spec fn record_views(rs: Seq<Option<(Option<String>, Option<String>)>>) -> Seq<Option<(Option<Seq<char>>, Option<Seq<char>>)>> {
    rs.map_values(|r: Option<(Option<String>, Option<String>)>| record_view(r))
}

/// The session titles of the records of an index, one per line in order
/// (see `titles_of_records`), as `(session id, title)` pairs, one per
/// session.
pub fn thread_names_from_records(records: &Vec<Option<(Option<String>, Option<String>)>>) -> (r: Vec<(String, String)>)
    ensures
        key_views(r@) == titles_of_records(record_views(records@)),
{
    let ghost rv = record_views(records@);
    let mut names: Vec<(String, String)> = Vec::new();
    let mut k: usize = records.len();
    assert(rv.subrange(k as int, rv.len() as int) =~= Seq::<Option<(Option<Seq<char>>, Option<Seq<char>>)>>::empty());
    while k > 0
        invariant
            k <= records.len(),
            rv == record_views(records@),
            key_views(names@) == titles_of_records(rv.subrange(k as int, rv.len() as int)),
        decreases k,
    {
        k -= 1;
        let ghost rest = rv.subrange(k as int, rv.len() as int);
        assert(rest.drop_first() =~= rv.subrange(k + 1, rv.len() as int));
        assert(rest[0] == record_view(records@[k as int]));
        match &records[k] {
            Some((Some(id), title)) => {
                let idc = chars_of(id.as_str());
                if !has_title_exec(&names, &idc) {
                    if let Some(t) = title {
                        let tc = chars_of(t.as_str());
                        let trimmed = trim_chars(&tc);
                        if trimmed.len() > 0 {
                            let ghost before = key_views(names@);
                            names.push((string_of(&idc), string_of(&trimmed)));
                            assert(key_views(names@) =~= before.push((idc@, trimmed@)));
                        }
                    }
                }
            },
            _ => {},
        }
    }
    assert(rv.subrange(0, rv.len() as int) =~= rv);
    names
}

proof fn lemma_titles_of_lines(lines: Seq<Seq<char>>, records: Seq<Option<(Option<Seq<char>>, Option<Seq<char>>)>>)
    requires
        records.len() == lines.len(),
        forall|i: int| 0 <= i < lines.len() ==> records[i] == session_record_fields(#[trigger] lines[i]),
    ensures
        titles_of(lines) == titles_of_records(records),
    decreases lines.len(),
{
    if lines.len() > 0 {
        let lt = lines.drop_first();
        let rt = records.drop_first();
        assert forall|i: int| 0 <= i < lt.len() implies rt[i] == session_record_fields(#[trigger] lt[i]) by {
            assert(lt[i] == lines[i + 1]);
        }
        lemma_titles_of_lines(lt, rt);
        assert(records[0] == session_record_fields(lines[0]));
    }
}

/// The session titles in Codex's session index (see `titles_of`), as
/// `(session id, title)` pairs, one per session.
pub fn parse_all_codex_thread_names(content: &str) -> (r: Vec<(String, String)>)
    ensures
        key_views(r@) == titles_of(crate::text::lines_of(content@)),
{
    let cs = chars_of(content);
    let lines = crate::text::split_lines(&cs);
    let ghost lv = crate::text::views(lines@);
    let mut records: Vec<Option<(Option<String>, Option<String>)>> = Vec::new();
    let mut i: usize = 0;
    while i < lines.len()
        invariant
            i <= lines.len(),
            lv == crate::text::views(lines@),
            records@.len() == i,
            forall|j: int| 0 <= j < i ==> record_view(#[trigger] records@[j]) == session_record_fields(lv[j]),
        decreases lines.len() - i,
    {
        let line = string_of(&lines[i]);
        assert(lv[i as int] == lines@[i as int]@);
        records.push(session_record(line.as_str()));
        i += 1;
    }
    proof {
        let rv = record_views(records@);
        assert forall|j: int| 0 <= j < lv.len() implies rv[j] == session_record_fields(#[trigger] lv[j]) by {
            assert(rv[j] == record_view(records@[j]));
        }
        lemma_titles_of_lines(lv, rv);
    }
    thread_names_from_records(&records)
}

pub open spec fn title_lookup(names: Seq<(Seq<char>, Seq<char>)>, id: Seq<char>) -> Option<Seq<char>> {
    if has_title_for(names, id) {
        Some(names[choose|i: int| 0 <= i < names.len() && (#[trigger] names[i]).0 == id && forall|j: int| 0 <= j < i ==> (#[trigger] names[j]).0 != id].1)
    } else {
        None
    }
}

pub open spec fn session_id_of(v: InstanceView) -> Option<Seq<char>> {
    if v.provider == "codex"@ && starts_with(v.id, "session-"@) {
        Some(v.id.subrange("session-"@.len() as int, v.id.len() as int))
    } else {
        None
    }
}

/// Whether some Codex instance is a session, whose title could be shown.
pub fn has_codex_sessions(snapshot: &AgentStatusSnapshot) -> (r: bool)
    ensures
        r == exists|i: int| 0 <= i < snapshot.instances@.len() && (#[trigger] snapshot.instances@[i])@.provider == "codex"@ && starts_with(snapshot.instances@[i]@.id, "session-"@),
{
    let prefix = chars_of("session-");
    let mut i: usize = 0;
    while i < snapshot.instances.len()
        invariant
            i <= snapshot.instances.len(),
            prefix@ == "session-"@,
            forall|j: int| 0 <= j < i ==> !((#[trigger] snapshot.instances@[j])@.provider == "codex"@ && starts_with(snapshot.instances@[j]@.id, "session-"@)),
        decreases snapshot.instances.len() - i,
    {
        let p = chars_of(snapshot.instances[i].provider.as_str());
        let id = chars_of(snapshot.instances[i].id.as_str());
        if chars_eq_str(&p, "codex") && starts_with_chars(&id, &prefix) {
            return true;
        }
        i += 1;
    }
    false
}

fn lookup_title(names: &Vec<(String, String)>, id: &[char]) -> (r: Option<String>)
    ensures
        opt_view(r) == title_lookup(key_views(names@), id@),
{
    let ghost kv = key_views(names@);
    let mut i: usize = 0;
    while i < names.len()
        invariant
            i <= names.len(),
            kv == key_views(names@),
            forall|j: int| 0 <= j < i ==> (#[trigger] kv[j]).0 != id@,
        decreases names.len() - i,
    {
        let k = chars_of(names[i].0.as_str());
        assert(kv[i as int] == (names@[i as int].0@, names@[i as int].1@));
        if chars_eq(&k, id) {
            proof {
                let c = choose|c: int| 0 <= c < kv.len() && (#[trigger] kv[c]).0 == id@ && forall|j: int| 0 <= j < c ==> (#[trigger] kv[j]).0 != id@;
                assert(is_first_title(kv, id@, i as int));
                if c < i {
                } else if c > i {
                    assert(kv[i as int].0 == id@);
                }
            }
            return Some(names[i].1.clone());
        }
        i += 1;
    }
    assert(!has_title_for(kv, id@));
    None
}

spec fn is_first_title(kv: Seq<(Seq<char>, Seq<char>)>, id: Seq<char>, i: int) -> bool {
    0 <= i < kv.len() && kv[i].0 == id && forall|j: int| 0 <= j < i ==> (#[trigger] kv[j]).0 != id
}

/// Gives each Codex session instance the title of its session, or none.
pub fn apply_codex_thread_names(snapshot: &mut AgentStatusSnapshot, names: &Vec<(String, String)>)
    ensures
        final(snapshot).instances@.len() == old(snapshot).instances@.len(),
        forall|i: int| 0 <= i < old(snapshot).instances@.len() ==> {
            let before = (#[trigger] old(snapshot).instances@[i])@;
            let after = final(snapshot).instances@[i]@;
            match session_id_of(before) {
                Some(sid) => after == InstanceView { display_name: title_lookup(key_views(names@), sid), ..before },
                None => after == before,
            }
        },
        final(snapshot).updated_at == old(snapshot).updated_at,
        final(snapshot).status_path == old(snapshot).status_path,
{
    let prefix = chars_of("session-");
    let mut i: usize = 0;
    while i < snapshot.instances.len()
        invariant
            i <= snapshot.instances.len(),
            snapshot.instances@.len() == old(snapshot).instances@.len(),
            snapshot.updated_at == old(snapshot).updated_at,
            snapshot.status_path == old(snapshot).status_path,
            prefix@ == "session-"@,
            forall|j: int| i <= j < snapshot.instances@.len() ==> #[trigger] snapshot.instances@[j] == old(snapshot).instances@[j],
            forall|j: int| 0 <= j < i ==> {
                let before = (#[trigger] old(snapshot).instances@[j])@;
                let after = snapshot.instances@[j]@;
                match session_id_of(before) {
                    Some(sid) => after == InstanceView { display_name: title_lookup(key_views(names@), sid), ..before },
                    None => after == before,
                }
            },
        decreases snapshot.instances.len() - i,
    {
        let p = chars_of(snapshot.instances[i].provider.as_str());
        let id = chars_of(snapshot.instances[i].id.as_str());
        if chars_eq_str(&p, "codex") && starts_with_chars(&id, &prefix) {
            let sid = slice_chars(&id, prefix.len(), id.len());
            let title = lookup_title(names, &sid);
            let ghost before = snapshot.instances@;
            let mut x = snapshot.instances.remove(i);
            x.display_name = title;
            snapshot.instances.insert(i, x);
            assert forall|j: int| 0 <= j < snapshot.instances@.len() && j != i implies #[trigger] snapshot.instances@[j] == before[j] by {}
        }
        i += 1;
    }
}

} // verus!
