//! The in-memory agent registry: one record per session, folded from its
//! transcript events, re-evaluated by a periodic tick into Working, Waiting
//! or Idle. Times are milliseconds since the Unix epoch.

use vstd::prelude::*;
use crate::parser::{ClaudeEvent, EventView, event_views};
use crate::status::AgentStatus;

verus! {

/// Timing thresholds of the status rules.
#[derive(Debug, Clone, Copy, PartialEq, Eq, Structural)]
pub struct AgentSettings {
    /// After this many seconds without events an agent is Idle.
    pub idle_timeout_secs: u64,
    /// A tool pending this many seconds without its result flags the agent
    /// as Waiting (likely blocked on a permission prompt).
    pub permission_timeout_secs: u64,
    /// On a tool-free turn, this many seconds after the last text the agent
    /// counts as Waiting.
    pub text_idle_secs: u64,
    /// Characters of the latest assistant text that are kept.
    pub message_preview_chars: usize,
}

/// The defaults: 180 s idle, 7 s permission, 5 s text idle, 280 characters.
pub open spec fn default_settings() -> AgentSettings {
    AgentSettings {
        idle_timeout_secs: 180,
        permission_timeout_secs: 7,
        text_idle_secs: 5,
        message_preview_chars: 280,
    }
}

impl AgentSettings {
    /// The default thresholds.
    pub fn default() -> (r: AgentSettings)
        ensures
            r == default_settings(),
    {
        AgentSettings {
            idle_timeout_secs: 180,
            permission_timeout_secs: 7,
            text_idle_secs: 5,
            message_preview_chars: 280,
        }
    }
}

/// What the dashboard shows of one agent.
#[derive(Debug, PartialEq)]
pub struct AgentSnapshot {
    pub session_id: String,
    pub project: String,
    pub status: AgentStatus,
    pub current_message: String,
    pub current_tool: Option<String>,
    pub model: String,
    pub input_tokens: u64,
    pub output_tokens: u64,
    pub cache_tokens: u64,
    /// Time of the latest applied batch of events.
    pub last_activity: i64,
    /// Time of the first applied batch of events.
    pub started_at: i64,
    /// The parent session of a sub-agent; `None` for a root session.
    pub parent_id: Option<String>,
}

pub struct SnapshotView {
    pub session_id: Seq<char>,
    pub project: Seq<char>,
    pub status: AgentStatus,
    pub current_message: Seq<char>,
    pub current_tool: Option<Seq<char>>,
    pub model: Seq<char>,
    pub input_tokens: u64,
    pub output_tokens: u64,
    pub cache_tokens: u64,
    pub last_activity: i64,
    pub started_at: i64,
    pub parent_id: Option<Seq<char>>,
}

pub open spec fn opt_str_view(o: Option<String>) -> Option<Seq<char>> {
    match o {
        Some(s) => Some(s@),
        None => None,
    }
}

impl View for AgentSnapshot {
    type V = SnapshotView;

    open spec fn view(&self) -> SnapshotView {
        SnapshotView {
            session_id: self.session_id@,
            project: self.project@,
            status: self.status,
            current_message: self.current_message@,
            current_tool: opt_str_view(self.current_tool),
            model: self.model@,
            input_tokens: self.input_tokens,
            output_tokens: self.output_tokens,
            cache_tokens: self.cache_tokens,
            last_activity: self.last_activity,
            started_at: self.started_at,
            parent_id: opt_str_view(self.parent_id),
        }
    }
}

fn clone_opt(o: &Option<String>) -> (r: Option<String>)
    ensures
        opt_str_view(r) == opt_str_view(*o),
{
    match o {
        Some(s) => Some(s.clone()),
        None => None,
    }
}

impl AgentSnapshot {
    /// A field-for-field copy.
    pub fn copy(&self) -> (r: AgentSnapshot)
        ensures
            r@ == self@,
    {
        AgentSnapshot {
            session_id: self.session_id.clone(),
            project: self.project.clone(),
            status: self.status,
            current_message: self.current_message.clone(),
            current_tool: clone_opt(&self.current_tool),
            model: self.model.clone(),
            input_tokens: self.input_tokens,
            output_tokens: self.output_tokens,
            cache_tokens: self.cache_tokens,
            last_activity: self.last_activity,
            started_at: self.started_at,
            parent_id: clone_opt(&self.parent_id),
        }
    }
}

/// A tool call that has started and has no result yet.
#[derive(Debug)]
struct PendingTool {
    id: String,
    name: String,
    started_at: i64,
    flagged_permission: bool,
}

pub struct PendingView {
    pub id: Seq<char>,
    pub name: Seq<char>,
    pub started_at: i64,
    pub flagged_permission: bool,
}

impl View for PendingTool {
    type V = PendingView;

    closed spec fn view(&self) -> PendingView {
        PendingView {
            id: self.id@,
            name: self.name@,
            started_at: self.started_at,
            flagged_permission: self.flagged_permission,
        }
    }
}

/// The registry's record of one session.
#[derive(Debug)]
struct AgentInner {
    snapshot: AgentSnapshot,
    pending_tools: Vec<PendingTool>,
    /// Whether the current turn used a tool.
    had_tool_in_turn: bool,
    /// When set, the agent counts as Waiting from this time on.
    text_idle_deadline: Option<i128>,
    /// Set at the end of a turn: the agent waits for the user.
    awaiting_user: bool,
}

pub struct AgentModel {
    pub snap: SnapshotView,
    pub pending: Seq<PendingView>,
    pub had_tool_in_turn: bool,
    pub text_idle_deadline: Option<i128>,
    pub awaiting_user: bool,
}

spec fn pending_views(p: Seq<PendingTool>) -> Seq<PendingView> {
    p.map_values(|t: PendingTool| t@)
}

impl View for AgentInner {
    type V = AgentModel;

    closed spec fn view(&self) -> AgentModel {
        AgentModel {
            snap: self.snapshot@,
            pending: pending_views(self.pending_tools@),
            had_tool_in_turn: self.had_tool_in_turn,
            text_idle_deadline: self.text_idle_deadline,
            awaiting_user: self.awaiting_user,
        }
    }
}

/// Whole seconds from `then` to `now`, as chrono's `num_seconds` counts
/// them, and 0 when `now` is not after `then`.
pub open spec fn secs_between(now: i64, then: i64) -> int {
    let d = now - then;
    if d <= 0 {
        0
    } else {
        d / 1000
    }
}

fn secs_since(now: i64, then: i64) -> (r: u64)
    ensures
        r == secs_between(now, then),
{
    let d: i128 = (now as i128) - (then as i128);
    if d <= 0 {
        0
    } else {
        let s: i128 = d / 1000;
        assert(s < 0x1_0000_0000_0000_0000) by (nonlinear_arith)
            requires
                s == d / 1000,
                d < 0x1_0000_0000_0000_0000,
                d > 0,
        ;
        s as u64
    }
}

pub open spec fn any_flagged(p: Seq<PendingView>) -> bool {
    exists|i: int| 0 <= i < p.len() && #[trigger] p[i].flagged_permission
}

/// The status rule, in priority order: Idle once quiet for the idle
/// timeout; else Waiting on a flagged pending tool, on an ended turn, or on
/// a tool-free turn past its text-idle deadline; else Working.
pub open spec fn status_of(a: AgentModel, s: AgentSettings, now: i64) -> AgentStatus {
    if secs_between(now, a.snap.last_activity) >= s.idle_timeout_secs {
        AgentStatus::Idle
    } else if any_flagged(a.pending) {
        AgentStatus::Waiting
    } else if a.awaiting_user {
        AgentStatus::Waiting
    } else if a.text_idle_deadline matches Some(d) && now >= d && !a.had_tool_in_turn {
        AgentStatus::Waiting
    } else {
        AgentStatus::Working
    }
}

fn compute_status(agent: &AgentInner, settings: &AgentSettings, now: i64) -> (r: AgentStatus)
    ensures
        r == status_of(agent@, *settings, now),
{
    let idle = secs_since(now, agent.snapshot.last_activity);
    if idle >= settings.idle_timeout_secs {
        return AgentStatus::Idle;
    }
    let mut i: usize = 0;
    while i < agent.pending_tools.len()
        invariant
            i <= agent.pending_tools.len(),
            secs_between(now, agent@.snap.last_activity) < settings.idle_timeout_secs,
            forall|j: int| 0 <= j < i ==> !(#[trigger] agent.pending_tools@[j]).flagged_permission,
        decreases agent.pending_tools.len() - i,
    {
        if agent.pending_tools[i].flagged_permission {
            assert(agent@.pending[i as int] == agent.pending_tools@[i as int]@);
            assert(agent@.pending[i as int].flagged_permission);
            return AgentStatus::Waiting;
        }
        i += 1;
    }
    assert(!any_flagged(agent@.pending)) by {
        assert forall|j: int| 0 <= j < agent@.pending.len() implies !(
        #[trigger] agent@.pending[j]).flagged_permission by {
            assert(agent@.pending[j] == agent.pending_tools@[j]@);
        }
    }
    if agent.awaiting_user {
        return AgentStatus::Waiting;
    }
    match agent.text_idle_deadline {
        Some(d) => {
            if (now as i128) >= d && !agent.had_tool_in_turn {
                return AgentStatus::Waiting;
            }
        },
        None => {},
    }
    AgentStatus::Working
}


/// The first `n` characters of `text`.
pub open spec fn preview(text: Seq<char>, n: usize) -> Seq<char> {
    if text.len() <= n {
        text
    } else {
        text.subrange(0, n as int)
    }
}

/// Pending tools with every entry of id `id` taken out, order kept.
pub open spec fn pend_without(p: Seq<PendingView>, id: Seq<char>) -> Seq<PendingView>
    decreases p.len(),
{
    if p.len() == 0 {
        p
    } else {
        let r = pend_without(p.drop_last(), id);
        if p.last().id == id {
            r
        } else {
            r.push(p.last())
        }
    }
}

/// The effect of one event on an agent's record, at time `at`.
pub open spec fn step(a: AgentModel, e: EventView, at: i64, s: AgentSettings) -> AgentModel {
    match e {
        EventView::SessionStart { project, .. } => if project.len() > 0 {
            AgentModel { snap: SnapshotView { project, ..a.snap }, ..a }
        } else {
            a
        },
        EventView::Usage { input, output, cache, model } => AgentModel {
            snap: SnapshotView {
                input_tokens: (a.snap.input_tokens + input) as u64,
                output_tokens: (a.snap.output_tokens + output) as u64,
                cache_tokens: (a.snap.cache_tokens + cache) as u64,
                model: if model.len() > 0 {
                    model
                } else {
                    a.snap.model
                },
                ..a.snap
            },
            ..a
        },
        EventView::AssistantText { text } => AgentModel {
            snap: SnapshotView { current_message: preview(text, s.message_preview_chars), ..a.snap },
            awaiting_user: false,
            text_idle_deadline: if !a.had_tool_in_turn {
                Some((at + s.text_idle_secs * 1000) as i128)
            } else {
                a.text_idle_deadline
            },
            ..a
        },
        EventView::ToolUseStart { tool, id } => AgentModel {
            snap: SnapshotView { current_tool: Some(tool), ..a.snap },
            pending: pend_without(a.pending, id).push(
                PendingView { id, name: tool, started_at: at, flagged_permission: false },
            ),
            had_tool_in_turn: true,
            text_idle_deadline: None,
            awaiting_user: false,
        },
        EventView::ToolUseEnd { id } => {
            let p = pend_without(a.pending, id);
            AgentModel {
                snap: SnapshotView {
                    current_tool: if p.len() == 0 {
                        None
                    } else {
                        Some(p[0].name)
                    },
                    ..a.snap
                },
                pending: p,
                ..a
            }
        },
        EventView::TurnEnd => AgentModel {
            had_tool_in_turn: false,
            text_idle_deadline: None,
            awaiting_user: true,
            ..a
        },
        EventView::UserMessage => AgentModel {
            had_tool_in_turn: false,
            text_idle_deadline: None,
            awaiting_user: false,
            ..a
        },
        EventView::Unknown => a,
    }
}

pub open spec fn usage_in(e: EventView) -> (int, int, int) {
    match e {
        EventView::Usage { input, output, cache, .. } => (input as int, output as int, cache as int),
        _ => (0, 0, 0),
    }
}

/// Token counts reported by the usage events of `es`: input, output, cache.
pub open spec fn usage_sum(es: Seq<EventView>) -> (int, int, int)
    decreases es.len(),
{
    if es.len() == 0 {
        (0, 0, 0)
    } else {
        let r = usage_sum(es.drop_last());
        let u = usage_in(es.last());
        (r.0 + u.0, r.1 + u.1, r.2 + u.2)
    }
}

/// The running token totals of `a` stay within `u64` through `es`.
pub open spec fn totals_fit(a: AgentModel, es: Seq<EventView>) -> bool {
    let u = usage_sum(es);
    &&& a.snap.input_tokens + u.0 <= u64::MAX
    &&& a.snap.output_tokens + u.1 <= u64::MAX
    &&& a.snap.cache_tokens + u.2 <= u64::MAX
}

/// The events `es`, in order, applied to `a`.
pub open spec fn fold(a: AgentModel, es: Seq<EventView>, at: i64, s: AgentSettings) -> AgentModel
    decreases es.len(),
{
    if es.len() == 0 {
        a
    } else {
        step(fold(a, es.drop_last(), at, s), es.last(), at, s)
    }
}

fn copy_pending(t: &PendingTool) -> (r: PendingTool)
    ensures
        r@ == t@,
{
    PendingTool {
        id: t.id.clone(),
        name: t.name.clone(),
        started_at: t.started_at,
        flagged_permission: t.flagged_permission,
    }
}

fn without_pending(p: &Vec<PendingTool>, id: &String) -> (r: Vec<PendingTool>)
    ensures
        pending_views(r@) == pend_without(pending_views(p@), id@),
{
    let ghost pv = pending_views(p@);
    let mut out: Vec<PendingTool> = Vec::new();
    let mut i: usize = 0;
    while i < p.len()
        invariant
            i <= p.len(),
            pv == pending_views(p@),
            pending_views(out@) == pend_without(pv.subrange(0, i as int), id@),
        decreases p.len() - i,
    {
        let ghost prev = out@;
        let ghost sub = pv.subrange(0, i + 1);
        proof {
            assert(sub.drop_last() =~= pv.subrange(0, i as int));
            assert(sub.last() == p@[i as int]@);
        }
        if p[i].id != *id {
            let c = copy_pending(&p[i]);
            out.push(c);
            proof {
                assert(pending_views(out@) =~= pending_views(prev).push(p@[i as int]@));
            }
        }
        i += 1;
    }
    assert(pv.subrange(0, p.len() as int) =~= pv);
    out
}

fn preview_of(text: &String, n: usize) -> (r: String)
    ensures
        r@ == preview(text@, n),
{
    let s = text.as_str();
    let len = s.unicode_len();
    if len <= n {
        text.clone()
    } else {
        crate::text::owned(s.substring_char(0, n))
    }
}

fn apply_one(a: &mut AgentInner, e: &ClaudeEvent, at: i64, settings: &AgentSettings)
    requires
        totals_fit(old(a)@, seq![e@]),
    ensures
        final(a)@ == step(old(a)@, e@, at, *settings),
{
    proof {
        assert(seq![e@].drop_last() =~= Seq::<EventView>::empty());
        assert(usage_sum(Seq::<EventView>::empty()) == (0int, 0int, 0int));
        assert(seq![e@].last() == e@);
        assert(usage_sum(seq![e@]) == usage_in(e@));
    }
    match e {
        ClaudeEvent::SessionStart { project, .. } => {
            if !project.as_str().is_empty() {
                a.snapshot.project = project.clone();
            }
        },
        ClaudeEvent::Usage { input, output, cache, model } => {
            a.snapshot.input_tokens = a.snapshot.input_tokens + *input;
            a.snapshot.output_tokens = a.snapshot.output_tokens + *output;
            a.snapshot.cache_tokens = a.snapshot.cache_tokens + *cache;
            if !model.as_str().is_empty() {
                a.snapshot.model = model.clone();
            }
        },
        ClaudeEvent::AssistantText { text } => {
            a.snapshot.current_message = preview_of(text, settings.message_preview_chars);
            a.awaiting_user = false;
            if !a.had_tool_in_turn {
                let d: i128 = (at as i128) + (settings.text_idle_secs as i128) * 1000;
                a.text_idle_deadline = Some(d);
            }
        },
        ClaudeEvent::ToolUseStart { tool, id } => {
            a.had_tool_in_turn = true;
            a.text_idle_deadline = None;
            a.awaiting_user = false;
            let mut p = without_pending(&a.pending_tools, id);
            let ghost pv = p@;
            p.push(
                PendingTool {
                    id: id.clone(),
                    name: tool.clone(),
                    started_at: at,
                    flagged_permission: false,
                },
            );
            proof {
                assert(pending_views(p@) =~= pending_views(pv).push(
                    PendingView { id: id@, name: tool@, started_at: at, flagged_permission: false },
                ));
            }
            a.pending_tools = p;
            a.snapshot.current_tool = Some(tool.clone());
        },
        ClaudeEvent::ToolUseEnd { id } => {
            let p = without_pending(&a.pending_tools, id);
            if p.len() == 0 {
                a.snapshot.current_tool = None;
            } else {
                assert(pending_views(p@)[0] == p@[0]@);
                a.snapshot.current_tool = Some(p[0].name.clone());
            }
            a.pending_tools = p;
        },
        ClaudeEvent::TurnEnd => {
            a.had_tool_in_turn = false;
            a.text_idle_deadline = None;
            a.awaiting_user = true;
        },
        ClaudeEvent::UserMessage => {
            a.had_tool_in_turn = false;
            a.text_idle_deadline = None;
            a.awaiting_user = false;
        },
        ClaudeEvent::Unknown => {},
    }
}


proof fn lemma_usage_prefix(es: Seq<EventView>, k: int)
    requires
        0 <= k <= es.len(),
    ensures
        usage_sum(es.subrange(0, k)).0 <= usage_sum(es).0,
        usage_sum(es.subrange(0, k)).1 <= usage_sum(es).1,
        usage_sum(es.subrange(0, k)).2 <= usage_sum(es).2,
    decreases es.len(),
{
    if k < es.len() {
        lemma_usage_prefix(es.drop_last(), k);
        assert(es.drop_last().subrange(0, k) =~= es.subrange(0, k));
    } else {
        assert(es.subrange(0, k) =~= es);
    }
}

/// Index of the first record of session `id`.
pub open spec fn is_first_agent(ags: Seq<AgentModel>, id: Seq<char>, i: int) -> bool {
    0 <= i < ags.len() && ags[i].snap.session_id == id && forall|j: int|
        0 <= j < i ==> #[trigger] ags[j].snap.session_id != id
}

pub open spec fn find_agent(ags: Seq<AgentModel>, id: Seq<char>) -> Option<int> {
    if exists|i: int| is_first_agent(ags, id, i) {
        Some(choose|i: int| is_first_agent(ags, id, i))
    } else {
        None
    }
}

proof fn lemma_find_agent(ags: Seq<AgentModel>, id: Seq<char>, i: int)
    requires
        is_first_agent(ags, id, i),
    ensures
        find_agent(ags, id) == Some(i),
{
    let k = choose|k: int| is_first_agent(ags, id, k);
    assert(is_first_agent(ags, id, k));
    if k < i {
        assert(ags[k].snap.session_id != id);
    }
    if i < k {
        assert(ags[i].snap.session_id != id);
    }
}

proof fn lemma_has_first(ags: Seq<AgentModel>, id: Seq<char>, j: int)
    requires
        0 <= j < ags.len(),
        ags[j].snap.session_id == id,
    ensures
        find_agent(ags, id) is Some,
    decreases j,
{
    if exists|k: int| 0 <= k < j && #[trigger] ags[k].snap.session_id == id {
        let k = choose|k: int| 0 <= k < j && #[trigger] ags[k].snap.session_id == id;
        lemma_has_first(ags, id, k);
    } else {
        assert(is_first_agent(ags, id, j));
    }
}

proof fn lemma_find_none(ags: Seq<AgentModel>, id: Seq<char>)
    requires
        forall|j: int| 0 <= j < ags.len() ==> #[trigger] ags[j].snap.session_id != id,
    ensures
        find_agent(ags, id) is None,
{
}

/// No two records belong to the same session.
pub open spec fn unique_ids(ags: Seq<AgentModel>) -> bool {
    forall|i: int, j: int|
        0 <= i < ags.len() && 0 <= j < ags.len() && i != j ==> ags[i].snap.session_id
            != ags[j].snap.session_id
}

/// The record a new session starts from.
pub open spec fn new_agent(id: Seq<char>, at: i64, parent: Option<Seq<char>>) -> AgentModel {
    AgentModel {
        snap: SnapshotView {
            session_id: id,
            project: Seq::empty(),
            status: AgentStatus::Working,
            current_message: Seq::empty(),
            current_tool: None,
            model: Seq::empty(),
            input_tokens: 0,
            output_tokens: 0,
            cache_tokens: 0,
            last_activity: at,
            started_at: at,
            parent_id: parent,
        },
        pending: Seq::empty(),
        had_tool_in_turn: false,
        text_idle_deadline: None,
        awaiting_user: false,
    }
}

/// The record events of session `id` start from: its current one, or a new one.
pub open spec fn base_of(ags: Seq<AgentModel>, id: Seq<char>, at: i64, parent: Option<Seq<char>>) -> AgentModel {
    match find_agent(ags, id) {
        Some(i) => ags[i],
        None => new_agent(id, at, parent),
    }
}

/// Activity stamped at `at`, then the status re-evaluated at `now`.
pub open spec fn finished(a: AgentModel, at: i64, s: AgentSettings, now: i64) -> AgentModel {
    let b = AgentModel { snap: SnapshotView { last_activity: at, ..a.snap }, ..a };
    AgentModel { snap: SnapshotView { status: status_of(b, s, now), ..b.snap }, ..b }
}

/// The record of session `id` after the batch `es`.
pub open spec fn applied_agent(
    ags: Seq<AgentModel>,
    id: Seq<char>,
    es: Seq<EventView>,
    at: i64,
    parent: Option<Seq<char>>,
    s: AgentSettings,
    now: i64,
) -> AgentModel {
    finished(fold(base_of(ags, id, at, parent), es, at, s), at, s, now)
}

/// All records after the batch `es` of session `id`: unchanged when the
/// batch is empty, else the session's record replaced, or appended if new.
pub open spec fn applied_agents(
    ags: Seq<AgentModel>,
    id: Seq<char>,
    es: Seq<EventView>,
    at: i64,
    parent: Option<Seq<char>>,
    s: AgentSettings,
    now: i64,
) -> Seq<AgentModel> {
    if es.len() == 0 {
        ags
    } else {
        let a = applied_agent(ags, id, es, at, parent, s, now);
        match find_agent(ags, id) {
            Some(i) => ags.update(i, a),
            None => ags.push(a),
        }
    }
}

/// A tool pending past the permission timeout gets flagged.
pub open spec fn flag_tool(t: PendingView, s: AgentSettings, now: i64) -> PendingView {
    if !t.flagged_permission && secs_between(now, t.started_at) >= s.permission_timeout_secs {
        PendingView { flagged_permission: true, ..t }
    } else {
        t
    }
}

/// One record after a tick at `now`: while not idle, long-pending tools are
/// flagged; then the status is re-evaluated.
pub open spec fn ticked(a: AgentModel, s: AgentSettings, now: i64) -> AgentModel {
    let idle = secs_between(now, a.snap.last_activity) >= s.idle_timeout_secs;
    let b = if !idle {
        AgentModel { pending: a.pending.map_values(|t: PendingView| flag_tool(t, s, now)), ..a }
    } else {
        a
    };
    AgentModel { snap: SnapshotView { status: status_of(b, s, now), ..b.snap }, ..b }
}

pub open spec fn ticked_all(ags: Seq<AgentModel>, s: AgentSettings, now: i64) -> Seq<AgentModel> {
    ags.map_values(|a: AgentModel| ticked(a, s, now))
}

/// Snapshots, in record order, of the records whose status differs.
pub open spec fn changed(before: Seq<AgentModel>, after: Seq<AgentModel>) -> Seq<SnapshotView>
    decreases before.len(),
{
    if before.len() == 0 || after.len() == 0 {
        Seq::empty()
    } else {
        let r = changed(before.drop_last(), after.drop_last());
        if after.last().snap.status != before.last().snap.status {
            r.push(after.last().snap)
        } else {
            r
        }
    }
}

/// Snapshots, in record order, of the records that went from Working to Waiting.
pub open spec fn newly_waiting(before: Seq<AgentModel>, after: Seq<AgentModel>) -> Seq<SnapshotView>
    decreases before.len(),
{
    if before.len() == 0 || after.len() == 0 {
        Seq::empty()
    } else {
        let r = newly_waiting(before.drop_last(), after.drop_last());
        if after.last().snap.status == AgentStatus::Waiting && before.last().snap.status
            == AgentStatus::Working {
            r.push(after.last().snap)
        } else {
            r
        }
    }
}

/// Abstract state of the registry.
pub struct RegistryView {
    pub agents: Seq<AgentModel>,
    pub settings: AgentSettings,
}

/// Registry of the sessions seen so far.
pub struct AgentRegistry {
    agents: Vec<AgentInner>,
    settings: AgentSettings,
}

spec fn agent_views(ags: Seq<AgentInner>) -> Seq<AgentModel> {
    ags.map_values(|a: AgentInner| a@)
}

pub open spec fn snapshot_views(s: Seq<AgentSnapshot>) -> Seq<SnapshotView> {
    s.map_values(|a: AgentSnapshot| a@)
}

pub open spec fn opt_snapshot(o: Option<AgentSnapshot>) -> Option<SnapshotView> {
    match o {
        Some(a) => Some(a@),
        None => None,
    }
}

impl View for AgentRegistry {
    type V = RegistryView;

    closed spec fn view(&self) -> RegistryView {
        RegistryView { agents: agent_views(self.agents@), settings: self.settings }
    }
}

/// Current time in milliseconds since the epoch: the system clock
/// (`SystemTime::now`) converted by chrono's `From<SystemTime>` for
/// `DateTime<Utc>`, which also handles a clock set before 1970 (it panics
/// only for a clock more than 262,000 years from 1970, past any system
/// clock's range). Nothing is stated of the value: it is the time.
#[verifier::external_body]
pub(crate) fn now_millis() -> i64 {
    chrono::DateTime::<chrono::Utc>::from(std::time::SystemTime::now()).timestamp_millis()
}


impl AgentRegistry {
    /// An empty registry with the default settings.
    pub fn new() -> (r: AgentRegistry)
        ensures
            r@.agents.len() == 0,
            r@.settings == default_settings(),
    {
        AgentRegistry { agents: Vec::new(), settings: AgentSettings::default() }
    }

    /// Snapshots of every session, in record order.
    pub fn snapshot_all(&self) -> (r: Vec<AgentSnapshot>)
        ensures
            r@.len() == self@.agents.len(),
            forall|i: int| 0 <= i < r@.len() ==> #[trigger] r@[i]@ == self@.agents[i].snap,
    {
        let mut out: Vec<AgentSnapshot> = Vec::new();
        let mut i: usize = 0;
        while i < self.agents.len()
            invariant
                i <= self.agents.len(),
                out@.len() == i,
                forall|j: int| 0 <= j < i ==> #[trigger] out@[j]@ == self@.agents[j].snap,
            decreases self.agents.len() - i,
        {
            out.push(self.agents[i].snapshot.copy());
            i += 1;
        }
        out
    }

    fn find(&self, session_id: &str) -> (r: Option<usize>)
        ensures
            match r {
                Some(i) => find_agent(self@.agents, session_id@) == Some(i as int),
                None => find_agent(self@.agents, session_id@) is None,
            },
    {
        let ghost ags = self@.agents;
        let mut i: usize = 0;
        while i < self.agents.len()
            invariant
                i <= self.agents.len(),
                ags == self@.agents,
                ags.len() == self.agents.len(),
                forall|j: int| 0 <= j < i ==> #[trigger] ags[j].snap.session_id != session_id@,
            decreases self.agents.len() - i,
        {
            assert(ags[i as int] == self.agents@[i as int]@);
            if crate::text::str_eq(self.agents[i].snapshot.session_id.as_str(), session_id) {
                proof {
                    lemma_find_agent(ags, session_id@, i as int);
                }
                return Some(i);
            }
            i += 1;
        }
        proof {
            lemma_find_none(ags, session_id@);
        }
        None
    }

    /// The snapshot of session `session_id`, if it has been seen.
    pub fn snapshot_one(&self, session_id: &str) -> (r: Option<AgentSnapshot>)
        ensures
            opt_snapshot(r) == (match find_agent(self@.agents, session_id@) {
                Some(i) => Some(self@.agents[i].snap),
                None => None,
            }),
    {
        match self.find(session_id) {
            Some(i) => {
                assert(self@.agents[i as int] == self.agents@[i as int]@);
                Some(self.agents[i].snapshot.copy())
            },
            None => None,
        }
    }

    /// The current settings.
    pub fn settings(&self) -> (r: AgentSettings)
        ensures
            r == self@.settings,
    {
        self.settings
    }

    /// Replaces the settings; the records are unchanged.
    pub fn update_settings(&mut self, new_settings: AgentSettings)
        ensures
            final(self)@.settings == new_settings,
            final(self)@.agents == old(self)@.agents,
    {
        self.settings = new_settings;
    }

    /// Whether applying `events` to session `session_id` keeps its running
    /// token totals within `u64`.
    pub fn usage_fits(&self, session_id: &str, events: &[ClaudeEvent]) -> (r: bool)
        ensures
            r == totals_fit(base_of(self@.agents, session_id@, 0, None), event_views(events@)),
    {
        let (a, b, c): (u64, u64, u64) = match self.find(session_id) {
            Some(i) => {
                assert(self@.agents[i as int] == self.agents@[i as int]@);
                (
                    self.agents[i].snapshot.input_tokens,
                    self.agents[i].snapshot.output_tokens,
                    self.agents[i].snapshot.cache_tokens,
                )
            },
            None => (0, 0, 0),
        };
        let ghost es = event_views(events@);
        let ghost base = base_of(self@.agents, session_id@, 0, None);
        assert(base.snap.input_tokens == a && base.snap.output_tokens == b && base.snap.cache_tokens
            == c);
        let mut x: u64 = a;
        let mut y: u64 = b;
        let mut z: u64 = c;
        let mut k: usize = 0;
        while k < events.len()
            invariant
                k <= events.len(),
                es == event_views(events@),
                es.len() == events@.len(),
                base == base_of(self@.agents, session_id@, 0, None),
                base.snap.input_tokens == a && base.snap.output_tokens == b
                    && base.snap.cache_tokens == c,
                x == a + usage_sum(es.subrange(0, k as int)).0,
                y == b + usage_sum(es.subrange(0, k as int)).1,
                z == c + usage_sum(es.subrange(0, k as int)).2,
            decreases events.len() - k,
        {
            proof {
                let pre = es.subrange(0, k + 1);
                assert(pre.drop_last() =~= es.subrange(0, k as int));
                assert(pre.last() == events@[k as int]@);
                lemma_usage_prefix(es, k + 1);
            }
            let (u, v, w): (u64, u64, u64) = match &events[k] {
                ClaudeEvent::Usage { input, output, cache, .. } => (*input, *output, *cache),
                _ => (0, 0, 0),
            };
            proof {
                let pre = es.subrange(0, k + 1);
                assert(usage_in(es[k as int]) == (u as int, v as int, w as int));
                assert(usage_sum(pre).0 == usage_sum(es.subrange(0, k as int)).0 + u);
                assert(usage_sum(pre).1 == usage_sum(es.subrange(0, k as int)).1 + v);
                assert(usage_sum(pre).2 == usage_sum(es.subrange(0, k as int)).2 + w);
            }
            if x > u64::MAX - u || y > u64::MAX - v || z > u64::MAX - w {
                return false;
            }
            x = x + u;
            y = y + v;
            z = z + w;
            k += 1;
        }
        assert(es.subrange(0, events.len() as int) =~= es);
        true
    }
}


proof fn lemma_fold_keeps_id(a: AgentModel, es: Seq<EventView>, at: i64, s: AgentSettings)
    ensures
        fold(a, es, at, s).snap.session_id == a.snap.session_id,
    decreases es.len(),
{
    if es.len() > 0 {
        lemma_fold_keeps_id(a, es.drop_last(), at, s);
    }
}

impl AgentRegistry {
    /// Applies the events of one session at time `at` and returns its new
    /// snapshot, the status evaluated at `now`; `None`, with nothing changed,
    /// for an empty batch. A session seen for the first time starts at `at`
    /// with `parent_id` as its parent.
    pub fn apply_events_at(
        &mut self,
        session_id: &str,
        events: &[ClaudeEvent],
        at: i64,
        parent_id: Option<String>,
        now: i64,
    ) -> (r: Option<AgentSnapshot>)
        requires
            totals_fit(
                base_of(old(self)@.agents, session_id@, at, opt_str_view(parent_id)),
                event_views(events@),
            ),
        ensures
            final(self)@.settings == old(self)@.settings,
            final(self)@.agents == applied_agents(
                old(self)@.agents,
                session_id@,
                event_views(events@),
                at,
                opt_str_view(parent_id),
                old(self)@.settings,
                now,
            ),
            events@.len() == 0 ==> r is None,
            events@.len() > 0 ==> opt_snapshot(r) == Some(
                applied_agent(
                    old(self)@.agents,
                    session_id@,
                    event_views(events@),
                    at,
                    opt_str_view(parent_id),
                    old(self)@.settings,
                    now,
                ).snap,
            ),
            unique_ids(old(self)@.agents) ==> unique_ids(final(self)@.agents),
    {
        if events.len() == 0 {
            return None;
        }
        let ghost old_ags = self@.agents;
        let ghost es = event_views(events@);
        let ghost parent = opt_str_view(parent_id);
        let ghost base = base_of(old_ags, session_id@, at, parent);
        let settings = self.settings;
        let found = self.find(session_id);
        let idx: usize = match found {
            Some(i) => {
                assert(self.agents@[i as int]@ == base);
                i
            },
            None => {
                let fresh = AgentInner {
                    snapshot: AgentSnapshot {
                        session_id: crate::text::owned(session_id),
                        project: String::new(),
                        status: AgentStatus::Working,
                        current_message: String::new(),
                        current_tool: None,
                        model: String::new(),
                        input_tokens: 0,
                        output_tokens: 0,
                        cache_tokens: 0,
                        last_activity: at,
                        started_at: at,
                        parent_id,
                    },
                    pending_tools: Vec::new(),
                    had_tool_in_turn: false,
                    text_idle_deadline: None,
                    awaiting_user: false,
                };
                assert(pending_views(fresh.pending_tools@) =~= Seq::<PendingView>::empty());
                assert(fresh@ == new_agent(session_id@, at, parent));
                self.agents.push(fresh);
                assert(agent_views(self.agents@) =~= old_ags.push(base));
                self.agents.len() - 1
            },
        };
        let ghost start = agent_views(self.agents@);
        assert(start[idx as int] == base);
        let mut k: usize = 0;
        while k < events.len()
            invariant
                k <= events.len(),
                es == event_views(events@),
                es.len() == events@.len(),
                idx < self.agents@.len(),
                start.len() == self.agents@.len(),
                totals_fit(base, es),
                self.settings == settings,
                agent_views(self.agents@) == start.update(
                    idx as int,
                    fold(base, es.subrange(0, k as int), at, settings),
                ),
                fold(base, es.subrange(0, k as int), at, settings).snap.input_tokens
                    == base.snap.input_tokens + usage_sum(es.subrange(0, k as int)).0,
                fold(base, es.subrange(0, k as int), at, settings).snap.output_tokens
                    == base.snap.output_tokens + usage_sum(es.subrange(0, k as int)).1,
                fold(base, es.subrange(0, k as int), at, settings).snap.cache_tokens
                    == base.snap.cache_tokens + usage_sum(es.subrange(0, k as int)).2,
            decreases events.len() - k,
        {
            let ghost cur = fold(base, es.subrange(0, k as int), at, settings);
            proof {
                let pre = es.subrange(0, k + 1);
                assert(pre.drop_last() =~= es.subrange(0, k as int));
                assert(pre.last() == events@[k as int]@);
                lemma_usage_prefix(es, k + 1);
                assert(seq![events@[k as int]@].drop_last() =~= Seq::<EventView>::empty());
                assert(usage_sum(Seq::<EventView>::empty()) == (0int, 0int, 0int));
                assert(usage_sum(seq![events@[k as int]@]) == usage_in(events@[k as int]@));
                assert(self.agents@[idx as int]@ == agent_views(self.agents@)[idx as int]);
            }
            let ghost before_views = agent_views(self.agents@);
            apply_one(&mut self.agents[idx], &events[k], at, &settings);
            proof {
                let pre = es.subrange(0, k + 1);
                assert(fold(base, pre, at, settings) == step(
                    fold(base, es.subrange(0, k as int), at, settings),
                    es[k as int],
                    at,
                    settings,
                ));
                assert(self.agents@[idx as int]@ == fold(base, pre, at, settings));
                assert(agent_views(self.agents@) =~= before_views.update(
                    idx as int,
                    fold(base, pre, at, settings),
                ));
                assert(agent_views(self.agents@) =~= start.update(
                    idx as int,
                    fold(base, es.subrange(0, k + 1), at, settings),
                ));
            }
            k += 1;
        }
        assert(es.subrange(0, events.len() as int) =~= es);
        let ghost folded = fold(base, es, at, settings);
        assert(agent_views(self.agents@)[idx as int] == self.agents@[idx as int]@);
        assert(self.agents@[idx as int]@ == folded);
        let ghost v0 = self.agents@;
        assert(agent_views(v0) =~= start.update(idx as int, folded));
        self.agents[idx].snapshot.last_activity = at;
        let ghost stamped = AgentModel {
            snap: SnapshotView { last_activity: at, ..folded.snap },
            ..folded
        };
        assert(self.agents@[idx as int]@ == stamped);
        let st = compute_status(&self.agents[idx], &settings, now);
        self.agents[idx].snapshot.status = st;
        let ghost fin = applied_agent(old_ags, session_id@, es, at, parent, settings, now);
        assert(fin == finished(folded, at, settings, now));
        assert(self.agents@[idx as int]@ == fin);
        assert(forall|j: int| 0 <= j < v0.len() && j != idx ==> self.agents@[j] == v0[j]);
        proof {
            assert forall|j: int| 0 <= j < start.len() implies #[trigger] agent_views(
                self.agents@,
            )[j] == start.update(idx as int, fin)[j] by {
                if j != idx {
                    assert(agent_views(self.agents@)[j] == self.agents@[j]@);
                    assert(agent_views(v0)[j] == v0[j]@);
                }
            }
            assert(agent_views(self.agents@) =~= start.update(idx as int, fin));
            match found {
                Some(i) => {
                    assert(agent_views(self.agents@) =~= old_ags.update(i as int, fin));
                },
                None => {
                    assert(agent_views(self.agents@) =~= old_ags.push(fin));
                },
            }
            lemma_fold_keeps_id(base, es, at, settings);
            if unique_ids(old_ags) {
                let after = agent_views(self.agents@);
                assert forall|i: int, j: int|
                    0 <= i < after.len() && 0 <= j < after.len() && i != j implies after[i].snap.session_id
                    != after[j].snap.session_id by {
                    match found {
                        Some(f) => {
                            if i == f {
                                assert(after[i].snap.session_id == old_ags[i].snap.session_id);
                            }
                            if j == f {
                                assert(after[j].snap.session_id == old_ags[j].snap.session_id);
                            }
                        },
                        None => {
                            if i == old_ags.len() && old_ags[j].snap.session_id == session_id@ {
                                lemma_has_first(old_ags, session_id@, j);
                            }
                            if j == old_ags.len() && old_ags[i].snap.session_id == session_id@ {
                                lemma_has_first(old_ags, session_id@, i);
                            }
                        },
                    }
                }
            }
        }
        Some(self.agents[idx].snapshot.copy())
    }

    /// Applies the events of one session at time `at`, the status evaluated
    /// at the current time; see `apply_events_at`.
    pub fn apply_events(
        &mut self,
        session_id: &str,
        events: &[ClaudeEvent],
        at: i64,
        parent_id: Option<String>,
    ) -> (r: Option<AgentSnapshot>)
        requires
            totals_fit(
                base_of(old(self)@.agents, session_id@, at, opt_str_view(parent_id)),
                event_views(events@),
            ),
        ensures
            final(self)@.settings == old(self)@.settings,
            exists|now: i64|
                final(self)@.agents == applied_agents(
                    old(self)@.agents,
                    session_id@,
                    event_views(events@),
                    at,
                    opt_str_view(parent_id),
                    old(self)@.settings,
                    now,
                ) && (events@.len() > 0 ==> opt_snapshot(r) == Some(
                    applied_agent(
                        old(self)@.agents,
                        session_id@,
                        event_views(events@),
                        at,
                        opt_str_view(parent_id),
                        old(self)@.settings,
                        now,
                    ).snap,
                )),
            events@.len() == 0 ==> r is None,
    {
        let now = now_millis();
        self.apply_events_at(session_id, events, at, parent_id, now)
    }
}


fn tick_one(a: &mut AgentInner, settings: &AgentSettings, now: i64)
    ensures
        final(a)@ == ticked(old(a)@, *settings, now),
{
    let ghost a0 = a@;
    let idle = secs_since(now, a.snapshot.last_activity) >= settings.idle_timeout_secs;
    if !idle {
        let ghost p0 = a.pending_tools@;
        let mut k: usize = 0;
        while k < a.pending_tools.len()
            invariant
                k <= a.pending_tools.len(),
                a.pending_tools@.len() == p0.len(),
                a.snapshot == old(a).snapshot,
                a.had_tool_in_turn == old(a).had_tool_in_turn,
                a.text_idle_deadline == old(a).text_idle_deadline,
                a.awaiting_user == old(a).awaiting_user,
                p0 == old(a).pending_tools@,
                forall|j: int|
                    0 <= j < k ==> #[trigger] a.pending_tools@[j]@ == flag_tool(p0[j]@, *settings, now),
                forall|j: int| k <= j < p0.len() ==> #[trigger] a.pending_tools@[j] == p0[j],
            decreases a.pending_tools.len() - k,
        {
            if !a.pending_tools[k].flagged_permission {
                let el = secs_since(now, a.pending_tools[k].started_at);
                if el >= settings.permission_timeout_secs {
                    a.pending_tools[k].flagged_permission = true;
                }
            }
            k += 1;
        }
        proof {
            assert(pending_views(a.pending_tools@) =~= a0.pending.map_values(
                |t: PendingView| flag_tool(t, *settings, now),
            ));
        }
    }
    let st = compute_status(a, settings, now);
    a.snapshot.status = st;
}

impl AgentRegistry {
    /// Periodic re-evaluation at time `now`: flags tools pending past the
    /// permission timeout on non-idle agents and recomputes every status.
    /// Returns the snapshots whose status changed and, among them, those
    /// that went from Working to Waiting.
    pub fn tick_at(&mut self, now: i64) -> (r: (Vec<AgentSnapshot>, Vec<AgentSnapshot>))
        ensures
            final(self)@.settings == old(self)@.settings,
            final(self)@.agents == ticked_all(old(self)@.agents, old(self)@.settings, now),
            snapshot_views(r.0@) == changed(old(self)@.agents, final(self)@.agents),
            snapshot_views(r.1@) == newly_waiting(old(self)@.agents, final(self)@.agents),
    {
        let ghost before = self@.agents;
        let ghost after = ticked_all(before, self.settings, now);
        let settings = self.settings;
        let mut changes: Vec<AgentSnapshot> = Vec::new();
        let mut waiting: Vec<AgentSnapshot> = Vec::new();
        let mut i: usize = 0;
        while i < self.agents.len()
            invariant
                i <= self.agents.len(),
                self.agents@.len() == before.len(),
                self.settings == settings,
                after == ticked_all(before, settings, now),
                forall|j: int| 0 <= j < i ==> #[trigger] self.agents@[j]@ == after[j],
                forall|j: int| i <= j < before.len() ==> #[trigger] self.agents@[j]@ == before[j],
                snapshot_views(changes@) == changed(
                    before.subrange(0, i as int),
                    after.subrange(0, i as int),
                ),
                snapshot_views(waiting@) == newly_waiting(
                    before.subrange(0, i as int),
                    after.subrange(0, i as int),
                ),
            decreases self.agents.len() - i,
        {
            let ghost c0 = changes@;
            let ghost w0 = waiting@;
            let prev = self.agents[i].snapshot.status;
            tick_one(&mut self.agents[i], &settings, now);
            let cur = self.agents[i].snapshot.status;
            proof {
                let b = before.subrange(0, i + 1);
                let f = after.subrange(0, i + 1);
                assert(b.drop_last() =~= before.subrange(0, i as int));
                assert(f.drop_last() =~= after.subrange(0, i as int));
                assert(b.last() == before[i as int]);
                assert(f.last() == after[i as int]);
                assert(self.agents@[i as int]@ == after[i as int]);
            }
            if cur != prev {
                changes.push(self.agents[i].snapshot.copy());
                proof {
                    assert(snapshot_views(changes@) =~= snapshot_views(c0).push(after[i as int].snap));
                }
                if cur == AgentStatus::Waiting && prev == AgentStatus::Working {
                    waiting.push(self.agents[i].snapshot.copy());
                    proof {
                        assert(snapshot_views(waiting@) =~= snapshot_views(w0).push(
                            after[i as int].snap,
                        ));
                    }
                }
            }
            i += 1;
        }
        proof {
            assert(before.subrange(0, before.len() as int) =~= before);
            assert(after.subrange(0, before.len() as int) =~= after);
            assert(agent_views(self.agents@) =~= after);
        }
        (changes, waiting)
    }

    /// Periodic re-evaluation at the current time; see `tick_at`.
    pub fn tick(&mut self) -> (r: (Vec<AgentSnapshot>, Vec<AgentSnapshot>))
        ensures
            final(self)@.settings == old(self)@.settings,
            exists|now: i64|
                final(self)@.agents == ticked_all(old(self)@.agents, old(self)@.settings, now)
                    && snapshot_views(r.0@) == changed(old(self)@.agents, final(self)@.agents)
                    && snapshot_views(r.1@) == newly_waiting(old(self)@.agents, final(self)@.agents),
    {
        let now = now_millis();
        self.tick_at(now)
    }
}


/// Idle takes priority: an agent quiet for the idle timeout is Idle after a
/// tick, whatever tools it left pending or turn state it was in.
pub proof fn law_quiet_agent_is_idle(a: AgentModel, s: AgentSettings, now: i64)
    requires
        secs_between(now, a.snap.last_activity) >= s.idle_timeout_secs,
    ensures
        ticked(a, s, now).snap.status == AgentStatus::Idle,
        ticked(a, s, now).pending == a.pending,
{
}

/// A tool left pending for the permission timeout makes a session that is
/// not idle wait for permission after a tick, and that tool is flagged.
pub proof fn law_long_pending_tool_waits(a: AgentModel, s: AgentSettings, now: i64, i: int)
    requires
        secs_between(now, a.snap.last_activity) < s.idle_timeout_secs,
        0 <= i < a.pending.len(),
        secs_between(now, a.pending[i].started_at) >= s.permission_timeout_secs,
    ensures
        ticked(a, s, now).snap.status == AgentStatus::Waiting,
        ticked(a, s, now).pending[i].flagged_permission,
{
    let b = ticked(a, s, now);
    assert(b.pending[i].flagged_permission);
    assert(any_flagged(b.pending));
}

proof fn lemma_ticked_twice(a: AgentModel, s: AgentSettings, now: i64)
    ensures
        ticked(ticked(a, s, now), s, now) == ticked(a, s, now),
{
    let b = ticked(a, s, now);
    let idle = secs_between(now, a.snap.last_activity) >= s.idle_timeout_secs;
    if !idle {
        let p1 = a.pending.map_values(|t: PendingView| flag_tool(t, s, now));
        let p2 = p1.map_values(|t: PendingView| flag_tool(t, s, now));
        assert(p2 =~= p1);
    }
}

/// Ticking twice at the same time changes nothing the second time: no
/// record moves and no status change or alert is reported.
pub proof fn law_tick_idempotent(ags: Seq<AgentModel>, s: AgentSettings, now: i64)
    ensures
        ticked_all(ticked_all(ags, s, now), s, now) == ticked_all(ags, s, now),
        changed(ticked_all(ags, s, now), ticked_all(ticked_all(ags, s, now), s, now)).len() == 0,
        newly_waiting(ticked_all(ags, s, now), ticked_all(ticked_all(ags, s, now), s, now)).len()
            == 0,
{
    let t1 = ticked_all(ags, s, now);
    let t2 = ticked_all(t1, s, now);
    assert forall|i: int| 0 <= i < t1.len() implies #[trigger] t2[i] == t1[i] by {
        lemma_ticked_twice(ags[i], s, now);
    }
    assert(t2 =~= t1);
    lemma_no_change(t1);
}

proof fn lemma_no_change(ags: Seq<AgentModel>)
    ensures
        changed(ags, ags).len() == 0,
        newly_waiting(ags, ags).len() == 0,
    decreases ags.len(),
{
    if ags.len() > 0 {
        lemma_no_change(ags.drop_last());
    }
}

/// An alert is raised only on the Working-to-Waiting edge: every alerted
/// snapshot is Waiting, and there are never more alerts than status changes.
pub proof fn law_alerts_are_changes(before: Seq<AgentModel>, after: Seq<AgentModel>)
    ensures
        forall|i: int|
            0 <= i < newly_waiting(before, after).len() ==> #[trigger] newly_waiting(
                before,
                after,
            )[i].status == AgentStatus::Waiting,
        newly_waiting(before, after).len() <= changed(before, after).len(),
    decreases before.len(),
{
    if before.len() > 0 && after.len() > 0 {
        law_alerts_are_changes(before.drop_last(), after.drop_last());
    }
}

/// Token counts accumulate: after a batch, each running total is the old
/// total plus what the batch's usage events report.
pub proof fn law_tokens_accumulate(a: AgentModel, es: Seq<EventView>, at: i64, s: AgentSettings)
    requires
        totals_fit(a, es),
    ensures
        fold(a, es, at, s).snap.input_tokens == a.snap.input_tokens + usage_sum(es).0,
        fold(a, es, at, s).snap.output_tokens == a.snap.output_tokens + usage_sum(es).1,
        fold(a, es, at, s).snap.cache_tokens == a.snap.cache_tokens + usage_sum(es).2,
    decreases es.len(),
{
    if es.len() > 0 {
        lemma_usage_prefix(es, es.len() - 1);
        assert(es.subrange(0, es.len() - 1) =~= es.drop_last());
        law_tokens_accumulate(a, es.drop_last(), at, s);
    }
}

/// After a non-empty batch for session `id`, its first record is the
/// record the batch produced.
proof fn lemma_applied_found(
    ags: Seq<AgentModel>,
    id: Seq<char>,
    es: Seq<EventView>,
    at: i64,
    parent: Option<Seq<char>>,
    s: AgentSettings,
    now: i64,
)
    requires
        es.len() > 0,
    ensures
        ({
            let after = applied_agents(ags, id, es, at, parent, s, now);
            match find_agent(after, id) {
                Some(i) => 0 <= i < after.len() && after[i] == applied_agent(ags, id, es, at, parent, s, now),
                None => false,
            }
        }),
{
    let a = applied_agent(ags, id, es, at, parent, s, now);
    let after = applied_agents(ags, id, es, at, parent, s, now);
    lemma_fold_keeps_id(base_of(ags, id, at, parent), es, at, s);
    match find_agent(ags, id) {
        Some(i) => {
            let k = choose|k: int| is_first_agent(ags, id, k);
            assert(is_first_agent(ags, id, k));
            assert(i == k);
            assert(is_first_agent(after, id, i));
            lemma_find_agent(after, id, i);
        },
        None => {
            let n = ags.len() as int;
            assert forall|j: int| 0 <= j < n implies #[trigger] after[j].snap.session_id != id by {
                if ags[j].snap.session_id == id {
                    lemma_has_first(ags, id, j);
                }
            }
            assert(is_first_agent(after, id, n));
            lemma_find_agent(after, id, n);
        },
    }
}

/// Reading back a write: after a non-empty batch for session `id`, looking
/// the session up finds exactly the snapshot the batch returned.
pub proof fn law_lookup_after_apply(
    ags: Seq<AgentModel>,
    id: Seq<char>,
    es: Seq<EventView>,
    at: i64,
    parent: Option<Seq<char>>,
    s: AgentSettings,
    now: i64,
)
    requires
        es.len() > 0,
    ensures
        ({
            let after = applied_agents(ags, id, es, at, parent, s, now);
            match find_agent(after, id) {
                Some(i) => after[i].snap == applied_agent(ags, id, es, at, parent, s, now).snap,
                None => false,
            }
        }),
{
    lemma_applied_found(ags, id, es, at, parent, s, now);
}

/// An empty batch changes nothing.
pub proof fn law_empty_batch(
    ags: Seq<AgentModel>,
    id: Seq<char>,
    at: i64,
    parent: Option<Seq<char>>,
    s: AgentSettings,
    now: i64,
)
    ensures
        applied_agents(ags, id, Seq::empty(), at, parent, s, now) == ags,
{
}


/// The agent list after a status update for `snap`: the first entry of the
/// same session replaced, or `snap` appended when the session is new.
pub open spec fn upserted(list: Seq<SnapshotView>, snap: SnapshotView) -> Seq<SnapshotView> {
    if exists|i: int| 0 <= i < list.len() && list[i].session_id == snap.session_id {
        list.update(
            choose|i: int|
                0 <= i < list.len() && list[i].session_id == snap.session_id && forall|j: int|
                    0 <= j < i ==> (#[trigger] list[j]).session_id != snap.session_id,
            snap,
        )
    } else {
        list.push(snap)
    }
}

fn first_session(list: &Vec<AgentSnapshot>, id: &str) -> (r: Option<usize>)
    ensures
        match r {
            Some(i) => i < list@.len() && list@[i as int].session_id@ == id@ && forall|j: int|
                0 <= j < i ==> (#[trigger] list@[j]).session_id@ != id@,
            None => forall|j: int| 0 <= j < list@.len() ==> (#[trigger] list@[j]).session_id@ != id@,
        },
{
    let mut i: usize = 0;
    while i < list.len()
        invariant
            i <= list@.len(),
            forall|j: int| 0 <= j < i ==> (#[trigger] list@[j]).session_id@ != id@,
        decreases list.len() - i,
    {
        if crate::text::str_eq(list[i].session_id.as_str(), id) {
            return Some(i);
        }
        i += 1;
    }
    None
}

/// Applies a status update to the window's agent list (see `upserted`).
pub fn upsert_snapshot(list: &mut Vec<AgentSnapshot>, snap: AgentSnapshot)
    ensures
        snapshot_views(final(list)@) == upserted(snapshot_views(old(list)@), snap@),
{
    let ghost l0 = snapshot_views(list@);
    let ghost sv = snap@;
    match first_session(list, snap.session_id.as_str()) {
        Some(i) => {
            proof {
                assert forall|j: int| 0 <= j < i implies (#[trigger] l0[j]).session_id != sv.session_id by {
                    assert(l0[j] == list@[j]@);
                }
                assert(l0[i as int] == list@[i as int]@);
                assert(0 <= i < l0.len() && l0[i as int].session_id == sv.session_id && forall|j: int|
                    0 <= j < i ==> (#[trigger] l0[j]).session_id != sv.session_id);
                let k = choose|k: int|
                    0 <= k < l0.len() && l0[k].session_id == sv.session_id && forall|j: int|
                        0 <= j < k ==> (#[trigger] l0[j]).session_id != sv.session_id;
                if k < i {
                    assert(l0[k] == list@[k]@);
                }
                if (i as int) < k {
                    assert(l0[i as int].session_id == sv.session_id);
                }
                assert(k == i);
            }
            list.set(i, snap);
            proof {
                assert(snapshot_views(list@) =~= l0.update(i as int, sv));
            }
        },
        None => {
            proof {
                assert forall|j: int| 0 <= j < l0.len() implies l0[j].session_id != sv.session_id by {
                    assert(l0[j] == list@[j]@);
                }
            }
            list.push(snap);
            proof {
                assert(snapshot_views(list@) =~= l0.push(sv));
            }
        },
    }
}


/// A record whose status differs across a tick shows up among the changes.
proof fn lemma_changed_has(before: Seq<AgentModel>, after: Seq<AgentModel>, k: int)
    requires
        before.len() == after.len(),
        0 <= k < before.len(),
        before[k].snap.status != after[k].snap.status,
    ensures
        changed(before, after).contains(after[k].snap),
    decreases before.len(),
{
    let r = changed(before.drop_last(), after.drop_last());
    if k == before.len() - 1 {
        assert(changed(before, after) == r.push(after[k].snap));
        assert(r.push(after[k].snap)[r.len() as int] == after[k].snap);
    } else {
        lemma_changed_has(before.drop_last(), after.drop_last(), k);
        assert(after.drop_last()[k] == after[k]);
        let j = choose|j: int| 0 <= j < r.len() && r[j] == after[k].snap;
        if after.last().snap.status != before.last().snap.status {
            assert(r.push(after.last().snap)[j] == after[k].snap);
        }
    }
}

/// A record that goes from Working to Waiting across a tick shows up among
/// the alerts.
proof fn lemma_newly_waiting_has(before: Seq<AgentModel>, after: Seq<AgentModel>, k: int)
    requires
        before.len() == after.len(),
        0 <= k < before.len(),
        before[k].snap.status == AgentStatus::Working,
        after[k].snap.status == AgentStatus::Waiting,
    ensures
        newly_waiting(before, after).contains(after[k].snap),
    decreases before.len(),
{
    let r = newly_waiting(before.drop_last(), after.drop_last());
    if k == before.len() - 1 {
        assert(r.push(after[k].snap)[r.len() as int] == after[k].snap);
    } else {
        lemma_newly_waiting_has(before.drop_last(), after.drop_last(), k);
        assert(after.drop_last()[k] == after[k]);
        let j = choose|j: int| 0 <= j < r.len() && r[j] == after[k].snap;
        if after.last().snap.status == AgentStatus::Waiting && before.last().snap.status
            == AgentStatus::Working {
            assert(r.push(after.last().snap)[j] == after[k].snap);
        }
    }
}

/// Law: a turn without tools that has gone quiet waits for the user. An
/// agent not yet idle, whose turn used no tool and whose text-idle deadline
/// has passed, counts as Waiting, and a tick leaves it Waiting.
pub proof fn law_quiet_text_turn_waits(a: AgentModel, s: AgentSettings, now: i64, d: i128)
    requires
        secs_between(now, a.snap.last_activity) < s.idle_timeout_secs,
        !a.had_tool_in_turn,
        a.text_idle_deadline == Some(d),
        now >= d,
    ensures
        status_of(a, s, now) == AgentStatus::Waiting,
        ticked(a, s, now).snap.status == AgentStatus::Waiting,
{
}

/// Law: an agent whose turn has ended waits for the user until it goes
/// idle, whatever its tools and deadlines.
pub proof fn law_ended_turn_waits(a: AgentModel, s: AgentSettings, now: i64)
    requires
        secs_between(now, a.snap.last_activity) < s.idle_timeout_secs,
        a.awaiting_user,
    ensures
        status_of(a, s, now) == AgentStatus::Waiting,
        ticked(a, s, now).snap.status == AgentStatus::Waiting,
{
}

/// Law: an agent with no reason to wait is Working until it goes idle: not
/// idle, no tool flagged as blocked on permission, its turn not ended, and
/// either a tool used in the turn or no text-idle deadline passed.
pub proof fn law_busy_agent_works(a: AgentModel, s: AgentSettings, now: i64)
    requires
        secs_between(now, a.snap.last_activity) < s.idle_timeout_secs,
        forall|i: int| 0 <= i < a.pending.len() ==> !(#[trigger] a.pending[i]).flagged_permission,
        !a.awaiting_user,
        a.had_tool_in_turn || !(a.text_idle_deadline matches Some(d) && now >= d),
    ensures
        status_of(a, s, now) == AgentStatus::Working,
{
}

/// Law: a reply of text alone, in a turn that used no tool, makes the agent
/// wait for the user once `text_idle_secs` have passed: a tick at any time
/// from then until the idle timeout finds it Waiting, and if it was Working
/// before the tick, the tick reports it both as changed and as newly
/// waiting.
pub proof fn law_text_reply_waits_after_text_idle(
    ags: Seq<AgentModel>,
    id: Seq<char>,
    text: Seq<char>,
    at: i64,
    parent: Option<Seq<char>>,
    s: AgentSettings,
    now: i64,
    later: i64,
)
    requires
        !base_of(ags, id, at, parent).had_tool_in_turn,
        at + s.text_idle_secs * 1000 <= later,
        secs_between(later, at) < s.idle_timeout_secs,
    ensures
        ({
            let es = seq![EventView::AssistantText { text }];
            let after = applied_agents(ags, id, es, at, parent, s, now);
            let t = ticked_all(after, s, later);
            match find_agent(after, id) {
                Some(k) => {
                    &&& t[k].snap.status == AgentStatus::Waiting
                    &&& after[k].snap.status == AgentStatus::Working ==> changed(after, t).contains(
                        t[k].snap,
                    ) && newly_waiting(after, t).contains(t[k].snap)
                },
                None => false,
            }
        }),
{
    let es = seq![EventView::AssistantText { text }];
    let after = applied_agents(ags, id, es, at, parent, s, now);
    let t = ticked_all(after, s, later);
    lemma_applied_found(ags, id, es, at, parent, s, now);
    let k = find_agent(after, id)->Some_0;
    let base = base_of(ags, id, at, parent);
    assert(es.drop_last() =~= Seq::<EventView>::empty());
    assert(fold(base, es.drop_last(), at, s) == base);
    assert(fold(base, es, at, s) == step(base, es.last(), at, s));
    let a = after[k];
    assert(a.text_idle_deadline == Some((at + s.text_idle_secs * 1000) as i128));
    assert(!a.had_tool_in_turn);
    assert(a.snap.last_activity == at);
    assert(t[k] == ticked(a, s, later));
    let b = ticked(a, s, later);
    let pb = a.pending.map_values(|x: PendingView| flag_tool(x, s, later));
    law_quiet_text_turn_waits(AgentModel { pending: pb, ..a }, s, later, (at + s.text_idle_secs * 1000) as i128);
    assert(b.snap.status == AgentStatus::Waiting);
    if a.snap.status == AgentStatus::Working {
        lemma_changed_has(after, t, k);
        lemma_newly_waiting_has(after, t, k);
    }
}

/// The event names a project: a session start with a non-empty project.
pub open spec fn names_project(e: EventView) -> bool {
    e matches EventView::SessionStart { project, .. } && project.len() > 0
}

proof fn lemma_fold_project_last(a: AgentModel, es: Seq<EventView>, at: i64, s: AgentSettings, i: int)
    requires
        0 <= i < es.len(),
        names_project(es[i]),
        forall|j: int| i < j < es.len() ==> !names_project(#[trigger] es[j]),
    ensures
        fold(a, es, at, s).snap.project == es[i]->SessionStart_project,
    decreases es.len(),
{
    if i < es.len() - 1 {
        assert forall|j: int| i < j < es.drop_last().len() implies !names_project(
            #[trigger] es.drop_last()[j],
        ) by {
            assert(es.drop_last()[j] == es[j]);
        }
        assert(es.drop_last()[i] == es[i]);
        lemma_fold_project_last(a, es.drop_last(), at, s, i);
        assert(!names_project(es[es.len() - 1]));
    }
}

proof fn lemma_fold_project_kept(a: AgentModel, es: Seq<EventView>, at: i64, s: AgentSettings)
    requires
        forall|j: int| 0 <= j < es.len() ==> !names_project(#[trigger] es[j]),
    ensures
        fold(a, es, at, s).snap.project == a.snap.project,
    decreases es.len(),
{
    if es.len() > 0 {
        assert forall|j: int| 0 <= j < es.drop_last().len() implies !names_project(
            #[trigger] es.drop_last()[j],
        ) by {
            assert(es.drop_last()[j] == es[j]);
        }
        lemma_fold_project_kept(a, es.drop_last(), at, s);
        assert(!names_project(es[es.len() - 1]));
    }
}

/// Law: a session's project is the one its latest session start named.
/// After a batch holding a session start with a non-empty project, and no
/// later one, the session's snapshot carries that project.
pub proof fn law_session_start_names_project(
    ags: Seq<AgentModel>,
    id: Seq<char>,
    es: Seq<EventView>,
    at: i64,
    parent: Option<Seq<char>>,
    s: AgentSettings,
    now: i64,
    i: int,
)
    requires
        0 <= i < es.len(),
        es[i] matches EventView::SessionStart { project, .. } && project.len() > 0,
        forall|j: int|
            i < j < es.len() ==> !(#[trigger] es[j] matches EventView::SessionStart { project, .. }
                && project.len() > 0),
    ensures
        applied_agent(ags, id, es, at, parent, s, now).snap.project == es[i]->SessionStart_project,
{
    assert forall|j: int| i < j < es.len() implies !names_project(#[trigger] es[j]) by {}
    lemma_fold_project_last(base_of(ags, id, at, parent), es, at, s, i);
}

/// Law: a batch without a session start naming a project (a session start
/// with an empty project included) leaves the session's project as it was.
pub proof fn law_project_kept_without_session_start(
    ags: Seq<AgentModel>,
    id: Seq<char>,
    es: Seq<EventView>,
    at: i64,
    parent: Option<Seq<char>>,
    s: AgentSettings,
    now: i64,
)
    requires
        forall|j: int|
            0 <= j < es.len() ==> !(#[trigger] es[j] matches EventView::SessionStart { project, .. }
                && project.len() > 0),
    ensures
        applied_agent(ags, id, es, at, parent, s, now).snap.project == base_of(
            ags,
            id,
            at,
            parent,
        ).snap.project,
{
    assert forall|j: int| 0 <= j < es.len() implies !names_project(#[trigger] es[j]) by {}
    lemma_fold_project_kept(base_of(ags, id, at, parent), es, at, s);
}

} // verus!
