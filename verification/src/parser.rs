//! Turning one line of a coding agent's JSONL transcript into events.

use vstd::prelude::*;
use crate::json::{
    Json, JsonValue, as_array, get_field, json_array, json_get, json_str, lemma_view_items,
    opt_json, parse_json, json_parse, str_member, string_member, u64_member, u64_member_of,
    view_items,
};
use crate::text::str_eq;

verus! {

/// One thing that happened in a session, as read from its transcript.
#[derive(Debug, PartialEq)]
pub enum ClaudeEvent {
    SessionStart { session_id: String, project: String },
    Usage { input: u64, output: u64, cache: u64, model: String },
    AssistantText { text: String },
    ToolUseStart { tool: String, id: String },
    ToolUseEnd { id: String },
    /// The assistant finished its turn and waits for the user.
    TurnEnd,
    UserMessage,
    Unknown,
}

/// Mathematical model of a `ClaudeEvent`.
pub enum EventView {
    SessionStart { session_id: Seq<char>, project: Seq<char> },
    Usage { input: u64, output: u64, cache: u64, model: Seq<char> },
    AssistantText { text: Seq<char> },
    ToolUseStart { tool: Seq<char>, id: Seq<char> },
    ToolUseEnd { id: Seq<char> },
    TurnEnd,
    UserMessage,
    Unknown,
}

impl View for ClaudeEvent {
    type V = EventView;

    open spec fn view(&self) -> EventView {
        match self {
            ClaudeEvent::SessionStart { session_id, project } => EventView::SessionStart {
                session_id: session_id@,
                project: project@,
            },
            ClaudeEvent::Usage { input, output, cache, model } => EventView::Usage {
                input: *input,
                output: *output,
                cache: *cache,
                model: model@,
            },
            ClaudeEvent::AssistantText { text } => EventView::AssistantText { text: text@ },
            ClaudeEvent::ToolUseStart { tool, id } => EventView::ToolUseStart {
                tool: tool@,
                id: id@,
            },
            ClaudeEvent::ToolUseEnd { id } => EventView::ToolUseEnd { id: id@ },
            ClaudeEvent::TurnEnd => EventView::TurnEnd,
            ClaudeEvent::UserMessage => EventView::UserMessage,
            ClaudeEvent::Unknown => EventView::Unknown,
        }
    }
}

pub open spec fn event_views(s: Seq<ClaudeEvent>) -> Seq<EventView> {
    s.map_values(|e: ClaudeEvent| e@)
}

pub open spec fn opt_get(o: Option<Json>, key: Seq<char>) -> Option<Json> {
    match o {
        Some(v) => json_get(v, key),
        None => None,
    }
}

/// Project of a `system` line: `cwd` when present, else `project_path`; the
/// empty string when the chosen member is not a string.
pub open spec fn system_project(val: Json) -> Seq<char> {
    let p = match json_get(val, "cwd"@) {
        Some(x) => Some(x),
        None => json_get(val, "project_path"@),
    };
    match json_str(p) {
        Some(s) => s,
        None => Seq::empty(),
    }
}

/// The usage event of an assistant message, when it reports any tokens.
pub open spec fn usage_events(message: Json) -> Seq<EventView> {
    match json_get(message, "usage"@) {
        Some(usage) => {
            let input = u64_member(usage, "input_tokens"@);
            let output = u64_member(usage, "output_tokens"@);
            let cache = u64_member(usage, "cache_read_input_tokens"@);
            if input > 0 || output > 0 || cache > 0 {
                seq![
                    EventView::Usage {
                        input,
                        output,
                        cache,
                        model: str_member(message, "model"@),
                    },
                ]
            } else {
                Seq::empty()
            }
        },
        None => Seq::empty(),
    }
}

/// Event of one content block of an assistant message: non-empty text, or
/// a tool call.
pub open spec fn block_events(block: Json) -> Seq<EventView> {
    let ty = str_member(block, "type"@);
    if ty == "text"@ {
        let t = str_member(block, "text"@);
        if t.len() > 0 {
            seq![EventView::AssistantText { text: t }]
        } else {
            Seq::empty()
        }
    } else if ty == "tool_use"@ {
        seq![
            EventView::ToolUseStart {
                tool: str_member(block, "name"@),
                id: str_member(block, "id"@),
            },
        ]
    } else {
        Seq::empty()
    }
}

pub open spec fn blocks_events(blocks: Seq<Json>) -> Seq<EventView>
    decreases blocks.len(),
{
    if blocks.len() == 0 {
        Seq::empty()
    } else {
        blocks_events(blocks.drop_last()) + block_events(blocks.last())
    }
}

/// Tool results of a user message, in order.
pub open spec fn result_events(blocks: Seq<Json>) -> Seq<EventView>
    decreases blocks.len(),
{
    if blocks.len() == 0 {
        Seq::empty()
    } else {
        let b = blocks.last();
        let rest = result_events(blocks.drop_last());
        if str_member(b, "type"@) == "tool_result"@ {
            rest.push(EventView::ToolUseEnd { id: str_member(b, "tool_use_id"@) })
        } else {
            rest
        }
    }
}

pub open spec fn assistant_events(val: Json) -> Seq<EventView> {
    match json_get(val, "message"@) {
        Some(m) => usage_events(m) + match json_array(json_get(m, "content"@)) {
            Some(bs) => blocks_events(bs),
            None => Seq::empty(),
        },
        None => Seq::empty(),
    }
}

pub open spec fn user_events(val: Json) -> Seq<EventView> {
    match json_array(opt_get(json_get(val, "message"@), "content"@)) {
        Some(bs) => {
            let rs = result_events(bs);
            if rs.len() == 0 {
                seq![EventView::UserMessage]
            } else {
                rs
            }
        },
        None => seq![EventView::UserMessage],
    }
}

/// The events one transcript line stands for, by its `type`.
pub open spec fn json_events(val: Json) -> Seq<EventView> {
    let ty = str_member(val, "type"@);
    if ty == "system"@ {
        seq![
            EventView::SessionStart {
                session_id: str_member(val, "session_id"@),
                project: system_project(val),
            },
        ]
    } else if ty == "assistant"@ {
        assistant_events(val)
    } else if ty == "user"@ || ty == "human"@ {
        user_events(val)
    } else {
        seq![EventView::Unknown]
    }
}

/// The events of a line: none when the line is not JSON.
pub open spec fn line_events(line: Seq<char>) -> Seq<EventView> {
    match json_parse(line) {
        Some(v) => json_events(v),
        None => Seq::empty(),
    }
}

fn project_of(val: &JsonValue) -> (r: String)
    ensures
        r@ == system_project(val@),
{
    let p = match get_field(val, "cwd") {
        Some(x) => Some(x),
        None => get_field(val, "project_path"),
    };
    match crate::json::as_str(p) {
        Some(s) => crate::text::owned(s),
        None => String::new(),
    }
}

fn push_usage(message: &JsonValue, out: &mut Vec<ClaudeEvent>)
    ensures
        event_views(final(out)@) == event_views(old(out)@) + usage_events(message@),
{
    let ghost before = out@;
    match get_field(message, "usage") {
        Some(usage) => {
            let input = u64_member_of(usage, "input_tokens");
            let output = u64_member_of(usage, "output_tokens");
            let cache = u64_member_of(usage, "cache_read_input_tokens");
            if input > 0 || output > 0 || cache > 0 {
                let model = string_member(message, "model");
                out.push(ClaudeEvent::Usage { input, output, cache, model });
            }
        },
        None => {},
    }
    assert(event_views(out@) =~= event_views(before) + usage_events(message@));
}

fn push_block(block: &JsonValue, out: &mut Vec<ClaudeEvent>)
    ensures
        event_views(final(out)@) == event_views(old(out)@) + block_events(block@),
{
    let ghost before = out@;
    let ty = string_member(block, "type");
    if str_eq(ty.as_str(), "text") {
        let text = string_member(block, "text");
        if !text.as_str().is_empty() {
            out.push(ClaudeEvent::AssistantText { text });
        }
    } else if str_eq(ty.as_str(), "tool_use") {
        let tool = string_member(block, "name");
        let id = string_member(block, "id");
        out.push(ClaudeEvent::ToolUseStart { tool, id });
    }
    assert(event_views(out@) =~= event_views(before) + block_events(block@));
}

fn push_blocks(blocks: &Vec<JsonValue>, out: &mut Vec<ClaudeEvent>)
    ensures
        event_views(final(out)@) == event_views(old(out)@) + blocks_events(view_items(blocks@)),
{
    proof {
        lemma_view_items(blocks@);
    }
    let ghost bv = view_items(blocks@);
    let ghost before = out@;
    let mut i: usize = 0;
    while i < blocks.len()
        invariant
            i <= blocks.len(),
            bv == view_items(blocks@),
            bv.len() == blocks.len(),
            forall|j: int| 0 <= j < blocks.len() ==> #[trigger] bv[j] == blocks@[j]@,
            event_views(out@) == event_views(before) + blocks_events(bv.subrange(0, i as int)),
        decreases blocks.len() - i,
    {
        push_block(&blocks[i], out);
        proof {
            let s = bv.subrange(0, i + 1);
            assert(s.drop_last() =~= bv.subrange(0, i as int));
            assert(s.last() == blocks@[i as int]@);
        }
        i += 1;
    }
    assert(bv.subrange(0, blocks.len() as int) =~= bv);
}

fn push_results(blocks: &Vec<JsonValue>, out: &mut Vec<ClaudeEvent>)
    ensures
        event_views(final(out)@) == event_views(old(out)@) + result_events(view_items(blocks@)),
{
    proof {
        lemma_view_items(blocks@);
    }
    let ghost bv = view_items(blocks@);
    let ghost before = out@;
    let mut i: usize = 0;
    while i < blocks.len()
        invariant
            i <= blocks.len(),
            bv == view_items(blocks@),
            bv.len() == blocks.len(),
            forall|j: int| 0 <= j < blocks.len() ==> #[trigger] bv[j] == blocks@[j]@,
            event_views(out@) == event_views(before) + result_events(bv.subrange(0, i as int)),
        decreases blocks.len() - i,
    {
        let ghost prev = out@;
        let ghost s = bv.subrange(0, i + 1);
        proof {
            assert(s.drop_last() =~= bv.subrange(0, i as int));
            assert(s.last() == blocks@[i as int]@);
        }
        let ty = string_member(&blocks[i], "type");
        if str_eq(ty.as_str(), "tool_result") {
            let id = string_member(&blocks[i], "tool_use_id");
            let ghost idv = id@;
            out.push(ClaudeEvent::ToolUseEnd { id });
            proof {
                assert(event_views(out@) =~= event_views(prev).push(EventView::ToolUseEnd { id: idv }));
                assert(result_events(s) == result_events(bv.subrange(0, i as int)).push(
                    EventView::ToolUseEnd { id: idv },
                ));
                assert(event_views(out@) =~= event_views(before) + result_events(s));
            }
        } else {
            assert(result_events(s) == result_events(bv.subrange(0, i as int)));
        }
        i += 1;
    }
    assert(bv.subrange(0, blocks.len() as int) =~= bv);
}

/// The events a parsed transcript line stands for.
pub fn events_from_json(val: &JsonValue) -> (r: Vec<ClaudeEvent>)
    ensures
        event_views(r@) == json_events(val@),
{
    let mut out: Vec<ClaudeEvent> = Vec::new();
    let ty = string_member(val, "type");
    if str_eq(ty.as_str(), "system") {
        let session_id = string_member(val, "session_id");
        let project = project_of(val);
        out.push(ClaudeEvent::SessionStart { session_id, project });
        assert(event_views(out@) =~= json_events(val@));
    } else if str_eq(ty.as_str(), "assistant") {
        match get_field(val, "message") {
            Some(message) => {
                push_usage(message, &mut out);
                match as_array(get_field(message, "content")) {
                    Some(blocks) => {
                        push_blocks(blocks, &mut out);
                    },
                    None => {},
                }
            },
            None => {},
        }
        assert(event_views(out@) =~= json_events(val@));
    } else if str_eq(ty.as_str(), "user") || str_eq(ty.as_str(), "human") {
        let content = match get_field(val, "message") {
            Some(m) => get_field(m, "content"),
            None => None,
        };
        match as_array(content) {
            Some(blocks) => {
                push_results(blocks, &mut out);
                if out.len() == 0 {
                    out.push(ClaudeEvent::UserMessage);
                }
            },
            None => {
                out.push(ClaudeEvent::UserMessage);
            },
        }
        assert(event_views(out@) =~= json_events(val@));
    } else {
        out.push(ClaudeEvent::Unknown);
        assert(event_views(out@) =~= json_events(val@));
    }
    out
}

/// Parses one JSONL line into zero or more events. A line that is not JSON
/// yields none; one line can yield several (text, tool calls, usage).
pub fn parse_jsonl_line(line: &str) -> (r: Vec<ClaudeEvent>)
    ensures
        event_views(r@) == line_events(line@),
{
    match parse_json(line) {
        Ok(val) => events_from_json(&val),
        Err(_) => {
            let out: Vec<ClaudeEvent> = Vec::new();
            assert(event_views(out@) =~= Seq::<EventView>::empty());
            out
        },
    }
}

/// The content blocks of a user line's message, when they form an array.
pub open spec fn user_blocks(val: Json) -> Option<Seq<Json>> {
    match json_get(val, "message"@) {
        Some(m) => json_array(json_get(m, "content"@)),
        None => None,
    }
}

/// The block is a tool result.
pub open spec fn is_tool_result(b: Json) -> bool {
    str_member(b, "type"@) == "tool_result"@
}

proof fn lemma_line_kind(val: Json)
    requires
        str_member(val, "type"@) == "user"@ || str_member(val, "type"@) == "human"@,
    ensures
        json_events(val) == user_events(val),
{
    reveal_strlit("user");
    reveal_strlit("human");
    reveal_strlit("system");
    reveal_strlit("assistant");
    let ty = str_member(val, "type"@);
    assert(ty.len() == 4 || ty.len() == 5);
    assert("system"@.len() == 6 && "assistant"@.len() == 9);
}

proof fn lemma_results_none(bs: Seq<Json>)
    requires
        forall|k: int| 0 <= k < bs.len() ==> !is_tool_result(#[trigger] bs[k]),
    ensures
        result_events(bs).len() == 0,
    decreases bs.len(),
{
    if bs.len() > 0 {
        assert forall|k: int| 0 <= k < bs.drop_last().len() implies !is_tool_result(
            #[trigger] bs.drop_last()[k],
        ) by {
            assert(bs.drop_last()[k] == bs[k]);
        }
        lemma_results_none(bs.drop_last());
        assert(!is_tool_result(bs[bs.len() - 1]));
    }
}

proof fn lemma_results_has(bs: Seq<Json>, k: int)
    requires
        0 <= k < bs.len(),
        is_tool_result(bs[k]),
    ensures
        result_events(bs).contains(EventView::ToolUseEnd { id: str_member(bs[k], "tool_use_id"@) }),
        forall|j: int|
            0 <= j < result_events(bs).len() ==> #[trigger] result_events(bs)[j] is ToolUseEnd,
    decreases bs.len(),
{
    let e = EventView::ToolUseEnd { id: str_member(bs[k], "tool_use_id"@) };
    let r = result_events(bs.drop_last());
    if k == bs.len() - 1 {
        lemma_results_ends(bs.drop_last());
        assert(result_events(bs) == r.push(e));
        assert(r.push(e)[r.len() as int] == e);
    } else {
        assert(bs.drop_last()[k] == bs[k]);
        lemma_results_has(bs.drop_last(), k);
        let j = choose|j: int| 0 <= j < r.len() && r[j] == e;
        if is_tool_result(bs.last()) {
            assert(r.push(EventView::ToolUseEnd { id: str_member(bs.last(), "tool_use_id"@) })[j] == e);
        }
    }
    lemma_results_ends(bs);
}

proof fn lemma_results_ends(bs: Seq<Json>)
    ensures
        forall|j: int|
            0 <= j < result_events(bs).len() ==> #[trigger] result_events(bs)[j] is ToolUseEnd,
    decreases bs.len(),
{
    if bs.len() > 0 {
        lemma_results_ends(bs.drop_last());
    }
}

/// Law: a user (or human) line whose message content is not an array of
/// blocks (a typed prompt given as a string, or no content at all) stands
/// for exactly one event, the user's message: a new turn begins.
pub proof fn law_user_prompt_is_user_message(val: Json)
    requires
        str_member(val, "type"@) == "user"@ || str_member(val, "type"@) == "human"@,
        user_blocks(val) is None,
    ensures
        json_events(val) == seq![EventView::UserMessage],
{
    lemma_line_kind(val);
}

/// Law: a user (or human) line is the user's message exactly when it
/// carries no tool result. Without a tool-result block its events are just
/// `[UserMessage]`; with one, its events are all tool ends, the end of that
/// block's tool among them.
pub proof fn law_user_line_message_or_results(val: Json)
    requires
        str_member(val, "type"@) == "user"@ || str_member(val, "type"@) == "human"@,
    ensures
        (match user_blocks(val) {
            Some(bs) => forall|k: int| 0 <= k < bs.len() ==> !is_tool_result(#[trigger] bs[k]),
            None => true,
        }) ==> json_events(val) == seq![EventView::UserMessage],
        forall|k: int|
            #![trigger user_blocks(val)->Some_0[k]]
            user_blocks(val) is Some && 0 <= k < user_blocks(val)->Some_0.len() && is_tool_result(
                user_blocks(val)->Some_0[k],
            ) ==> json_events(val).contains(
                EventView::ToolUseEnd { id: str_member(user_blocks(val)->Some_0[k], "tool_use_id"@) },
            ) && forall|j: int|
                0 <= j < json_events(val).len() ==> #[trigger] json_events(val)[j] is ToolUseEnd,
{
    lemma_line_kind(val);
    assert(user_blocks(val) == json_array(opt_get(json_get(val, "message"@), "content"@)));
    match user_blocks(val) {
        Some(bs) => {
            if forall|k: int| 0 <= k < bs.len() ==> !is_tool_result(#[trigger] bs[k]) {
                lemma_results_none(bs);
            }
            assert forall|k: int|
                #![trigger bs[k]]
                0 <= k < bs.len() && is_tool_result(bs[k]) implies json_events(val).contains(
                EventView::ToolUseEnd { id: str_member(bs[k], "tool_use_id"@) },
            ) && forall|j: int|
                0 <= j < json_events(val).len() ==> #[trigger] json_events(val)[j] is ToolUseEnd by {
                lemma_results_has(bs, k);
            }
        },
        None => {},
    }
}

} // verus!
