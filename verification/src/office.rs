//! Discrete part of the Office view: animation states, the status-to-animation
//! routing, speech-bubble labels, and the pixel tables the renderer reads.

use vstd::prelude::*;
use crate::status::AgentStatus;
use crate::text::{ascii_lower_seq, chars_of, contains_seq, lower_contains, owned, push_str, string_of};

verus! {

/// Animation a character plays.
#[derive(Debug, Clone, Copy, PartialEq, Eq, Structural)]
pub enum AnimState {
    Idle,
    Walk,
    Typing,
    Reading,
    Running,
    Waiting,
    Error,
}

pub open spec fn frame_count_of(a: AnimState) -> u32 {
    match a {
        AnimState::Idle => 2,
        AnimState::Walk => 4,
        AnimState::Typing => 4,
        AnimState::Reading => 2,
        AnimState::Running => 3,
        AnimState::Waiting => 2,
        AnimState::Error => 1,
    }
}

impl AnimState {
    /// Number of frames the animation cycles through.
    pub fn frame_count(self) -> (r: u32)
        ensures
            r == frame_count_of(self),
            r >= 1,
    {
        match self {
            AnimState::Idle => 2,
            AnimState::Walk => 4,
            AnimState::Typing => 4,
            AnimState::Reading => 2,
            AnimState::Running => 3,
            AnimState::Waiting => 2,
            AnimState::Error => 1,
        }
    }
}

pub open spec fn opt_view(t: Option<&str>) -> Option<Seq<char>> {
    match t {
        Some(s) => Some(s@),
        None => None,
    }
}

/// The animation for a working agent using `tool`: typing for edits, reading
/// for reads and searches, running for shells and sub-tasks, typing otherwise.
pub open spec fn tool_anim(tool: Seq<char>) -> AnimState {
    let t = ascii_lower_seq(tool);
    if contains_seq(t, "edit"@) || contains_seq(t, "write"@) || contains_seq(t, "notebook"@) {
        AnimState::Typing
    } else if contains_seq(t, "read"@) || contains_seq(t, "grep"@) || contains_seq(t, "glob"@) {
        AnimState::Reading
    } else if contains_seq(t, "bash"@) || contains_seq(t, "task"@) {
        AnimState::Running
    } else {
        AnimState::Typing
    }
}

pub open spec fn anim_for_spec(status: AgentStatus, tool: Option<Seq<char>>) -> AnimState {
    match status {
        AgentStatus::Idle => AnimState::Idle,
        AgentStatus::Waiting => AnimState::Waiting,
        AgentStatus::Error => AnimState::Error,
        AgentStatus::Working => match tool {
            Some(t) => tool_anim(t),
            None => AnimState::Typing,
        },
    }
}

/// The animation that shows an agent in `status` using `tool`.
pub fn anim_for(status: AgentStatus, tool: Option<&str>) -> (r: AnimState)
    ensures
        r == anim_for_spec(status, opt_view(tool)),
{
    match status {
        AgentStatus::Idle => AnimState::Idle,
        AgentStatus::Waiting => AnimState::Waiting,
        AgentStatus::Error => AnimState::Error,
        AgentStatus::Working => match tool {
            Some(t) => {
                let cs = chars_of(t);
                if lower_contains(&cs, "edit") || lower_contains(&cs, "write") || lower_contains(
                    &cs,
                    "notebook",
                ) {
                    AnimState::Typing
                } else if lower_contains(&cs, "read") || lower_contains(&cs, "grep")
                    || lower_contains(&cs, "glob") {
                    AnimState::Reading
                } else if lower_contains(&cs, "bash") || lower_contains(&cs, "task") {
                    AnimState::Running
                } else {
                    AnimState::Typing
                }
            },
            None => AnimState::Typing,
        },
    }
}

/// A tool label capped at 12 characters: longer names keep their first 11
/// characters and end in '.'.
pub open spec fn truncated_label(raw: Seq<char>) -> Seq<char> {
    if raw.len() <= 12 {
        raw
    } else {
        raw.subrange(0, 11).push('.')
    }
}

/// `raw` capped at 12 characters, casing preserved.
pub fn truncate_tool_label(raw: &str) -> (r: String)
    ensures
        r@ == truncated_label(raw@),
        r@.len() <= 12,
{
    let cs = chars_of(raw);
    if cs.len() <= 12 {
        owned(raw)
    } else {
        let mut out: Vec<char> = Vec::new();
        let mut i: usize = 0;
        while i < 11
            invariant
                i <= 11,
                cs@.len() > 12,
                out@ == cs@.subrange(0, i as int),
            decreases 11 - i,
        {
            out.push(cs[i]);
            i += 1;
            assert(out@ =~= cs@.subrange(0, i as int));
        }
        out.push('.');
        string_of(&out)
    }
}

/// The three-character dots suffix for animation phase `phase`
/// (taken modulo 4): "   ", ".  ", ".. ", "...".
pub open spec fn dots_spec(phase: int) -> Seq<char> {
    let p = phase % 4;
    if p == 0 {
        "   "@
    } else if p == 1 {
        ".  "@
    } else if p == 2 {
        ".. "@
    } else {
        "..."@
    }
}

/// Fixed-width dots suffix for phase `phase`, counted modulo 4 (Euclidean,
/// so negative phases wrap too).
pub fn dots_for_phase(phase: i32) -> (r: &'static str)
    ensures
        r@ == dots_spec(phase as int),
{
    let p = phase % 4;
    let q: i32 = if p < 0 { p + 4 } else { p };
    assert(q == (phase as int) % 4);
    if q == 0 {
        "   "
    } else if q == 1 {
        ".  "
    } else if q == 2 {
        ".. "
    } else {
        "..."
    }
}

/// Speech-bubble text: none while walking in, leaving, idle or walking;
/// "Error" for errors; "Waiting" for waiting; the capped tool name (or
/// "Working") while working; the last two followed by the dots for `phase`.
pub open spec fn bubble_spec(
    walking_in: bool,
    leaving: bool,
    anim: AnimState,
    tool: Option<Seq<char>>,
    phase: int,
) -> Option<Seq<char>> {
    if walking_in || leaving {
        None
    } else {
        match anim {
            AnimState::Waiting => Some("Waiting"@ + dots_spec(phase)),
            AnimState::Typing | AnimState::Reading | AnimState::Running => Some(
                truncated_label(
                    match tool {
                        Some(t) => t,
                        None => "Working"@,
                    },
                ) + dots_spec(phase),
            ),
            AnimState::Error => Some("Error"@),
            AnimState::Idle | AnimState::Walk => None,
        }
    }
}

/// The bubble a character shows, given the dots phase of the world clock.
pub fn bubble_text_at(
    walking_in: bool,
    leaving: bool,
    anim: AnimState,
    tool: Option<&str>,
    phase: i32,
) -> (r: Option<String>)
    ensures
        match r {
            Some(s) => bubble_spec(walking_in, leaving, anim, opt_view(tool), phase as int) == Some(
                s@,
            ),
            None => bubble_spec(walking_in, leaving, anim, opt_view(tool), phase as int) is None,
        },
{
    if walking_in || leaving {
        return None;
    }
    let mut base: String = match anim {
        AnimState::Waiting => owned("Waiting"),
        AnimState::Typing | AnimState::Reading | AnimState::Running => {
            let raw: &str = match tool {
                Some(t) => t,
                None => "Working",
            };
            truncate_tool_label(raw)
        },
        AnimState::Error => {
            return Some(owned("Error"));
        },
        AnimState::Idle | AnimState::Walk => {
            return None;
        },
    };
    push_str(&mut base, dots_for_phase(phase));
    Some(base)
}

} // verus!
