use claude_monitor::layout::{assign_desk, child_offset_from_parent, desk_grid, ROOM_H, ROOM_W};
use claude_monitor::office::{anim_for, bubble_text_at, dots_for_phase, truncate_tool_label, AnimState};
use claude_monitor::status::AgentStatus;
use std::collections::HashMap;

#[test]
fn desk_grid_has_eight_in_room() {
    let desks = desk_grid();
    assert_eq!(desks.len(), 8);
    for d in desks.iter() {
        assert!(d.x >= 0 && d.x < ROOM_W, "desk x={} out of room", d.x);
        assert!(d.y >= 0 && d.y < ROOM_H, "desk y={} out of room", d.y);
    }
}

#[test]
fn desk_positions_are_unique() {
    let desks = desk_grid();
    for (i, a) in desks.iter().enumerate() {
        for (j, b) in desks.iter().enumerate() {
            if i == j {
                continue;
            }
            assert!(a.x != b.x || a.y != b.y, "desks {i} and {j} share coords");
        }
    }
}

#[test]
fn assign_desk_picks_first_free_slot() {
    let mut taken: HashMap<String, usize> = HashMap::new();
    assert_eq!(assign_desk(&taken, "a"), Some(0));
    taken.insert("a".into(), 0);
    assert_eq!(assign_desk(&taken, "b"), Some(1));
}

#[test]
fn assign_desk_skips_taken_slots() {
    let mut taken: HashMap<String, usize> = HashMap::new();
    taken.insert("x".into(), 0);
    taken.insert("y".into(), 2);
    assert_eq!(assign_desk(&taken, "z"), Some(1));
}

#[test]
fn assign_desk_returns_none_when_full() {
    let mut taken: HashMap<String, usize> = HashMap::new();
    for i in 0..8 {
        taken.insert(format!("{i}"), i);
    }
    assert_eq!(assign_desk(&taken, "extra"), None);
}

#[test]
fn child_offset_pushes_right_for_left_parents() {
    let (dx, _) = child_offset_from_parent(0, 0);
    assert!(dx > 0, "left-column parent should put child to the right");
}

#[test]
fn child_offset_pushes_left_for_rightmost_parents() {
    let (dx, _) = child_offset_from_parent(6, 0);
    assert!(dx < 0, "rightmost-column parent should put child to the left");
    let (dx2, _) = child_offset_from_parent(7, 0);
    assert!(dx2 < 0);
}

#[test]
fn sibling_index_increases_offset_magnitude() {
    let (dx0, _) = child_offset_from_parent(0, 0);
    let (dx1, _) = child_offset_from_parent(0, 1);
    assert!(dx1.abs() > dx0.abs(), "later siblings should fan out further");
}

#[test]
fn anim_for_idle() {
    assert_eq!(anim_for(AgentStatus::Idle, None), AnimState::Idle);
    assert_eq!(anim_for(AgentStatus::Idle, Some("Edit")), AnimState::Idle);
}

#[test]
fn anim_for_waiting_beats_tool() {
    assert_eq!(anim_for(AgentStatus::Waiting, Some("Bash")), AnimState::Waiting);
    assert_eq!(anim_for(AgentStatus::Waiting, None), AnimState::Waiting);
}

#[test]
fn anim_for_error() {
    assert_eq!(anim_for(AgentStatus::Error, None), AnimState::Error);
}

#[test]
fn anim_for_working_tool_buckets() {
    let cases = [
        (Some("Edit"), AnimState::Typing),
        (Some("Write"), AnimState::Typing),
        (Some("MultiEdit"), AnimState::Typing),
        (Some("NotebookEdit"), AnimState::Typing),
        (Some("Read"), AnimState::Reading),
        (Some("Grep"), AnimState::Reading),
        (Some("Glob"), AnimState::Reading),
        (Some("Bash"), AnimState::Running),
        (Some("Task"), AnimState::Running),
    ];
    for (tool, expected) in cases {
        assert_eq!(
            anim_for(AgentStatus::Working, tool),
            expected,
            "tool {tool:?} should map to {expected:?}",
        );
    }
}

#[test]
fn anim_for_working_unknown_tool_defaults_typing() {
    assert_eq!(anim_for(AgentStatus::Working, Some("Mystery")), AnimState::Typing);
    assert_eq!(anim_for(AgentStatus::Working, None), AnimState::Typing);
}

#[test]
fn every_anim_state_has_at_least_one_frame() {
    for s in [
        AnimState::Idle,
        AnimState::Walk,
        AnimState::Typing,
        AnimState::Reading,
        AnimState::Running,
        AnimState::Waiting,
        AnimState::Error,
    ] {
        assert!(s.frame_count() >= 1, "{s:?} must have >=1 frame");
    }
}

/// The dots phase of the world clock at `elapsed` seconds: one step every
/// 0.4 s.
fn phase_at(elapsed: f32) -> i32 {
    (elapsed / 0.4) as i32
}

/// The bubble of an agent that has arrived at its desk.
fn seated_bubble(status: AgentStatus, tool: Option<&str>, elapsed: f32) -> Option<String> {
    let anim = anim_for(status, tool);
    bubble_text_at(false, false, anim, tool, phase_at(elapsed))
}

#[test]
fn bubble_text_hidden_while_walking_in() {
    let anim = anim_for(AgentStatus::Working, Some("Edit"));
    assert_eq!(bubble_text_at(true, false, anim, Some("Edit"), phase_at(0.0)), None);
}

#[test]
fn bubble_text_hidden_while_leaving() {
    let anim = anim_for(AgentStatus::Working, Some("Edit"));
    assert_eq!(bubble_text_at(false, true, anim, Some("Edit"), phase_at(0.0)), None);
}

#[test]
fn bubble_text_waiting_shows_waiting_with_dots_suffix() {
    let text = seated_bubble(AgentStatus::Waiting, None, 0.0).expect("waiting agent should have a bubble");
    assert!(text.starts_with("Waiting"), "got: {text:?}");
    assert_eq!(text.chars().count(), "Waiting".len() + 3, "trailing 3 chars always reserved: {text:?}");
}

#[test]
fn bubble_text_working_preserves_tool_casing() {
    let text = seated_bubble(AgentStatus::Working, Some("TodoWrite"), 0.0)
        .expect("working agent should have a bubble");
    assert!(text.starts_with("TodoWrite"), "got: {text:?}");
}

#[test]
fn bubble_text_preserves_camelcase_multi_edit() {
    let text = seated_bubble(AgentStatus::Working, Some("MultiEdit"), 0.0).unwrap();
    assert!(text.starts_with("MultiEdit"), "got: {text:?}");
}

#[test]
fn bubble_text_working_without_tool_falls_back_to_working_label() {
    let text = seated_bubble(AgentStatus::Working, None, 0.0).unwrap();
    assert!(text.starts_with("Working"), "got: {text:?}");
}

#[test]
fn bubble_text_truncates_long_tool_names() {
    let text = seated_bubble(AgentStatus::Working, Some("VeryLongHypotheticalToolName"), 0.0).unwrap();
    assert_eq!(text.chars().count(), 12 + 3, "got: {text:?}");
}

#[test]
fn bubble_text_dots_cycle_with_elapsed_time() {
    let t0 = seated_bubble(AgentStatus::Waiting, None, 0.0).unwrap();
    let t1 = seated_bubble(AgentStatus::Waiting, None, 0.4).unwrap();
    let t2 = seated_bubble(AgentStatus::Waiting, None, 0.8).unwrap();
    let t3 = seated_bubble(AgentStatus::Waiting, None, 1.2).unwrap();
    assert_eq!(t0.chars().count(), t3.chars().count());
    let suffix = |s: &str| s.strip_prefix("Waiting").unwrap().to_string();
    assert_eq!(suffix(&t0), "   ");
    assert_eq!(suffix(&t1), ".  ");
    assert_eq!(suffix(&t2), ".. ");
    assert_eq!(suffix(&t3), "...");
}

#[test]
fn truncate_tool_label_keeps_short_names_and_caps_long_ones() {
    assert_eq!(truncate_tool_label("Edit"), "Edit");
    assert_eq!(truncate_tool_label("ExactlyTwelv"), "ExactlyTwelv");
    assert_eq!(truncate_tool_label("VeryLongHypotheticalToolName"), "VeryLongHyp.");
}

#[test]
fn dots_wrap_for_negative_phases() {
    assert_eq!(dots_for_phase(-1), "...");
    assert_eq!(dots_for_phase(5), ".  ");
}

#[test]
fn error_bubble_has_no_dots() {
    assert_eq!(seated_bubble(AgentStatus::Error, None, 0.8), Some("Error".to_string()));
    assert_eq!(seated_bubble(AgentStatus::Idle, None, 0.8), None);
}
