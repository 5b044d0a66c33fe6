use claude_monitor::layout::{Facing, DOOR_X, DOOR_Y};
use claude_monitor::office::AnimState;
use claude_monitor::status::AgentStatus;
use claude_monitor::world::{step_actor, sync_from_snapshots, Actor, AgentView};

fn snap(id: &str, status: AgentStatus, tool: Option<&str>) -> AgentView {
    AgentView {
        session_id: id.into(),
        status,
        current_tool: tool.map(String::from),
        parent_id: None,
    }
}

fn child_snap(id: &str, parent: &str, status: AgentStatus) -> AgentView {
    let mut s = snap(id, status, None);
    s.parent_id = Some(parent.into());
    s
}

fn find<'a>(cast: &'a [Actor], id: &str) -> Option<&'a Actor> {
    cast.iter().find(|a| a.session_id == id)
}

/// Walks every character to its spot, as the window's ticks would.
fn arrive_all(cast: &mut Vec<Actor>) {
    for a in cast.iter_mut() {
        step_actor(a, true);
    }
}

#[test]
fn new_world_is_empty() {
    let cast = sync_from_snapshots(Vec::new(), Vec::new());
    assert!(cast.is_empty());
}

#[test]
fn sync_spawns_character_at_door_walking_in() {
    let cast = sync_from_snapshots(Vec::new(), vec![snap("a", AgentStatus::Working, Some("Edit"))]);
    assert_eq!(cast.len(), 1);
    let c = find(&cast, "a").unwrap();
    assert!(c.walking_in, "newly-spawned character should be walking in");
    assert_eq!(c.anim, AnimState::Walk);
    assert!(!c.leaving);
    assert!(c.target != (DOOR_X, DOOR_Y), "target should differ from door position");
    assert_eq!(c.target, (30, 60));
    assert_eq!(c.desk_index, Some(0));
    assert_eq!(c.facing, Facing::Right);
}

#[test]
fn sync_is_idempotent_on_repeated_snapshots() {
    let snaps = || vec![snap("a", AgentStatus::Working, Some("Edit"))];
    let mut cast = sync_from_snapshots(Vec::new(), snaps());
    cast = sync_from_snapshots(cast, snaps());
    cast = sync_from_snapshots(cast, snaps());
    assert_eq!(cast.len(), 1);
}

#[test]
fn sync_marks_dropped_session_as_leaving() {
    let cast = sync_from_snapshots(Vec::new(), vec![snap("a", AgentStatus::Working, Some("Edit"))]);
    let cast = sync_from_snapshots(cast, Vec::new());
    let c = find(&cast, "a").unwrap();
    assert!(c.leaving);
    assert!(!c.walking_in);
    assert_eq!(c.target, (DOOR_X, DOOR_Y));
    assert_eq!(c.anim, AnimState::Walk);
}

#[test]
fn arrived_character_switches_to_status_anim() {
    let mut cast = sync_from_snapshots(Vec::new(), vec![snap("a", AgentStatus::Working, Some("Read"))]);
    arrive_all(&mut cast);
    let c = find(&cast, "a").unwrap();
    assert!(!c.walking_in, "should have arrived");
    assert_eq!(c.anim, AnimState::Reading, "Read tool maps to Reading");
}

#[test]
fn status_change_after_arrival_updates_anim() {
    let mut cast = sync_from_snapshots(Vec::new(), vec![snap("a", AgentStatus::Working, Some("Read"))]);
    arrive_all(&mut cast);
    let cast = sync_from_snapshots(cast, vec![snap("a", AgentStatus::Working, Some("Edit"))]);
    let c = find(&cast, "a").unwrap();
    assert_eq!(c.anim, AnimState::Typing);
    assert!(c.restarted);
}

#[test]
fn child_spawns_next_to_parent_when_parent_already_present() {
    let mut cast = sync_from_snapshots(Vec::new(), vec![snap("parent", AgentStatus::Working, Some("Task"))]);
    arrive_all(&mut cast);
    let parent_pos = find(&cast, "parent").unwrap().target;
    let cast = sync_from_snapshots(
        cast,
        vec![
            snap("parent", AgentStatus::Working, Some("Task")),
            child_snap("child", "parent", AgentStatus::Working),
        ],
    );
    let child = find(&cast, "child").unwrap();
    let dx = (child.target.0 - parent_pos.0).abs();
    let dy = (child.target.1 - parent_pos.1).abs();
    assert!(dx <= 48, "child should target near parent x (dx={dx})");
    assert!(dy <= 48, "child should target near parent y (dy={dy})");
    assert_eq!(child.target, (46, 60));
    assert_eq!(child.desk_index, None);
}

#[test]
fn siblings_fan_out_in_id_order() {
    let cast = sync_from_snapshots(Vec::new(), vec![snap("p", AgentStatus::Working, None)]);
    let cast = sync_from_snapshots(
        cast,
        vec![
            snap("p", AgentStatus::Working, None),
            child_snap("zeta", "p", AgentStatus::Working),
            child_snap("alpha", "p", AgentStatus::Working),
        ],
    );
    assert_eq!(find(&cast, "alpha").unwrap().target, (46, 60));
    assert_eq!(find(&cast, "zeta").unwrap().target, (60, 60));
}

#[test]
fn child_without_present_parent_falls_back_to_fresh_desk() {
    let cast = sync_from_snapshots(
        Vec::new(),
        vec![child_snap("orphan", "missing_parent", AgentStatus::Working)],
    );
    let c = find(&cast, "orphan").unwrap();
    assert!(c.desk_index.is_some(), "orphan child should still get a desk");
}

#[test]
fn idle_agent_never_spawns_in_office() {
    let cast = sync_from_snapshots(Vec::new(), vec![snap("a", AgentStatus::Idle, None)]);
    assert!(find(&cast, "a").is_none(), "office should ignore Idle agents");
}

#[test]
fn working_to_idle_marks_character_leaving() {
    let cast = sync_from_snapshots(Vec::new(), vec![snap("a", AgentStatus::Working, Some("Edit"))]);
    let cast = sync_from_snapshots(cast, vec![snap("a", AgentStatus::Idle, None)]);
    let c = find(&cast, "a").unwrap();
    assert!(c.leaving, "idle agent's character should be heading for the door");
    assert_eq!(c.target, (DOOR_X, DOOR_Y));
}

#[test]
fn idle_then_working_lets_character_walk_back_in() {
    let cast = sync_from_snapshots(Vec::new(), vec![snap("a", AgentStatus::Working, Some("Edit"))]);
    let mut cast = sync_from_snapshots(cast, vec![snap("a", AgentStatus::Idle, None)]);
    // Fully faded characters are dropped by the window.
    cast.retain(|a| !a.leaving);
    let cast = sync_from_snapshots(cast, vec![snap("a", AgentStatus::Working, Some("Edit"))]);
    let c = find(&cast, "a").unwrap();
    assert!(c.walking_in);
    assert!(!c.leaving);
}

#[test]
fn a_full_office_parks_newcomers_by_the_door() {
    let snaps = || (0..9).map(|i| snap(&format!("s{i}"), AgentStatus::Working, None)).collect::<Vec<_>>();
    let cast = sync_from_snapshots(Vec::new(), snaps());
    let desks: Vec<_> = cast.iter().map(|a| a.desk_index).collect();
    assert_eq!(desks[..8], [Some(0), Some(1), Some(2), Some(3), Some(4), Some(5), Some(6), Some(7)]);
    assert_eq!(desks[8], None);
    assert_eq!(cast[8].target, (DOOR_X + 12, DOOR_Y));
}

#[test]
fn walking_restarts_the_walk_animation() {
    let mut cast = sync_from_snapshots(Vec::new(), vec![snap("a", AgentStatus::Working, Some("Read"))]);
    arrive_all(&mut cast);
    step_actor(&mut cast[0], false);
    assert_eq!(cast[0].anim, AnimState::Walk);
    assert!(cast[0].restarted);
    step_actor(&mut cast[0], false);
    assert!(!cast[0].restarted);
}

#[test]
fn staying_characters_never_share_a_desk() {
    let mut cast = sync_from_snapshots(
        Vec::new(),
        vec![
            snap("a", AgentStatus::Working, None),
            snap("b", AgentStatus::Working, None),
            snap("c", AgentStatus::Waiting, None),
        ],
    );
    // "b" goes idle and leaves; "d" arrives and takes the freed desk.
    cast = sync_from_snapshots(
        cast,
        vec![
            snap("a", AgentStatus::Working, None),
            snap("b", AgentStatus::Idle, None),
            snap("c", AgentStatus::Waiting, None),
            snap("d", AgentStatus::Working, None),
        ],
    );
    let staying: Vec<usize> = cast.iter().filter(|a| !a.leaving).filter_map(|a| a.desk_index).collect();
    assert_eq!(staying.len(), 3);
    for i in 0..staying.len() {
        for j in (i + 1)..staying.len() {
            assert_ne!(staying[i], staying[j]);
        }
    }
    assert_eq!(find(&cast, "d").unwrap().desk_index, Some(1));
}

#[test]
fn sync_carries_status_and_sends_the_rest_to_the_door() {
    let mut cast = sync_from_snapshots(
        Vec::new(),
        vec![snap("a", AgentStatus::Working, Some("Edit")), snap("b", AgentStatus::Working, None)],
    );
    cast = sync_from_snapshots(cast, vec![snap("a", AgentStatus::Waiting, Some("Bash"))]);
    assert_eq!(cast.len(), 2);
    let a = find(&cast, "a").unwrap();
    assert_eq!(a.status, AgentStatus::Waiting);
    assert_eq!(a.current_tool.as_deref(), Some("Bash"));
    assert!(!a.leaving);
    let b = find(&cast, "b").unwrap();
    assert!(b.leaving && !b.walking_in);
    assert_eq!(b.target, (DOOR_X, DOOR_Y));
}
