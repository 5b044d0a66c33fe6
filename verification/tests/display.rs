use claude_monitor::render::{
    bitmap_text_width, bubble_layout, frame_offset, glyph, text_pixels, Palette,
};
use claude_monitor::office::AnimState;
use claude_monitor::status::{AgentStatus, Filter, LogSource};
use claude_monitor::ui::{
    avatar_for, avatar_url, format_date_short, format_datetime, format_log_time, format_num,
    agent_label, group_thousands, model_short, project_label, push_capped, short_id, waiting_toast,
    LOG_RING_CAP,
};

#[test]
fn status_names_and_priority() {
    assert_eq!(AgentStatus::Waiting.css_class(), "waiting");
    assert_eq!(AgentStatus::Working.label(), "Working");
    assert!(AgentStatus::Error.is_active());
    assert!(!AgentStatus::Idle.is_active());
    let mut order = [AgentStatus::Idle, AgentStatus::Working, AgentStatus::Error, AgentStatus::Waiting];
    order.sort_by_key(|s| s.priority());
    assert_eq!(order, [AgentStatus::Waiting, AgentStatus::Error, AgentStatus::Working, AgentStatus::Idle]);
    assert_eq!(LogSource::Hook.css_class(), "hook");
    assert_eq!(LogSource::Jsonl.css_class(), "jsonl");
}

#[test]
fn filters() {
    assert!(Filter::All.matches(AgentStatus::Idle));
    assert!(Filter::Active.matches(AgentStatus::Waiting));
    assert!(!Filter::Active.matches(AgentStatus::Idle));
    assert!(Filter::Idle.matches(AgentStatus::Idle));
    assert!(!Filter::Idle.matches(AgentStatus::Error));
}

#[test]
fn datetime_formatting() {
    assert_eq!(format_datetime("2026-05-04T14:22:34.123Z"), "04 May 2026 14:22:34");
    assert_eq!(format_datetime("2026-05-04T14:22:34+02:00"), "04 May 2026 14:22:34");
    assert_eq!(format_datetime("2026-05-04TZ"), "04 May 2026");
    assert_eq!(format_datetime("not a date"), "not a date");
    assert_eq!(format_datetime("2026-13-04T10:00:00Z"), "2026-13-04T10:00:00Z");
    assert_eq!(format_datetime("2026-05T10:00:00Z"), "2026-05T10:00:00Z");
    assert_eq!(format_datetime("2026-05-04-01T10:00:00Z"), "2026-05-04-01T10:00:00Z");
}

#[test]
fn log_time_formatting() {
    assert_eq!(format_log_time("2026-05-04T14:22:34.123Z"), "14:22:34");
    assert_eq!(format_log_time("14:22"), "14:22");
}

#[test]
fn short_date_formatting() {
    assert_eq!(format_date_short("2026-05-04"), "04 May 26");
    assert_eq!(format_date_short("7-12-31"), "31 Dec 7");
    assert_eq!(format_date_short("2026-00-04"), "2026-00-04");
    assert_eq!(format_date_short("éa-05-04"), "éa-05-04");
    assert_eq!(format_date_short("20260504"), "20260504");
}

#[test]
fn project_labels() {
    assert_eq!(project_label(""), "(unknown project)");
    assert_eq!(project_label("/Users/me/code/monitor"), "monitor");
    assert_eq!(project_label("/Users/me/code/monitor//"), "monitor");
    assert_eq!(project_label("C:\\work\\app\\"), "app");
    assert_eq!(project_label("plain"), "plain");
    assert_eq!(project_label("///"), "");
}

#[test]
fn short_ids() {
    assert_eq!(short_id("8f14e45f-ceea-467a"), "8f14e45f");
    assert_eq!(short_id("abc"), "abc");
    assert_eq!(short_id(""), "");
}

#[test]
fn avatars_are_stable_per_session() {
    assert_eq!(avatar_for("abc"), "04_round_bot");
    assert_eq!(avatar_for(""), "06_fox_bot");
    assert_eq!(avatar_for("session-1"), "06_fox_bot");
    assert_eq!(avatar_for("8f14e45f-ceea-467a-9575-ddd6f7f2c1a1"), "02_teardrop_bot");
    assert_eq!(avatar_for("abc"), avatar_for("abc"));
    assert_eq!(avatar_url("05_cat_bot", 32), "/avatars/05_cat_bot/05_cat_bot_32.png");
}

#[test]
fn palettes() {
    let d = Palette::dark();
    assert_eq!(d.floor, "#1a2240");
    assert_eq!(d.muted, "#7d87a8");
    let l = Palette::from_theme("light");
    assert_eq!(l.floor, "#e8ecf6");
    assert_eq!(l.error, "#b91c1c");
    assert_eq!(Palette::from_theme("solarized").floor, "#1a2240");
}

#[test]
fn frame_offsets_cycle() {
    assert_eq!(frame_offset(AnimState::Walk, 1), (0, -1));
    assert_eq!(frame_offset(AnimState::Walk, 7), (0, 1));
    assert_eq!(frame_offset(AnimState::Typing, 4), (-1, 0));
    assert_eq!(frame_offset(AnimState::Running, 5), (-1, 1));
    assert_eq!(frame_offset(AnimState::Error, 3), (0, 0));
}

#[test]
fn bitmap_font() {
    assert_eq!(bitmap_text_width(""), 0);
    assert_eq!(bitmap_text_width("a"), 3);
    assert_eq!(bitmap_text_width("Waiting..."), 39);
    assert_eq!(glyph('A'), [0b010, 0b101, 0b111, 0b101, 0b101]);
    assert_eq!(glyph('q'), [0b000, 0b011, 0b101, 0b011, 0b001]);
    assert_eq!(glyph('~'), [0; 5]);
}

#[test]
fn bubbles_stay_inside_the_room() {
    let b = bubble_layout(120, 60, 27);
    assert_eq!((b.x, b.y, b.w, b.h), (105, 49, 31, 9));
    assert_eq!(b.nub_x, 119);
    let left = bubble_layout(2, 60, 27);
    assert_eq!(left.x, 1);
    assert_eq!(left.nub_x, 2);
    let right = bubble_layout(238, 60, 27);
    assert_eq!(right.x, 240 - 1 - 31);
    assert_eq!(right.nub_x, right.x + right.w - 3);
}

#[test]
fn format_num_groups_digits_by_three() {
    assert_eq!(format_num(0), "0");
    assert_eq!(format_num(999), "999");
    assert_eq!(format_num(1000), "1,000");
    assert_eq!(format_num(1234567), "1,234,567");
    assert_eq!(format_num(u64::MAX), "18,446,744,073,709,551,615");
}

#[test]
fn group_thousands_on_integer_part() {
    assert_eq!(group_thousands(""), "");
    assert_eq!(group_thousands("12"), "12");
    assert_eq!(group_thousands("123456"), "123,456");
    assert_eq!(group_thousands("1234"), "1,234");
}

#[test]
fn model_short_picks_family() {
    assert_eq!(model_short(""), "-");
    assert_eq!(model_short("x-opus-4-7"), "opus");
    assert_eq!(model_short("x-sonnet-4-5"), "sonnet");
    assert_eq!(model_short("x-haiku-3"), "haiku");
    assert_eq!(model_short("gpt-4o"), "gpt");
    assert_eq!(model_short("mistral"), "mistral");
}

#[test]
fn text_pixels_light_the_glyph_bits() {
    assert_eq!(text_pixels("-", 10, 20), vec![(10, 22), (11, 22), (12, 22)]);
    assert_eq!(text_pixels("i.", 0, 0), vec![(1, 0), (1, 2), (1, 3), (1, 4), (5, 4)]);
    assert!(text_pixels("  ", 0, 0).is_empty());
}

#[test]
fn event_log_keeps_the_latest_entries() {
    let mut log = vec![1, 2, 3];
    push_capped(&mut log, 4, 3);
    assert_eq!(log, vec![2, 3, 4]);
    push_capped(&mut log, 5, 10);
    assert_eq!(log, vec![2, 3, 4, 5]);
    let mut big: Vec<u32> = (0..LOG_RING_CAP as u32).collect();
    push_capped(&mut big, 9999, LOG_RING_CAP);
    assert_eq!(big.len(), LOG_RING_CAP);
    assert_eq!(big[0], 1);
    assert_eq!(*big.last().unwrap(), 9999);
}

#[test]
fn agents_are_named_by_project_or_short_id() {
    assert_eq!(agent_label("", "abcdef0123456789"), "abcdef01");
    assert_eq!(agent_label("/home/u/proj", "abcdef0123456789"), project_label("/home/u/proj"));
    assert_eq!(waiting_toast("", "abcdef0123456789"), "\u{23f3} abcdef01 is waiting");
}

#[test]
fn a_run_of_appends_keeps_the_latest() {
    let mut log: Vec<u32> = Vec::new();
    for x in 1..=7 {
        push_capped(&mut log, x, 3);
    }
    assert_eq!(log, vec![5, 6, 7]);
}
